//! The block of code around a line: a function, a type, an implementation.
use crate::text::{
    breaks_at, chars_of, contains, count_of, is_space, law_count_is_of_equals,
    law_trimming_takes_the_space_off, lines_of, occurs, starts_with, texts, trim, trimmed,
    without_return,
};
use vstd::prelude::*;

verus! {

/// Closing braces less opening braces.
pub open spec fn balance(text: Seq<char>) -> int {
    count_of(text, '}') - count_of(text, '{')
}

/// Closing braces less opening braces of a line, none where there is no such line.
pub open spec fn balance_at(lines: Seq<Seq<char>>, i: int) -> int {
    if 0 <= i < lines.len() {
        balance(lines[i])
    } else {
        0
    }
}

/// Closing braces less opening braces of the lines from `a` up to `b`, without `b`.
pub open spec fn span_balance(lines: Seq<Seq<char>>, a: int, b: int) -> int
    decreases b - a,
{
    if a >= b {
        0
    } else {
        span_balance(lines, a, b - 1) + balance_at(lines, b - 1)
    }
}

/// The line opens a declaration, by the words that it starts with or a function word inside it.
pub open spec fn declares(line: Seq<char>) -> bool {
    let t = trimmed(line);
    ||| "fn "@.is_prefix_of(t)
    ||| "struct "@.is_prefix_of(t)
    ||| "impl "@.is_prefix_of(t)
    ||| "enum "@.is_prefix_of(t)
    ||| "trait "@.is_prefix_of(t)
    ||| occurs(t, " fn "@)
}

/// Line `i` holds an opening brace that nothing after it closes, up to the end of the target line.
pub open spec fn opens(lines: Seq<Seq<char>>, target: int, i: int) -> bool {
    exists|p: int|
        0 <= p <= lines[i].len() && balance(#[trigger] lines[i].skip(p)) + span_balance(
            lines,
            i + 1,
            target + 1,
        ) < 0
}

/// The nearest line from `i` upwards that opens a declaration or an unclosed brace; the target
/// line where there is none.
pub open spec fn scope_start(lines: Seq<Seq<char>>, target: int, i: int) -> int
    decreases i + 1,
{
    if i < 0 {
        target
    } else if i < lines.len() && (declares(lines[i]) || opens(lines, target, i)) {
        i
    } else {
        scope_start(lines, target, i - 1)
    }
}

/// An opening brace stands between the start of the target line and character `p` of line `i`.
pub open spec fn opened(lines: Seq<Seq<char>>, target: int, i: int, p: int) -> bool {
    ||| lines[i].take(p).contains('{')
    ||| exists|k: int| target <= k < i && (#[trigger] lines[k]).contains('{')
}

/// Character `p` of line `i` is a closing brace with which the braces since the start of the
/// target line come out even.
pub open spec fn closes(lines: Seq<Seq<char>>, target: int, i: int, p: int) -> bool {
    &&& 0 <= p < lines[i].len()
    &&& lines[i][p] == '}'
    &&& opened(lines, target, i, p)
    &&& span_balance(lines, target, i) + balance(lines[i].take(p + 1)) == 0
}

/// The first line from `i` on that holds such a closing brace.
pub open spec fn scope_end(lines: Seq<Seq<char>>, target: int, i: int) -> Option<int>
    decreases lines.len() - i,
{
    if i >= lines.len() {
        None
    } else if exists|p: int| closes(lines, target, i, p) {
        Some(i)
    } else {
        scope_end(lines, target, i + 1)
    }
}

/// The first and the last line of the block around the target line. Where no brace closes it,
/// two lines before and after the target, as far as the text has them.
pub open spec fn scope_of(lines: Seq<Seq<char>>, target: int) -> (int, int) {
    match scope_end(lines, target, target) {
        Some(end) => (scope_start(lines, target, target), end),
        None => (
            if target < 2 { 0 } else { target - 2 },
            if lines.len() == 0 {
                0
            } else if target + 2 < lines.len() - 1 {
                target + 2
            } else {
                lines.len() - 1
            },
        ),
    }
}

/// The number of characters in the lines before line `n`.
pub open spec fn total_len(lines: Seq<Seq<char>>, n: int) -> nat
    decreases n,
{
    if n <= 0 {
        0
    } else {
        total_len(lines, n - 1) + lines[n - 1].len()
    }
}

proof fn lemma_count_concat(a: Seq<char>, b: Seq<char>, c: char)
    ensures
        count_of(a + b, c) == count_of(a, c) + count_of(b, c),
    decreases b.len(),
{
    if b.len() == 0 {
        assert(a + b =~= a);
    } else {
        assert((a + b).drop_last() =~= a + b.drop_last());
        assert((a + b).last() == b.last());
        lemma_count_concat(a, b.drop_last(), c);
    }
}

proof fn lemma_count_len(a: Seq<char>)
    ensures
        -a.len() <= balance(a) <= a.len(),
    decreases a.len(),
{
    if a.len() > 0 {
        lemma_count_len(a.drop_last());
    }
}

proof fn lemma_balance_take(line: Seq<char>, p: int)
    requires
        0 <= p < line.len(),
    ensures
        balance(line.take(p + 1)) == balance(line.take(p)) + (if line[p] == '}' {
            1int
        } else if line[p] == '{' {
            -1int
        } else {
            0int
        }),
{
    assert(line.take(p + 1).drop_last() =~= line.take(p));
}

proof fn lemma_balance_skip(line: Seq<char>, p: int)
    requires
        0 <= p < line.len(),
    ensures
        balance(line.skip(p)) == balance(line.skip(p + 1)) + (if line[p] == '}' {
            1int
        } else if line[p] == '{' {
            -1int
        } else {
            0int
        }),
{
    assert(line.skip(p) =~= seq![line[p]] + line.skip(p + 1));
    lemma_count_concat(seq![line[p]], line.skip(p + 1), '}');
    lemma_count_concat(seq![line[p]], line.skip(p + 1), '{');
    assert(seq![line[p]].drop_last() =~= Seq::<char>::empty());
    reveal_with_fuel(count_of, 2);
}

proof fn lemma_span_front(lines: Seq<Seq<char>>, a: int, b: int)
    requires
        a < b,
    ensures
        span_balance(lines, a, b) == balance_at(lines, a) + span_balance(lines, a + 1, b),
    decreases b - a,
{
    if a + 1 < b {
        lemma_span_front(lines, a, b - 1);
    } else {
        reveal_with_fuel(span_balance, 2);
    }
}

proof fn lemma_span_bound(lines: Seq<Seq<char>>, a: int, b: int)
    requires
        0 <= a <= b <= lines.len(),
    ensures
        -total_len(lines, b) + total_len(lines, a) <= span_balance(lines, a, b) <= total_len(
            lines,
            b,
        ) - total_len(lines, a),
    decreases b - a,
{
    if a < b {
        lemma_span_bound(lines, a, b - 1);
        lemma_count_len(lines[b - 1]);
    }
}

proof fn lemma_span_outside(lines: Seq<Seq<char>>, a: int, b: int)
    requires
        lines.len() <= a,
    ensures
        span_balance(lines, a, b) == 0,
    decreases b - a,
{
    if a < b {
        lemma_span_outside(lines, a, b - 1);
    }
}

proof fn lemma_total_mono(lines: Seq<Seq<char>>, a: int, b: int)
    requires
        0 <= a <= b <= lines.len(),
    ensures
        total_len(lines, a) <= total_len(lines, b),
    decreases b - a,
{
    if a < b {
        lemma_total_mono(lines, a, b - 1);
    }
}

/// Whether a line opens a declaration.
pub fn is_declaration(line: &str) -> (res: bool)
    ensures
        res == declares(line@),
{
    let t = trim(line);
    let t = t.as_str();
    starts_with(t, "fn ") || starts_with(t, "struct ") || starts_with(t, "impl ") || starts_with(
        t,
        "enum ",
    ) || starts_with(t, "trait ") || contains(t, " fn ")
}

/// The first line of the block: the nearest line from the target upwards that opens a declaration
/// or a brace that is still open.
fn find_scope_start(lines: &Vec<String>, target: usize) -> (res: usize)
    requires
        total_len(texts(lines@), lines@.len() as int) <= i64::MAX,
    ensures
        res == scope_start(texts(lines@), target as int, target as int),
{
    let ghost all = texts(lines@);
    let n: usize = lines.len();
    let mut depth: i64 = 0;
    // The lines from `i` on have been looked at.
    let mut i: usize = if target < n {
        target + 1
    } else {
        n
    };
    proof {
        if target >= n {
            lemma_skip_outside(all, target as int, target as int);
            lemma_span_outside(all, i as int, target + 1);
        }
    }
    while i > 0
        invariant
            n == lines@.len(),
            all == texts(lines@),
            i <= n,
            i <= target + 1,
            total_len(all, n as int) <= i64::MAX,
            depth >= 0,
            depth == span_balance(all, i as int, target + 1),
            scope_start(all, target as int, target as int) == scope_start(
                all,
                target as int,
                i - 1,
            ),
        decreases i,
    {
        let line = i - 1;
        let chars = chars_of(lines[line].as_str());
        assert(chars@ == all[line as int]);
        let ghost below = depth as int;
        let mut p: usize = chars.len();
        let mut open = false;
        assert(chars@.skip(p as int) =~= Seq::<char>::empty());
        assert(balance(Seq::<char>::empty()) == 0);
        proof {
            lemma_depth_bound(all, i as int, target + 1);
            lemma_total_mono(all, i as int, n as int);
        }
        while p > 0 && !open
            invariant
                chars@ == all[line as int],
                line + 1 <= n == all.len(),
                p <= chars@.len(),
                total_len(all, n as int) <= i64::MAX,
                below == span_balance(all, line + 1, target + 1),
                0 <= below <= total_len(all, n as int) - total_len(all, line + 1),
                depth == below + balance(chars@.skip(p as int)),
                open <==> depth < 0,
                depth >= -1,
                !open ==> forall|q: int|
                    p <= q <= chars@.len() ==> balance(#[trigger] chars@.skip(q)) + below >= 0,
            decreases p,
        {
            proof {
                lemma_balance_skip(chars@, p - 1);
                lemma_count_len(chars@.skip(p - 1));
                lemma_total_mono(all, line + 1, n as int);
            }
            p -= 1;
            if chars[p] == '}' {
                depth += 1;
            } else if chars[p] == '{' {
                depth -= 1;
                if depth < 0 {
                    open = true;
                }
            }
        }
        proof {
            assert(open == opens(all, target as int, line as int)) by {
                if open {
                    assert(balance(all[line as int].skip(p as int)) + span_balance(
                        all,
                        line + 1,
                        target + 1,
                    ) < 0);
                }
            }
        }
        if open || is_declaration(lines[line].as_str()) {
            return line;
        }
        proof {
            assert(chars@.skip(0) =~= chars@);
            lemma_span_front(all, line as int, target + 1);
        }
        i -= 1;
    }
    target
}

proof fn lemma_depth_bound(lines: Seq<Seq<char>>, a: int, b: int)
    requires
        0 <= a <= lines.len(),
    ensures
        span_balance(lines, a, b) <= total_len(lines, lines.len() as int) - total_len(lines, a),
    decreases b - a,
{
    lemma_total_mono(lines, a, lines.len() as int);
    if a < b {
        if b <= lines.len() {
            lemma_span_bound(lines, a, b);
            lemma_total_mono(lines, b, lines.len() as int);
        } else {
            lemma_depth_bound(lines, a, b - 1);
        }
    }
}

proof fn lemma_skip_outside(lines: Seq<Seq<char>>, target: int, i: int)
    requires
        i >= lines.len() - 1,
    ensures
        scope_start(lines, target, i) == scope_start(lines, target, lines.len() - 1),
    decreases i + 1,
{
    if i >= lines.len() {
        lemma_skip_outside(lines, target, i - 1);
    }
}

/// The last line of the block: the first line from the target on with a closing brace that evens
/// the braces out.
fn find_scope_end(lines: &Vec<String>, target: usize) -> (res: Option<usize>)
    requires
        total_len(texts(lines@), lines@.len() as int) <= i64::MAX,
    ensures
        match res {
            Some(end) => scope_end(texts(lines@), target as int, target as int) == Some(end as int),
            None => scope_end(texts(lines@), target as int, target as int) is None,
        },
{
    let ghost all = texts(lines@);
    let n: usize = lines.len();
    let mut depth: i64 = 0;
    let mut found = false;
    let mut i: usize = target;
    while i < n
        invariant
            n == lines@.len(),
            all == texts(lines@),
            target <= i,
            i <= n || i == target,
            total_len(all, n as int) <= i64::MAX,
            depth == span_balance(all, target as int, i as int),
            found <==> exists|k: int| target <= k < i && (#[trigger] all[k]).contains('{'),
            scope_end(all, target as int, target as int) == scope_end(
                all,
                target as int,
                i as int,
            ),
        decreases n - i,
    {
        let chars = chars_of(lines[i].as_str());
        assert(chars@ == all[i as int]);
        let ghost before = depth as int;
        let ghost found_before = found;
        let mut p: usize = 0;
        assert(chars@.take(0) =~= Seq::<char>::empty());
        assert(balance(Seq::<char>::empty()) == 0);
        while p < chars.len()
            invariant
                all == texts(lines@),
                chars@ == all[i as int],
                target <= i < n == all.len(),
                p <= chars@.len(),
                total_len(all, n as int) <= i64::MAX,
                before == span_balance(all, target as int, i as int),
                depth == before + balance(chars@.take(p as int)),
                found_before <==> exists|k: int|
                    target <= k < i && (#[trigger] all[k]).contains('{'),
                found <==> opened(all, target as int, i as int, p as int),
                forall|q: int| 0 <= q < p ==> !closes(all, target as int, i as int, q),
                scope_end(all, target as int, target as int) == scope_end(
                    all,
                    target as int,
                    i as int,
                ),
            decreases chars@.len() - p,
        {
            proof {
                lemma_balance_take(chars@, p as int);
                lemma_count_len(chars@.take(p + 1));
                lemma_span_bound(all, target as int, i as int);
                lemma_total_mono(all, i + 1, n as int);
                lemma_total_mono(all, 0, target as int);
                assert(chars@.take(p + 1) =~= chars@.take(p as int).push(chars@[p as int]));
                assert(chars@.take(p + 1).contains('{') <==> chars@.take(p as int).contains('{')
                    || chars@[p as int] == '{') by {
                    let longer = chars@.take(p + 1);
                    let shorter = chars@.take(p as int);
                    if longer.contains('{') {
                        let k = choose|k: int| 0 <= k < longer.len() && longer[k] == '{';
                        if k < p {
                            assert(shorter[k] == '{');
                        }
                    }
                    if shorter.contains('{') {
                        let k = choose|k: int| 0 <= k < shorter.len() && shorter[k] == '{';
                        assert(longer[k] == '{');
                    }
                    if chars@[p as int] == '{' {
                        assert(longer[p as int] == '{');
                    }
                }
            }
            if chars[p] == '{' {
                depth -= 1;
                found = true;
            } else if chars[p] == '}' {
                depth += 1;
                if found && depth == 0 {
                    assert(closes(all, target as int, i as int, p as int));
                    return Some(i);
                }
            }
            p += 1;
        }
        assert(chars@.take(p as int) =~= chars@);
        proof {
            assert forall|q: int| !closes(all, target as int, i as int, q) by {}
            assert(opened(all, target as int, i as int, p as int) <==> exists|k: int|
                target <= k < i + 1 && (#[trigger] all[k]).contains('{')) by {
                if all[i as int].contains('{') {
                    assert(target <= i < i + 1 && all[i as int].contains('{'));
                }
            }
        }
        i += 1;
    }
    None
}

/// The first and the last line of the block of code around a line.
pub fn determine_code_scope(lines: &Vec<String>, target_line: usize) -> (res: (usize, usize))
    requires
        target_line <= usize::MAX - 2,
        total_len(texts(lines@), lines@.len() as int) <= i64::MAX,
    ensures
        (res.0 as int, res.1 as int) == scope_of(texts(lines@), target_line as int),
{
    match find_scope_end(lines, target_line) {
        Some(end) => (find_scope_start(lines, target_line), end),
        None => {
            let n: usize = lines.len();
            let start: usize = if target_line < 2 {
                0
            } else {
                target_line - 2
            };
            let end: usize = if n == 0 {
                0
            } else if target_line + 2 < n - 1 {
                target_line + 2
            } else {
                n - 1
            };
            (start, end)
        },
    }
}

proof fn lemma_scope_start_above(lines: Seq<Seq<char>>, target: int, i: int)
    requires
        0 <= target,
        i <= target,
    ensures
        0 <= scope_start(lines, target, i) <= target,
    decreases i + 1,
{
    if i >= 0 {
        lemma_scope_start_above(lines, target, i - 1);
    }
}

proof fn lemma_scope_end_below(lines: Seq<Seq<char>>, target: int, i: int)
    requires
        target <= i,
    ensures
        scope_end(lines, target, i) matches Some(end) ==> target <= end < lines.len(),
    decreases lines.len() - i,
{
    if i < lines.len() {
        lemma_scope_end_below(lines, target, i + 1);
    }
}

/// The block around a line of the text holds that line, and lies within the text.
pub proof fn law_scope_holds_target(lines: Seq<Seq<char>>, target: int)
    requires
        0 <= target < lines.len(),
    ensures
        0 <= scope_of(lines, target).0 <= target <= scope_of(lines, target).1 < lines.len(),
{
    lemma_scope_start_above(lines, target, target);
    lemma_scope_end_below(lines, target, target);
}

proof fn lemma_total_cons(first: Seq<char>, rest: Seq<Seq<char>>, n: int)
    requires
        0 <= n <= rest.len(),
    ensures
        total_len(seq![first] + rest, n + 1) == first.len() + total_len(rest, n),
    decreases n,
{
    let all = seq![first] + rest;
    if n == 0 {
        assert(all[0] == first);
        reveal_with_fuel(total_len, 2);
    } else {
        lemma_total_cons(first, rest, n - 1);
        assert(all[n] == rest[n - 1]);
    }
}

/// The lines of a text hold no more characters than the text.
pub proof fn lemma_lines_total(text: Seq<char>)
    ensures
        total_len(lines_of(text), lines_of(text).len() as int) <= text.len(),
    decreases text.len(),
{
    if exists|i: int| breaks_at(text, i) {
        let i = choose|i: int| breaks_at(text, i);
        let rest = lines_of(text.skip(i + 1));
        lemma_lines_total(text.skip(i + 1));
        lemma_total_cons(without_return(text.take(i)), rest, rest.len() as int);
    } else if text.len() > 0 {
        reveal_with_fuel(total_len, 2);
    }
}

proof fn lemma_span_counts(lines: Seq<Seq<char>>, a: int, b: int)
    requires
        0 <= a <= b <= lines.len(),
    ensures
        span_balance(lines, a, b) == balance(lines.subrange(a, b).flatten()),
    decreases b - a,
{
    let part = lines.subrange(a, b);
    part.lemma_flatten_and_flatten_alt_are_equivalent();
    if a < b {
        let front = lines.subrange(a, b - 1);
        lemma_span_counts(lines, a, b - 1);
        front.lemma_flatten_and_flatten_alt_are_equivalent();
        assert(part.drop_last() =~= front);
        assert(part.last() == lines[b - 1]);
        lemma_count_concat(front.flatten(), lines[b - 1], '}');
        lemma_count_concat(front.flatten(), lines[b - 1], '{');
    } else {
        assert(part.len() == 0);
        assert(part.flatten() =~= Seq::<char>::empty());
    }
}

/// The balance of a text is the number of its closing braces less that of its opening ones.
proof fn lemma_balance_counts(text: Seq<char>)
    ensures
        balance(text) == text.filter(|c: char| c == '}').len() - text.filter(
            |c: char| c == '{',
        ).len(),
{
    law_count_is_of_equals(text, '}');
    law_count_is_of_equals(text, '{');
}

/// A line opens a declaration where it starts, behind its indentation, with one of the words that do,
/// or where a function word stands inside it between spaces.
pub proof fn law_declarations_are_known_by_their_words(
    before: Seq<char>,
    text: Seq<char>,
    after: Seq<char>,
)
    requires
        forall|i: int| 0 <= i < before.len() ==> is_space(#[trigger] before[i]),
        forall|i: int| 0 <= i < after.len() ==> is_space(#[trigger] after[i]),
        text.len() > 0 ==> !is_space(text[0]) && !is_space(text.last()),
    ensures
        declares(before + text + after) <==> {
            ||| "fn "@.is_prefix_of(text)
            ||| "struct "@.is_prefix_of(text)
            ||| "impl "@.is_prefix_of(text)
            ||| "enum "@.is_prefix_of(text)
            ||| "trait "@.is_prefix_of(text)
            ||| occurs(text, " fn "@)
        },
{
    law_trimming_takes_the_space_off(before, text, after);
}

/// A line has an open brace where, from some character on to the end of the target line, there are
/// more opening braces than closing ones.
pub proof fn law_open_brace_is_not_closed_up_to_the_target(
    lines: Seq<Seq<char>>,
    target: int,
    i: int,
)
    requires
        0 <= i <= target < lines.len(),
    ensures
        opens(lines, target, i) <==> exists|p: int|
            0 <= p <= lines[i].len() && ({
                let rest = #[trigger] lines[i].skip(p) + lines.subrange(
                    i + 1,
                    target + 1,
                ).flatten();
                rest.filter(|c: char| c == '{').len() > rest.filter(|c: char| c == '}').len()
            }),
{
    let below = lines.subrange(i + 1, target + 1).flatten();
    lemma_span_counts(lines, i + 1, target + 1);
    assert forall|p: int| 0 <= p <= lines[i].len() implies balance(#[trigger] lines[i].skip(p))
        + span_balance(lines, i + 1, target + 1) == balance(lines[i].skip(p) + below) by {
        lemma_count_concat(lines[i].skip(p), below, '}');
        lemma_count_concat(lines[i].skip(p), below, '{');
    }
    assert forall|p: int| 0 <= p <= lines[i].len() implies balance(
        #[trigger] lines[i].skip(p) + below,
    ) == (lines[i].skip(p) + below).filter(|c: char| c == '}').len() - (lines[i].skip(p)
        + below).filter(|c: char| c == '{').len() by {
        lemma_balance_counts(lines[i].skip(p) + below);
    }
    if opens(lines, target, i) {
        let p = choose|p: int|
            0 <= p <= lines[i].len() && balance(#[trigger] lines[i].skip(p)) + span_balance(
                lines,
                i + 1,
                target + 1,
            ) < 0;
        let rest = lines[i].skip(p) + below;
        assert(rest.filter(|c: char| c == '{').len() > rest.filter(|c: char| c == '}').len());
    }
    if exists|p: int|
        0 <= p <= lines[i].len() && ({
            let rest = #[trigger] lines[i].skip(p) + lines.subrange(i + 1, target + 1).flatten();
            rest.filter(|c: char| c == '{').len() > rest.filter(|c: char| c == '}').len()
        }) {
        let p = choose|p: int|
            0 <= p <= lines[i].len() && ({
                let rest = #[trigger] lines[i].skip(p) + lines.subrange(
                    i + 1,
                    target + 1,
                ).flatten();
                rest.filter(|c: char| c == '{').len() > rest.filter(|c: char| c == '}').len()
            });
        assert(balance(lines[i].skip(p)) + span_balance(lines, i + 1, target + 1) < 0);
    }
}

/// A closing brace closes the block where, from the start of the target line on and with that brace,
/// there are as many closing braces as opening ones, and one of the latter at least.
pub proof fn law_closing_brace_evens_the_braces_out(
    lines: Seq<Seq<char>>,
    target: int,
    i: int,
    p: int,
)
    requires
        0 <= target <= i < lines.len(),
        0 <= p < lines[i].len(),
    ensures
        ({
            let since = lines.subrange(target, i).flatten() + lines[i].take(p + 1);
            closes(lines, target, i, p) <==> {
                &&& lines[i][p] == '}'
                &&& since.contains('{')
                &&& since.filter(|c: char| c == '{').len() == since.filter(|c: char| c == '}').len()
            }
        }),
{
    let above = lines.subrange(target, i);
    let since = above.flatten() + lines[i].take(p + 1);
    lemma_span_counts(lines, target, i);
    lemma_count_concat(above.flatten(), lines[i].take(p + 1), '}');
    lemma_count_concat(above.flatten(), lines[i].take(p + 1), '{');
    lemma_balance_counts(since);
    if lines[i][p] == '}' {
        lemma_flatten_contains(above, '{');
        let (short, long) = (lines[i].take(p), lines[i].take(p + 1));
        assert(long =~= short.push('}'));
        if since.contains('{') {
            let k = choose|k: int| 0 <= k < since.len() && since[k] == '{';
            if k < above.flatten().len() {
                assert(above.flatten()[k] == '{');
                let m = choose|m: int| 0 <= m < above.len() && (#[trigger] above[m]).contains('{');
                assert(lines[target + m] == above[m]);
            } else {
                let q = k - above.flatten().len();
                assert(long[q] == '{');
                assert(short[q] == '{');
            }
        }
        if opened(lines, target, i, p) {
            if short.contains('{') {
                let q = choose|q: int| 0 <= q < short.len() && short[q] == '{';
                assert(since[above.flatten().len() + q] == '{');
            } else {
                let k = choose|k: int| target <= k < i && (#[trigger] lines[k]).contains('{');
                assert(above[k - target] == lines[k]);
                assert(above.flatten().contains('{'));
                let q = choose|q: int|
                    0 <= q < above.flatten().len() && above.flatten()[q] == '{';
                assert(since[q] == '{');
            }
        }
    }
}

proof fn lemma_flatten_contains(parts: Seq<Seq<char>>, c: char)
    ensures
        parts.flatten().contains(c) <==> exists|k: int|
            0 <= k < parts.len() && (#[trigger] parts[k]).contains(c),
    decreases parts.len(),
{
    parts.lemma_flatten_and_flatten_alt_are_equivalent();
    if parts.len() == 0 {
        assert(parts.flatten() =~= Seq::<char>::empty());
    } else {
        let front = parts.drop_last();
        let last = parts.last();
        front.lemma_flatten_and_flatten_alt_are_equivalent();
        lemma_flatten_contains(front, c);
        let n = front.flatten().len() as int;
        assert(parts.flatten() =~= front.flatten() + last);
        if parts.flatten().contains(c) {
            let j = choose|j: int| 0 <= j < parts.flatten().len() && parts.flatten()[j] == c;
            if j < n {
                assert(front.flatten()[j] == c);
                let k = choose|k: int| 0 <= k < front.len() && (#[trigger] front[k]).contains(c);
                assert(parts[k] == front[k]);
            } else {
                assert(last[j - n] == c);
                assert(parts[parts.len() - 1].contains(c));
            }
        }
        if exists|k: int| 0 <= k < parts.len() && (#[trigger] parts[k]).contains(c) {
            let k = choose|k: int| 0 <= k < parts.len() && (#[trigger] parts[k]).contains(c);
            if k < front.len() {
                assert(front[k] == parts[k]);
                let j = choose|j: int| 0 <= j < front.flatten().len() && front.flatten()[j] == c;
                assert(parts.flatten()[j] == c);
            } else {
                let j = choose|j: int| 0 <= j < last.len() && last[j] == c;
                assert(parts.flatten()[n + j] == c);
            }
        }
    }
}

proof fn lemma_scope_end_is_first(lines: Seq<Seq<char>>, target: int, i: int)
    requires
        target <= i,
    ensures
        match scope_end(lines, target, i) {
            Some(end) => i <= end < lines.len() && (exists|p: int| closes(lines, target, end, p))
                && forall|j: int, p: int| i <= j < end ==> !#[trigger] closes(lines, target, j, p),
            None => forall|j: int, p: int|
                i <= j < lines.len() ==> !#[trigger] closes(lines, target, j, p),
        },
    decreases lines.len() - i,
{
    if i < lines.len() {
        lemma_scope_end_is_first(lines, target, i + 1);
    }
}

proof fn lemma_scope_start_is_nearest(lines: Seq<Seq<char>>, target: int, i: int)
    requires
        i <= target < lines.len(),
    ensures
        ({
            let start = scope_start(lines, target, i);
            ||| {
                &&& 0 <= start <= i
                &&& declares(lines[start]) || opens(lines, target, start)
                &&& forall|j: int|
                    start < j <= i ==> !declares(#[trigger] lines[j]) && !opens(lines, target, j)
            }
            ||| {
                &&& start == target
                &&& forall|j: int|
                    0 <= j <= i ==> !declares(#[trigger] lines[j]) && !opens(lines, target, j)
            }
        }),
    decreases i + 1,
{
    if i >= 0 && !(declares(lines[i]) || opens(lines, target, i)) {
        lemma_scope_start_is_nearest(lines, target, i - 1);
    }
}

/// The block around a line ends with the first line from it on that holds a closing brace of the
/// block, and starts with the nearest line from it upwards that opens a declaration or has an open
/// brace; where there is no such line, it starts with the line itself.
pub proof fn law_block_reaches_from_opening_to_closing(
    lines: Seq<Seq<char>>,
    target: int,
    i: int,
    p: int,
)
    requires
        0 <= target <= i < lines.len(),
        closes(lines, target, i, p),
    ensures
        ({
            let (start, end) = scope_of(lines, target);
            &&& target <= end <= i
            &&& exists|q: int| closes(lines, target, end, q)
            &&& forall|j: int, q: int|
                target <= j < end ==> !#[trigger] closes(lines, target, j, q)
            &&& 0 <= start <= target
            &&& forall|j: int|
                start < j <= target ==> !declares(#[trigger] lines[j]) && !opens(lines, target, j)
            &&& start < target ==> declares(lines[start]) || opens(lines, target, start)
            &&& !declares(lines[start]) && !opens(lines, target, start) ==> forall|j: int|
                0 <= j <= target ==> !declares(#[trigger] lines[j]) && !opens(lines, target, j)
        }),
{
    lemma_scope_end_is_first(lines, target, target);
    lemma_scope_start_is_nearest(lines, target, target);
    let start = scope_start(lines, target, target);
    let end = scope_end(lines, target, target);
    assert(end is Some) by {
        if end is None {
            assert(!closes(lines, target, i, p));
        }
    }
    assert(end->0 <= i) by {
        if i < end->0 {
            assert(!closes(lines, target, i, p));
        }
    }
    assert(scope_of(lines, target) == (start, end->0));
    if !declares(lines[start]) && !opens(lines, target, start) {
        assert forall|j: int| 0 <= j <= target implies !declares(#[trigger] lines[j]) && !opens(
            lines,
            target,
            j,
        ) by {}
    }
}

/// Where no line from the target on closes a block, the block is the line with two lines before and
/// two after it, as far as the text has them.
pub proof fn law_unclosed_block_is_the_lines_around(lines: Seq<Seq<char>>, target: int)
    requires
        0 <= target < lines.len(),
        forall|i: int, p: int|
            target <= i < lines.len() ==> !#[trigger] closes(lines, target, i, p),
    ensures
        scope_of(lines, target).0 == if target >= 2 {
            target - 2
        } else {
            0
        },
        scope_of(lines, target).1 == if target + 2 <= lines.len() - 1 {
            target + 2
        } else {
            lines.len() - 1
        },
{
    lemma_scope_end_is_first(lines, target, target);
}

}
