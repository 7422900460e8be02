//! Text as sequences of characters: searching, splitting, replacing and joining.
use vstd::prelude::*;

verus! {

/// Appending one character, as `String::push` documents it.
pub assume_specification[ String::push ](text: &mut String, c: char)
    ensures
        final(text)@ == old(text)@.push(c),
;

/// The lower-case form of a text, by the full Unicode mapping.
pub uninterp spec fn lowercase(text: Seq<char>) -> Seq<char>;

/// `str::to_lowercase`. What the Unicode tables map each character to is left to the name.
pub assume_specification[ str::to_lowercase ](text: &str) -> (res: String)
    ensures
        res@ == lowercase(text@),
;

/// The texts behind a sequence of strings.
pub open spec fn texts(strings: Seq<String>) -> Seq<Seq<char>> {
    strings.map_values(|s: String| s@)
}

/// `pattern` stands in `text` at index `i`.
pub open spec fn occurs_at(text: Seq<char>, pattern: Seq<char>, i: int) -> bool {
    &&& 0 <= i
    &&& i + pattern.len() <= text.len()
    &&& text.subrange(i, i + pattern.len()) == pattern
}

/// `pattern` stands somewhere in `text`.
pub open spec fn occurs(text: Seq<char>, pattern: Seq<char>) -> bool {
    exists|i: int| occurs_at(text, pattern, i)
}

/// `i` is the first index at which `pattern` stands in `text`.
pub open spec fn first_at(text: Seq<char>, pattern: Seq<char>, i: int) -> bool {
    &&& occurs_at(text, pattern, i)
    &&& forall|j: int| 0 <= j < i ==> !occurs_at(text, pattern, j)
}

/// Every occurrence of `from`, taken from the left without overlap, replaced by `to`.
pub open spec fn replaced(text: Seq<char>, from: Seq<char>, to: Seq<char>) -> Seq<char>
    decreases text.len(),
{
    if from.len() > 0 && occurs(text, from) {
        let i = choose|i: int| first_at(text, from, i);
        if first_at(text, from, i) {
            text.take(i) + to + replaced(text.skip(i + from.len()), from, to)
        } else {
            text
        }
    } else {
        text
    }
}

/// The parts with `separator` between each two of them.
pub open spec fn joined(parts: Seq<Seq<char>>, separator: Seq<char>) -> Seq<char>
    decreases parts.len(),
{
    if parts.len() == 0 {
        Seq::empty()
    } else if parts.len() == 1 {
        parts[0]
    } else {
        joined(parts.drop_last(), separator) + separator + parts.last()
    }
}

/// The Unicode property White_Space.
pub open spec fn is_space(c: char) -> bool {
    let code = c as u32;
    ||| 0x9 <= code <= 0xd
    ||| code == 0x20
    ||| code == 0x85
    ||| code == 0xa0
    ||| code == 0x1680
    ||| 0x2000 <= code <= 0x200a
    ||| code == 0x2028
    ||| code == 0x2029
    ||| code == 0x202f
    ||| code == 0x205f
    ||| code == 0x3000
}

/// The text without the white space at its start.
pub open spec fn trimmed_start(text: Seq<char>) -> Seq<char>
    decreases text.len(),
{
    if text.len() > 0 && is_space(text[0]) {
        trimmed_start(text.skip(1))
    } else {
        text
    }
}

/// The text without the white space at its end.
pub open spec fn trimmed_end(text: Seq<char>) -> Seq<char>
    decreases text.len(),
{
    if text.len() > 0 && is_space(text.last()) {
        trimmed_end(text.drop_last())
    } else {
        text
    }
}

/// The text without the white space at either end.
pub open spec fn trimmed(text: Seq<char>) -> Seq<char> {
    trimmed_end(trimmed_start(text))
}

/// A line without the carriage return that a line break of two characters leaves at its end.
pub open spec fn without_return(line: Seq<char>) -> Seq<char> {
    if line.len() > 0 && line.last() == '\r' {
        line.drop_last()
    } else {
        line
    }
}

/// `i` is the index of the first line feed in `text`.
pub open spec fn breaks_at(text: Seq<char>, i: int) -> bool {
    &&& 0 <= i < text.len()
    &&& text[i] == '\n'
    &&& forall|j: int| 0 <= j < i ==> text[j] != '\n'
}

/// The lines of a text. Each line feed ends a line, and takes a carriage return before it
/// along; what follows the last line feed is a line where it is not empty.
pub open spec fn lines_of(text: Seq<char>) -> Seq<Seq<char>>
    decreases text.len(),
{
    if text.len() == 0 {
        Seq::empty()
    } else if exists|i: int| breaks_at(text, i) {
        let i = choose|i: int| breaks_at(text, i);
        seq![without_return(text.take(i))] + lines_of(text.skip(i + 1))
    } else {
        seq![text]
    }
}

/// The decimal digits of a number.
pub open spec fn digits_of(n: nat) -> Seq<char>
    decreases n,
{
    if n < 10 {
        seq![(n + 48) as char]
    } else {
        digits_of(n / 10).push((n % 10 + 48) as char)
    }
}

/// The number of times that `c` stands in `text`.
pub open spec fn count_of(text: Seq<char>, c: char) -> nat
    decreases text.len(),
{
    if text.len() == 0 {
        0
    } else {
        count_of(text.drop_last(), c) + if text.last() == c { 1nat } else { 0nat }
    }
}

/// The number of characters before the first white space.
pub open spec fn word_len(text: Seq<char>) -> nat
    decreases text.len(),
{
    if text.len() == 0 || is_space(text[0]) {
        0
    } else {
        1 + word_len(text.skip(1))
    }
}

/// The words of a text: the longest runs of characters that are not white space.
pub open spec fn words_of(text: Seq<char>) -> Seq<Seq<char>>
    decreases text.len(),
{
    if text.len() == 0 {
        Seq::empty()
    } else if is_space(text[0]) {
        words_of(text.skip(1))
    } else {
        proof {
            lemma_word_len(text);
        }
        let n = word_len(text) as int;
        seq![text.take(n)] + words_of(text.skip(n))
    }
}

pub proof fn lemma_word_len(text: Seq<char>)
    ensures
        word_len(text) <= text.len(),
    decreases text.len(),
{
    if text.len() > 0 && !is_space(text[0]) {
        lemma_word_len(text.skip(1));
    }
}

/// The characters of a text.
pub fn chars_of(text: &str) -> (res: Vec<char>)
    ensures
        res@ == text@,
{
    let mut chars: Vec<char> = Vec::new();
    for c in iter: text.chars()
        invariant
            iter.seq() == text@,
            chars@ == text@.take(iter.index()),
    {
        chars.push(c);
        assert(text@.take(iter.index() + 1) =~= text@.take(iter.index()).push(c));
    }
    assert(text@.take(text@.len() as int) =~= text@);
    chars
}

/// The text of a range of characters.
pub fn string_of(chars: &Vec<char>, from: usize, to: usize) -> (res: String)
    requires
        from <= to <= chars@.len(),
    ensures
        res@ == chars@.subrange(from as int, to as int),
{
    let mut text = String::new();
    let mut i: usize = from;
    while i < to
        invariant
            from <= i <= to <= chars@.len(),
            text@ == chars@.subrange(from as int, i as int),
        decreases to - i,
    {
        text.push(chars[i]);
        i += 1;
        assert(chars@.subrange(from as int, i as int) =~= chars@.subrange(
            from as int,
            i - 1,
        ).push(chars@[i - 1]));
    }
    text
}

/// Whether two texts are the same.
pub fn equal(a: &str, b: &str) -> (res: bool)
    ensures
        res == (a@ == b@),
{
    let x = a.to_owned();
    let y = b.to_owned();
    x == y
}

fn occurs_here(text: &Vec<char>, pattern: &Vec<char>, i: usize) -> (res: bool)
    ensures
        res == occurs_at(text@, pattern@, i as int),
{
    let total: usize = text.len();
    if i > total || pattern.len() > total - i {
        return false;
    }
    let mut k: usize = 0;
    while k < pattern.len()
        invariant
            k <= pattern@.len(),
            total == text@.len(),
            i + pattern@.len() <= total,
            forall|j: int| 0 <= j < k ==> text@[i + j] == pattern@[j],
        decreases pattern@.len() - k,
    {
        if text[i + k] != pattern[k] {
            assert(text@.subrange(i as int, i + pattern@.len())[k as int] != pattern@[k as int]);
            return false;
        }
        k += 1;
    }
    assert(text@.subrange(i as int, i + pattern@.len()) =~= pattern@);
    true
}

/// The first index from `from` on at which `pattern` stands in `text`.
fn next_at(text: &Vec<char>, pattern: &Vec<char>, from: usize) -> (res: Option<usize>)
    requires
        from <= text@.len(),
    ensures
        match res {
            Some(i) => from <= i && occurs_at(text@, pattern@, i as int) && forall|j: int|
                from <= j < i ==> !occurs_at(text@, pattern@, j),
            None => forall|j: int| from <= j ==> !occurs_at(text@, pattern@, j),
        },
{
    let mut i: usize = from;
    while i < text.len()
        invariant
            from <= i <= text@.len(),
            forall|j: int| from <= j < i ==> !occurs_at(text@, pattern@, j),
        decreases text@.len() - i,
    {
        if occurs_here(text, pattern, i) {
            return Some(i);
        }
        i += 1;
    }
    if occurs_here(text, pattern, i) {
        Some(i)
    } else {
        None
    }
}

/// Whether `pattern` stands somewhere in `text`.
pub fn contains(text: &str, pattern: &str) -> (res: bool)
    ensures
        res == occurs(text@, pattern@),
{
    let t = chars_of(text);
    let p = chars_of(pattern);
    match next_at(&t, &p, 0) {
        Some(i) => {
            assert(occurs_at(text@, pattern@, i as int));
            true
        },
        None => {
            assert(forall|j: int| occurs_at(text@, pattern@, j) ==> 0 <= j);
            false
        },
    }
}

/// Whether `text` starts with `pattern`.
pub fn starts_with(text: &str, pattern: &str) -> (res: bool)
    ensures
        res == pattern@.is_prefix_of(text@),
{
    let t = chars_of(text);
    let p = chars_of(pattern);
    occurs_here(&t, &p, 0)
}

/// Whether `text` ends with `pattern`.
pub fn ends_with(text: &str, pattern: &str) -> (res: bool)
    ensures
        res == pattern@.is_suffix_of(text@),
{
    let t = chars_of(text);
    let p = chars_of(pattern);
    if p.len() > t.len() {
        return false;
    }
    occurs_here(&t, &p, t.len() - p.len())
}

proof fn lemma_first_at_unique(text: Seq<char>, pattern: Seq<char>, i: int, j: int)
    requires
        first_at(text, pattern, i),
        first_at(text, pattern, j),
    ensures
        i == j,
{
    if i < j {
        assert(!occurs_at(text, pattern, i));
    } else if j < i {
        assert(!occurs_at(text, pattern, j));
    }
}

/// One step of a replacement: what stands before the first occurrence stays, the occurrence
/// gives way to `to`, and the rest is replaced in turn.
pub proof fn lemma_replaced_step(text: Seq<char>, from: Seq<char>, to: Seq<char>, i: int)
    requires
        from.len() > 0,
        first_at(text, from, i),
    ensures
        replaced(text, from, to) == text.take(i) + to + replaced(
            text.skip(i + from.len()),
            from,
            to,
        ),
{
    assert(occurs(text, from));
    let j = choose|j: int| first_at(text, from, j);
    lemma_first_at_unique(text, from, i, j);
}

/// A text in which the pattern does not stand stays as it is.
pub proof fn lemma_replaced_absent(text: Seq<char>, from: Seq<char>, to: Seq<char>)
    requires
        !occurs(text, from),
    ensures
        replaced(text, from, to) == text,
{
}

/// Every occurrence of `from`, taken from the left without overlap, replaced by `to`.
pub fn replace(text: &str, from: &str, to: &str) -> (res: String)
    requires
        from@.len() > 0,
    ensures
        res@ == replaced(text@, from@, to@),
{
    let t = chars_of(text);
    let f = chars_of(from);
    let total: usize = t.len();
    let mut out = String::new();
    let mut start: usize = 0;
    assert(text@.skip(0) =~= text@);
    loop
        invariant_except_break
            replaced(text@, from@, to@) == out@ + replaced(text@.skip(start as int), from@, to@),
        invariant
            start <= total,
            total == t@.len(),
            t@ == text@,
            f@ == from@,
            from@.len() > 0,
        ensures
            out@ == replaced(text@, from@, to@),
        decreases total - start,
    {
        let ghost rest = text@.skip(start as int);
        match next_at(&t, &f, start) {
            Some(i) => {
                let ghost k = i - start;
                proof {
                    assert forall|j: int| 0 <= j && j + from@.len() <= rest.len() implies rest.subrange(
                        j,
                        j + from@.len(),
                    ) == #[trigger] text@.subrange(start + j, start + j + from@.len()) by {
                        assert(rest.subrange(j, j + from@.len()) =~= text@.subrange(
                            start + j,
                            start + j + from@.len(),
                        ));
                    }
                    assert(rest.subrange(k, k + from@.len()) =~= text@.subrange(
                        start + k,
                        start + k + from@.len(),
                    ));
                    assert forall|j: int| 0 <= j < k implies !occurs_at(rest, from@, j) by {
                        assert(!occurs_at(text@, from@, start + j));
                        if occurs_at(rest, from@, j) {
                            assert(rest.subrange(j, j + from@.len()) =~= text@.subrange(
                                start + j,
                                start + j + from@.len(),
                            ));
                        }
                    }
                    lemma_replaced_step(rest, from@, to@, k);
                    assert(rest.skip(k + from@.len()) =~= text@.skip(i + from@.len()));
                    assert(rest.take(k) =~= text@.subrange(start as int, i as int));
                }
                let kept = string_of(&t, start, i);
                out.append(kept.as_str());
                out.append(to);
                start = i + f.len();
                assert(replaced(text@, from@, to@) =~= out@ + replaced(
                    text@.skip(start as int),
                    from@,
                    to@,
                ));
            },
            None => {
                proof {
                    assert forall|j: int| !occurs_at(rest, from@, j) by {
                        if occurs_at(rest, from@, j) {
                            assert(rest.subrange(j, j + from@.len()) =~= text@.subrange(
                                start + j,
                                start + j + from@.len(),
                            ));
                            assert(occurs_at(text@, from@, start + j));
                        }
                    }
                    lemma_replaced_absent(rest, from@, to@);
                    assert(rest =~= text@.subrange(start as int, text@.len() as int));
                }
                let kept = string_of(&t, start, total);
                out.append(kept.as_str());
                break;
            },
        }
    }
    out
}

/// The parts with `separator` between each two of them.
pub fn join(parts: &Vec<String>, separator: &str) -> (res: String)
    ensures
        res@ == joined(texts(parts@), separator@),
{
    let mut out = String::new();
    let mut i: usize = 0;
    while i < parts.len()
        invariant
            i <= parts@.len(),
            out@ == joined(texts(parts@).take(i as int), separator@),
        decreases parts@.len() - i,
    {
        let ghost before = texts(parts@).take(i as int);
        let ghost after = texts(parts@).take(i + 1);
        assert(after.drop_last() =~= before);
        assert(after.last() == parts@[i as int]@);
        if i > 0 {
            out.append(separator);
        }
        out.append(parts[i].as_str());
        assert(out@ =~= joined(after, separator@));
        i += 1;
    }
    assert(texts(parts@).take(i as int) =~= texts(parts@));
    out
}

proof fn lemma_lines_step(text: Seq<char>, i: int)
    requires
        breaks_at(text, i),
    ensures
        lines_of(text) == seq![without_return(text.take(i))] + lines_of(text.skip(i + 1)),
{
    let j = choose|j: int| breaks_at(text, j);
    assert(breaks_at(text, j));
    assert(i == j);
}

/// The lines of a text, without their line breaks.
pub fn lines(text: &str) -> (res: Vec<String>)
    ensures
        texts(res@) == lines_of(text@),
{
    let chars = chars_of(text);
    let mut out: Vec<String> = Vec::new();
    let mut start: usize = 0;
    let mut i: usize = 0;
    assert(text@.skip(0) =~= text@);
    while i < chars.len()
        invariant
            chars@ == text@,
            start <= i <= chars@.len(),
            forall|j: int| start <= j < i ==> text@[j] != '\n',
            lines_of(text@) == texts(out@) + lines_of(text@.skip(start as int)),
        decreases chars@.len() - i,
    {
        if chars[i] == '\n' {
            let ghost rest = text@.skip(start as int);
            let ghost before = out@;
            let end: usize = if i > start && chars[i - 1] == '\r' {
                i - 1
            } else {
                i
            };
            let line = string_of(&chars, start, end);
            proof {
                assert(breaks_at(rest, i - start));
                lemma_lines_step(rest, i - start);
                assert(rest.take(i - start) =~= text@.subrange(start as int, i as int));
                assert(line@ =~= without_return(rest.take(i - start)));
                assert(rest.skip(i - start + 1) =~= text@.skip(i + 1));
            }
            out.push(line);
            assert(texts(out@) =~= texts(before).push(line@));
            start = i + 1;
            assert(lines_of(text@) =~= texts(out@) + lines_of(text@.skip(start as int)));
        }
        i += 1;
    }
    let ghost rest = text@.skip(start as int);
    if start < chars.len() {
        let ghost before = out@;
        let line = string_of(&chars, start, chars.len());
        proof {
            assert(line@ =~= rest);
            assert forall|j: int| !breaks_at(rest, j) by {
                if breaks_at(rest, j) {
                    assert(text@[start + j] == '\n');
                }
            }
        }
        out.push(line);
        assert(texts(out@) =~= texts(before).push(line@));
    }
    assert(lines_of(text@) =~= texts(out@));
    out
}

/// Whether a character is white space.
pub fn is_white_space(c: char) -> (res: bool)
    ensures
        res == is_space(c),
{
    let code = c as u32;
    (0x9 <= code && code <= 0xd) || code == 0x20 || code == 0x85 || code == 0xa0 || code == 0x1680
        || (0x2000 <= code && code <= 0x200a) || code == 0x2028 || code == 0x2029 || code == 0x202f
        || code == 0x205f || code == 0x3000
}

/// The text without the white space at either end.
pub fn trim(text: &str) -> (res: String)
    ensures
        res@ == trimmed(text@),
{
    let chars = chars_of(text);
    let mut from: usize = 0;
    assert(text@.skip(0) =~= text@);
    while from < chars.len() && is_white_space(chars[from])
        invariant
            chars@ == text@,
            from <= chars@.len(),
            trimmed_start(text@) == trimmed_start(text@.skip(from as int)),
        decreases chars@.len() - from,
    {
        assert(text@.skip(from as int).skip(1) =~= text@.skip(from + 1));
        from += 1;
    }
    let ghost body = text@.skip(from as int);
    assert(trimmed_start(text@) == body);
    let mut to: usize = chars.len();
    assert(text@.subrange(from as int, to as int) =~= body);
    while to > from && is_white_space(chars[to - 1])
        invariant
            chars@ == text@,
            from <= to <= chars@.len(),
            trimmed_end(body) == trimmed_end(text@.subrange(from as int, to as int)),
        decreases to,
    {
        assert(text@.subrange(from as int, to as int).drop_last() =~= text@.subrange(
            from as int,
            to - 1,
        ));
        to -= 1;
    }
    string_of(&chars, from, to)
}

/// The decimal digits of a number.
pub fn decimal(n: u64) -> (res: String)
    ensures
        res@ == digits_of(n as nat),
    decreases n,
{
    let last: char = (48u8 + (n % 10) as u8) as char;
    let mut out = if n < 10 {
        String::new()
    } else {
        decimal(n / 10)
    };
    out.push(last);
    assert(out@ =~= digits_of(n as nat));
    out
}

/// How often a character stands in a text.
pub fn count(text: &str, c: char) -> (res: usize)
    ensures
        res == count_of(text@, c),
{
    let chars = chars_of(text);
    let mut n: usize = 0;
    let mut i: usize = 0;
    while i < chars.len()
        invariant
            chars@ == text@,
            n <= i <= chars@.len(),
            n == count_of(text@.take(i as int), c),
        decreases chars@.len() - i,
    {
        assert(text@.take(i + 1).drop_last() =~= text@.take(i as int));
        if chars[i] == c {
            n += 1;
        }
        i += 1;
    }
    assert(text@.take(i as int) =~= text@);
    n
}

/// The words of a text.
pub fn words(text: &str) -> (res: Vec<String>)
    ensures
        texts(res@) == words_of(text@),
{
    let chars = chars_of(text);
    let mut out: Vec<String> = Vec::new();
    let mut i: usize = 0;
    assert(text@.skip(0) =~= text@);
    while i < chars.len()
        invariant
            chars@ == text@,
            i <= chars@.len(),
            words_of(text@) == texts(out@) + words_of(text@.skip(i as int)),
        decreases chars@.len() - i,
    {
        let ghost rest = text@.skip(i as int);
        if is_white_space(chars[i]) {
            assert(rest.skip(1) =~= text@.skip(i + 1));
            i += 1;
        } else {
            let start: usize = i;
            while i < chars.len() && !is_white_space(chars[i])
                invariant
                    chars@ == text@,
                    start <= i <= chars@.len(),
                    rest == text@.skip(start as int),
                    word_len(rest) == i - start + word_len(text@.skip(i as int)),
                decreases chars@.len() - i,
            {
                assert(text@.skip(i as int).skip(1) =~= text@.skip(i + 1));
                i += 1;
            }
            let word = string_of(&chars, start, i);
            let ghost before = out@;
            proof {
                assert(word_len(text@.skip(i as int)) == 0);
                assert(i > start) by {
                    assert(word_len(rest) == 1 + word_len(rest.skip(1)));
                }
                assert(word@ =~= rest.take(i - start));
                assert(rest.skip(i - start) =~= text@.skip(i as int));
            }
            out.push(word);
            assert(texts(out@) =~= texts(before).push(word@));
            assert(words_of(text@) =~= texts(out@) + words_of(text@.skip(i as int)));
        }
    }
    assert(words_of(text@) =~= texts(out@));
    out
}

/// A pattern stands in a text exactly where the text is something, the pattern and something more.
pub proof fn law_occurrence_is_a_part(text: Seq<char>, pattern: Seq<char>)
    ensures
        occurs(text, pattern) <==> exists|before: Seq<char>, after: Seq<char>|
            text == #[trigger] (before + pattern + after),
{
    if occurs(text, pattern) {
        let i = choose|i: int| occurs_at(text, pattern, i);
        let (before, after) = (text.take(i), text.skip(i + pattern.len()));
        assert(text =~= before + pattern + after);
    }
    if exists|before: Seq<char>, after: Seq<char>| text == #[trigger] (before + pattern + after) {
        let (before, after) = choose|before: Seq<char>, after: Seq<char>|
            text == #[trigger] (before + pattern + after);
        assert(text.subrange(before.len() as int, before.len() as int + pattern.len()) =~= pattern);
        assert(occurs_at(text, pattern, before.len() as int));
    }
}

/// Each part stands in the text into which the parts are joined.
pub proof fn lemma_part_occurs(parts: Seq<Seq<char>>, separator: Seq<char>, i: int)
    requires
        0 <= i < parts.len(),
    ensures
        occurs(joined(parts, separator), parts[i]),
    decreases parts.len(),
{
    let whole = joined(parts, separator);
    let none = Seq::<char>::empty();
    if parts.len() == 1 {
        assert(whole =~= none + parts[0] + none);
        law_occurrence_is_a_part(whole, parts[i]);
    } else if i == parts.len() - 1 {
        let front = joined(parts.drop_last(), separator) + separator;
        assert(whole =~= front + parts[i] + none);
        law_occurrence_is_a_part(whole, parts[i]);
    } else {
        let front = joined(parts.drop_last(), separator);
        lemma_part_occurs(parts.drop_last(), separator, i);
        assert(parts.drop_last()[i] == parts[i]);
        law_occurrence_is_a_part(front, parts[i]);
        let (before, after) = choose|before: Seq<char>, after: Seq<char>|
            front == #[trigger] (before + parts[i] + after);
        assert(whole =~= before + parts[i] + (after + separator + parts.last()));
        law_occurrence_is_a_part(whole, parts[i]);
    }
}

/// Joining puts the separator between the parts and nowhere else: nothing comes of no parts, one
/// part stands as it is, and two lists of parts are joined like two parts.
pub proof fn law_joined_lists_join(a: Seq<Seq<char>>, b: Seq<Seq<char>>, separator: Seq<char>)
    ensures
        a.len() == 0 ==> joined(a, separator).len() == 0,
        a.len() == 1 ==> joined(a, separator) == a[0],
        a.len() > 0 && b.len() > 0 ==> joined(a + b, separator) == joined(a, separator) + separator
            + joined(b, separator),
    decreases b.len(),
{
    if a.len() > 0 && b.len() > 0 {
        assert((a + b).drop_last() =~= a + b.drop_last());
        assert((a + b).last() == b.last());
        if b.len() == 1 {
            assert(a + b.drop_last() =~= a);
        } else {
            law_joined_lists_join(a, b.drop_last(), separator);
        }
        assert(joined(a + b, separator) =~= joined(a, separator) + separator + joined(
            b,
            separator,
        ));
    }
}

/// The number of times that a character stands in a text is that of the characters equal to it.
pub proof fn law_count_is_of_equals(text: Seq<char>, c: char)
    ensures
        count_of(text, c) == text.filter(|own: char| own == c).len(),
    decreases text.len(),
{
    reveal(Seq::filter);
    if text.len() > 0 {
        law_count_is_of_equals(text.drop_last(), c);
    }
}

/// The texts behind some strings are as many as the strings, in their order.
pub proof fn law_texts_are_those_of_the_strings(strings: Seq<String>)
    ensures
        texts(strings).len() == strings.len(),
        forall|i: int| 0 <= i < strings.len() ==> #[trigger] texts(strings)[i] == strings[i]@,
{
}

/// White space is the space, the tabulator, the breaks of lines and pages, and the spaces of
/// Unicode, and no other character.
pub proof fn law_white_space(c: char)
    ensures
        is_space(c) <==> {
            ||| c == ' ' || c == '\t' || c == '\n' || c == '\u{b}' || c == '\u{c}' || c == '\r'
            ||| c == '\u{85}' || c == '\u{a0}' || c == '\u{1680}'
            ||| '\u{2000}' <= c <= '\u{200a}'
            ||| c == '\u{2028}' || c == '\u{2029}' || c == '\u{202f}' || c == '\u{205f}'
            ||| c == '\u{3000}'
        },
{
}

/// A line feed ends a line, with a carriage return before it; what follows is read on its own. A
/// text without line feeds is one line, unless it is empty.
pub proof fn law_lines_are_read_in_order(line: Seq<char>, rest: Seq<char>)
    requires
        !line.contains('\n'),
    ensures
        line.len() == 0 ==> lines_of(line).len() == 0,
        line.len() > 0 ==> lines_of(line) == seq![line],
        lines_of(line + seq!['\n'] + rest) == seq![
            if line.len() > 0 && line.last() == '\r' {
                line.drop_last()
            } else {
                line
            },
        ] + lines_of(rest),
{
    assert forall|i: int| !breaks_at(line, i) by {
        if breaks_at(line, i) {
            assert(line[i] == '\n');
        }
    }
    let whole = line + seq!['\n'] + rest;
    let n = line.len() as int;
    assert forall|j: int| 0 <= j < n implies whole[j] != '\n' by {
        assert(whole[j] == line[j]);
    }
    assert(breaks_at(whole, n));
    lemma_lines_step(whole, n);
    assert(whole.take(n) =~= line);
    assert(whole.skip(n + 1) =~= rest);
}

proof fn lemma_word_len_is(word: Seq<char>, rest: Seq<char>)
    requires
        forall|i: int| 0 <= i < word.len() ==> !is_space(#[trigger] word[i]),
        rest.len() > 0 ==> is_space(rest[0]),
    ensures
        word_len(word + rest) == word.len(),
    decreases word.len(),
{
    let whole = word + rest;
    if word.len() > 0 {
        let tail = word.skip(1);
        assert forall|i: int| 0 <= i < tail.len() implies !is_space(#[trigger] tail[i]) by {
            assert(tail[i] == word[i + 1]);
        }
        lemma_word_len_is(tail, rest);
        assert(whole[0] == word[0]);
        assert(whole.skip(1) =~= tail + rest);
    } else if rest.len() > 0 {
        assert(whole[0] == rest[0]);
    }
}

/// The words of a text are its runs of characters that are not white space, in their order: a text
/// without characters has none, white space at the start adds none, and a run up to the next white
/// space or the end is one word.
pub proof fn law_words_are_runs(word: Seq<char>, space: char, rest: Seq<char>)
    requires
        word.len() > 0,
        forall|i: int| 0 <= i < word.len() ==> !is_space(#[trigger] word[i]),
        is_space(space),
    ensures
        words_of(Seq::empty()).len() == 0,
        words_of(seq![space] + rest) == words_of(rest),
        words_of(word) == seq![word],
        words_of(word + (seq![space] + rest)) == seq![word] + words_of(rest),
{
    let none = Seq::<char>::empty();
    let tail = seq![space] + rest;
    assert(tail[0] == space);
    assert(tail.skip(1) =~= rest);
    lemma_word_len_is(word, tail);
    let whole = word + tail;
    assert(whole[0] == word[0]);
    assert(whole.take(word.len() as int) =~= word);
    assert(whole.skip(word.len() as int) =~= tail);
    assert(words_of(whole) == seq![word] + words_of(tail));
    lemma_word_len_is(word, none);
    assert(word + none =~= word);
    assert(word.take(word.len() as int) =~= word);
    assert(word.skip(word.len() as int) =~= none);
    assert(words_of(none).len() == 0);
    assert(words_of(word) == seq![word] + words_of(none));
    assert(words_of(word) =~= seq![word]);
}

proof fn lemma_trimmed_start(text: Seq<char>) -> (n: int)
    ensures
        0 <= n <= text.len(),
        trimmed_start(text) == text.skip(n),
        forall|i: int| 0 <= i < n ==> is_space(#[trigger] text[i]),
        n < text.len() ==> !is_space(text[n]),
    decreases text.len(),
{
    if text.len() > 0 && is_space(text[0]) {
        let m = lemma_trimmed_start(text.skip(1));
        assert(text.skip(1).skip(m) =~= text.skip(m + 1));
        assert forall|i: int| 0 <= i < m + 1 implies is_space(#[trigger] text[i]) by {
            if i > 0 {
                assert(is_space(text.skip(1)[i - 1]));
            }
        }
        m + 1
    } else {
        assert(text.skip(0) =~= text);
        0
    }
}

proof fn lemma_trimmed_end(text: Seq<char>) -> (n: int)
    ensures
        0 <= n <= text.len(),
        trimmed_end(text) == text.take(n),
        forall|i: int| n <= i < text.len() ==> is_space(#[trigger] text[i]),
        n > 0 ==> !is_space(text[n - 1]),
    decreases text.len(),
{
    if text.len() > 0 && is_space(text.last()) {
        let front = text.drop_last();
        let m = lemma_trimmed_end(front);
        assert(front.take(m) =~= text.take(m));
        assert forall|i: int| m <= i < text.len() implies is_space(#[trigger] text[i]) by {
            if i < front.len() {
                assert(is_space(front[i]));
            }
        }
        m
    } else {
        assert(text.take(text.len() as int) =~= text);
        text.len() as int
    }
}

/// A text that is white space only where nothing is left of it.
pub proof fn lemma_trimmed(text: Seq<char>)
    ensures
        trimmed(text).len() == 0 ==> forall|i: int| 0 <= i < text.len() ==> is_space(#[trigger] text[i]),
{
    let n = lemma_trimmed_start(text);
    let body = text.skip(n);
    let m = lemma_trimmed_end(body);
    if trimmed(text).len() == 0 {
        assert forall|i: int| 0 <= i < text.len() implies is_space(#[trigger] text[i]) by {
            if i >= n {
                assert(is_space(body[i - n]));
            }
        }
    }
}

/// Trimming takes white space off both ends, all of it, and nothing else.
pub proof fn law_trimming_takes_the_space_off(before: Seq<char>, text: Seq<char>, after: Seq<char>)
    requires
        forall|i: int| 0 <= i < before.len() ==> is_space(#[trigger] before[i]),
        forall|i: int| 0 <= i < after.len() ==> is_space(#[trigger] after[i]),
        text.len() > 0 ==> !is_space(text[0]) && !is_space(text.last()),
    ensures
        trimmed(before + text + after) == text,
{
    let whole = before + text + after;
    let n = lemma_trimmed_start(whole);
    let body = whole.skip(n);
    let m = lemma_trimmed_end(body);
    assert forall|i: int| 0 <= i < whole.len() && !(before.len() <= i < before.len() + text.len())
        implies is_space(#[trigger] whole[i]) by {
        if i < before.len() {
            assert(whole[i] == before[i]);
        } else {
            assert(whole[i] == after[i - before.len() - text.len()]);
        }
    }
    if text.len() == 0 {
        assert(n == whole.len());
        assert(body.take(m) =~= text);
    } else {
        let first = before.len() as int;
        let last = first + text.len() - 1;
        assert(whole[first] == text[0]);
        assert(whole[last] == text.last());
        assert(n <= first);
        if n < first {
            assert(is_space(whole[n]));
        }
        assert(body[last - n] == whole[last]);
        if m <= last - n {
            assert(is_space(body[last - n]));
        }
        if m > last - n + 1 {
            assert(body[m - 1] == whole[m - 1 + n]);
        }
        assert(body.take(m) =~= text);
    }
}

/// A character that is replaced by another is replaced wherever it stands, and the others stay.
pub proof fn law_character_is_replaced_everywhere(text: Seq<char>, from: char, to: char)
    ensures
        replaced(text, seq![from], seq![to]) == text.map_values(
            |c: char| if c == from {
                to
            } else {
                c
            },
        ),
    decreases text.len(),
{
    let (old_part, new_part) = (seq![from], seq![to]);
    let swapped = text.map_values(
        |c: char| if c == from {
            to
        } else {
            c
        },
    );
    if text.contains(from) {
        let i = lemma_first_of(text, from);
        assert(text.subrange(i, i + 1) =~= old_part);
        assert forall|j: int| 0 <= j < i implies !occurs_at(text, old_part, j) by {
            if occurs_at(text, old_part, j) {
                assert(text.subrange(j, j + 1)[0] == text[j]);
            }
        }
        assert(first_at(text, old_part, i));
        lemma_replaced_step(text, old_part, new_part, i);
        let rest = text.skip(i + 1);
        law_character_is_replaced_everywhere(rest, from, to);
        assert(replaced(text, old_part, new_part) =~= swapped);
    } else {
        assert forall|j: int| !occurs_at(text, old_part, j) by {
            if occurs_at(text, old_part, j) {
                assert(text.subrange(j, j + 1)[0] == text[j]);
            }
        }
        lemma_replaced_absent(text, old_part, new_part);
        assert forall|j: int| 0 <= j < text.len() implies text[j] == #[trigger] swapped[j] by {
            assert(text.contains(text[j]));
        }
        assert(text =~= swapped);
    }
}

proof fn lemma_first_of(text: Seq<char>, c: char) -> (i: int)
    requires
        text.contains(c),
    ensures
        0 <= i < text.len(),
        text[i] == c,
        forall|j: int| 0 <= j < i ==> text[j] != c,
    decreases text.len(),
{
    if text[0] == c {
        0
    } else {
        let rest = text.skip(1);
        let k = choose|k: int| 0 <= k < text.len() && text[k] == c;
        assert(rest[k - 1] == c);
        let i = lemma_first_of(rest, c);
        assert forall|j: int| 0 <= j < i + 1 implies text[j] != c by {
            if j > 0 {
                assert(rest[j - 1] != c);
            }
        }
        i + 1
    }
}

/// What stands before the first occurrence of a pattern stays, the occurrence gives way, and what
/// follows is replaced on its own; a text without the pattern stays.
pub proof fn law_occurrences_are_replaced_in_turn(
    before: Seq<char>,
    from: Seq<char>,
    rest: Seq<char>,
    to: Seq<char>,
)
    requires
        from.len() > 0,
        forall|n: int|
            0 <= n < before.len() ==> !occurs_at(
                before + from + rest,
                from,
                n,
            ),
    ensures
        replaced(before + from + rest, from, to) == before + to + replaced(rest, from, to),
        !occurs(rest, from) ==> replaced(rest, from, to) == rest,
{
    let whole = before + from + rest;
    let i = before.len() as int;
    assert(whole.subrange(i, i + from.len()) =~= from);
    assert(first_at(whole, from, i));
    lemma_replaced_step(whole, from, to, i);
    assert(whole.take(i) =~= before);
    assert(whole.skip(i + from.len()) =~= rest);
}

/// The digits of a number are those of its tens and then that of its units, and a number below ten
/// has one digit.
pub proof fn law_digits_are_decimal(tens: nat, units: nat)
    requires
        units < 10,
    ensures
        digits_of(units) == seq!["0123456789"@[units as int]],
        tens > 0 ==> digits_of(10 * tens + units) == digits_of(tens).push(
            "0123456789"@[units as int],
        ),
{
    reveal_strlit("0123456789");
    let n = 10 * tens + units;
    assert(n / 10 == tens && n % 10 == units);
    let digit = "0123456789"@[units as int];
    assert(digit == (units + 48) as char) by {
        if units == 0 {
        } else if units == 1 {
        } else if units == 2 {
        } else if units == 3 {
        } else if units == 4 {
        } else if units == 5 {
        } else if units == 6 {
        } else if units == 7 {
        } else if units == 8 {
        } else {
            assert(units == 9);
        }
    }
}

}
