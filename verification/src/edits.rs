//! Text edits: positions in a text, their byte offsets, and the replay of edits on a text.
use crate::text::{breaks_at, chars_of, lines, lines_of, string_of, texts, without_return};
use vstd::prelude::*;
use vstd::utf8::{
    encode_utf8, encode_utf8_first_scalar, encode_utf8_valid_utf8, is_char_boundary,
    pop_first_scalar,
};

verus! {

/// A position in a text: a line and a character in it, both counted from zero.
#[derive(Clone, Copy, PartialEq, Eq, Structural, Debug)]
pub struct Position {
    pub line: u32,
    pub character: u32,
}

/// A range of a text, from a start to an end.
#[derive(Clone, Copy, PartialEq, Eq, Structural, Debug)]
pub struct Range {
    pub start: Position,
    pub end: Position,
}

/// The replacement of a range by a new text.
#[derive(Clone, Debug)]
pub struct TextEdit {
    pub range: Range,
    pub new_text: String,
}

/// What a text edit says.
pub struct TextEditView {
    pub range: Range,
    pub new_text: Seq<char>,
}

impl View for TextEdit {
    type V = TextEditView;

    open spec fn view(&self) -> TextEditView {
        TextEditView { range: self.range, new_text: self.new_text@ }
    }
}

/// What a sequence of text edits says.
pub open spec fn edit_views(edits: Seq<TextEdit>) -> Seq<TextEditView> {
    edits.map_values(|e: TextEdit| e@)
}

/// Why edits could not be applied.
#[derive(Clone, Copy, PartialEq, Eq, Structural, Debug)]
pub enum EditError {
    /// A range ends before it starts, or past the end of the text.
    InvalidRange,
    /// A position names no place in the text.
    UnknownPosition,
}

/// What becomes of a text under edits.
pub enum Replay {
    /// The bytes of the edited text.
    Edited(Seq<u8>),
    /// The edits are refused.
    Refused(EditError),
    /// A range starts or ends inside the bytes of one character.
    SplitsCharacter,
}

/// `a` stands before `b`.
pub open spec fn precedes(a: Position, b: Position) -> bool {
    a.line < b.line || (a.line == b.line && a.character < b.character)
}

/// The index of the character at which line `n` starts: the one behind the `n`th line feed, or the
/// end of a text that has no more of them.
pub open spec fn line_index(text: Seq<char>, n: int) -> nat
    decreases text.len(),
{
    if n <= 0 {
        0
    } else if exists|i: int| breaks_at(text, i) {
        let i = choose|i: int| breaks_at(text, i);
        (i + 1 + line_index(text.skip(i + 1), n - 1)) as nat
    } else {
        text.len()
    }
}

/// The byte offset at which line `n` starts.
pub open spec fn line_start(text: Seq<char>, n: int) -> nat {
    encode_utf8(text.take(line_index(text, n) as int)).len()
}

/// The index of the character that a position names.
pub open spec fn place_of(text: Seq<char>, position: Position) -> int {
    line_index(text, position.line as int) + position.character
}

/// The byte offset of a position, if the text has that line and the line that many characters.
pub open spec fn offset_of(text: Seq<char>, position: Position) -> Option<nat> {
    let lines = lines_of(text);
    if position.line < lines.len() && position.character <= lines[position.line as int].len() {
        Some(encode_utf8(text.take(place_of(text, position))).len())
    } else {
        None
    }
}

/// `edit` put into edits that stand in bottom-up order, behind those that start where it does.
pub open spec fn put(sorted: Seq<TextEditView>, edit: TextEditView) -> Seq<TextEditView>
    decreases sorted.len(),
{
    if sorted.len() > 0 && precedes(sorted.last().range.start, edit.range.start) {
        put(sorted.drop_last(), edit).push(sorted.last())
    } else {
        sorted.push(edit)
    }
}

/// The edits from the bottom of the text to its top; edits that start together keep their order.
pub open spec fn bottom_up(edits: Seq<TextEditView>) -> Seq<TextEditView>
    decreases edits.len(),
{
    if edits.len() == 0 {
        Seq::empty()
    } else {
        put(bottom_up(edits.drop_last()), edits.last())
    }
}

/// The edits, one after the other, on `content`. Their offsets are those of the text as
/// given.
pub open spec fn replay(
    given: Seq<char>,
    content: Seq<u8>,
    edits: Seq<TextEditView>,
) -> Replay
    decreases edits.len(),
{
    if edits.len() == 0 {
        Replay::Edited(content)
    } else {
        let edit = edits[0];
        match (offset_of(given, edit.range.start), offset_of(given, edit.range.end)) {
            (Some(from), Some(to)) => if from > to || to > content.len() {
                Replay::Refused(EditError::InvalidRange)
            } else if !is_char_boundary(content, from as int) || !is_char_boundary(
                content,
                to as int,
            ) {
                Replay::SplitsCharacter
            } else {
                replay(
                    given,
                    content.take(from as int) + encode_utf8(edit.new_text) + content.skip(to as int),
                    edits.skip(1),
                )
            },
            _ => Replay::Refused(EditError::UnknownPosition),
        }
    }
}

/// What becomes of a text under edits in any order.
pub open spec fn edited(text: Seq<char>, edits: Seq<TextEditView>) -> Replay {
    replay(text, encode_utf8(text), bottom_up(edits))
}

pub proof fn lemma_encode_concat(a: Seq<char>, b: Seq<char>)
    ensures
        encode_utf8(a + b) == encode_utf8(a) + encode_utf8(b),
    decreases a.len(),
{
    if a.len() == 0 {
        assert(a + b =~= b);
        assert(encode_utf8(a) + encode_utf8(b) =~= encode_utf8(b));
    } else {
        assert((a + b).drop_first() =~= a.drop_first() + b);
        lemma_encode_concat(a.drop_first(), b);
        assert(encode_utf8(a + b) =~= encode_utf8(a) + encode_utf8(b));
    }
}

proof fn lemma_encode_line_feed()
    ensures
        encode_utf8(seq!['\n']).len() == 1,
{
    assert(seq!['\n'].drop_first() =~= Seq::<char>::empty());
    assert(encode_utf8(Seq::<char>::empty()).len() == 0);
    assert('\n' as u32 <= 0x7f);
}

/// Splitting a text at its first line feed.
pub proof fn lemma_lines_split(text: Seq<char>, i: int)
    requires
        breaks_at(text, i),
    ensures
        lines_of(text) == seq![without_return(text.take(i))] + lines_of(text.skip(i + 1)),
        encode_utf8(text).len() == encode_utf8(text.take(i)).len() + 1 + encode_utf8(
            text.skip(i + 1),
        ).len(),
{
    let j = choose|j: int| breaks_at(text, j);
    assert(breaks_at(text, j));
    assert(i == j);
    assert(text =~= text.take(i) + seq!['\n'] + text.skip(i + 1));
    lemma_encode_concat(text.take(i) + seq!['\n'], text.skip(i + 1));
    lemma_encode_concat(text.take(i), seq!['\n']);
    lemma_encode_line_feed();
}

/// The bytes of a line's beginning are no more than those of the line.
pub proof fn lemma_take_fits(line: Seq<char>, n: int)
    requires
        0 <= n <= line.len(),
    ensures
        encode_utf8(line.take(n)).len() <= encode_utf8(line).len(),
{
    assert(line =~= line.take(n) + line.skip(n));
    lemma_encode_concat(line.take(n), line.skip(n));
}

/// Whether one position stands before another.
pub fn is_before(a: Position, b: Position) -> (res: bool)
    ensures
        res == precedes(a, b),
{
    a.line < b.line || (a.line == b.line && a.character < b.character)
}

/// The number of line feeds in a text.
pub open spec fn feeds_in(text: Seq<char>) -> nat
    decreases text.len(),
{
    if text.len() == 0 {
        0
    } else if text.last() == '\n' {
        feeds_in(text.drop_last()) + 1
    } else {
        feeds_in(text.drop_last())
    }
}

/// The line feeds of two texts together are those of the one and those of the other.
pub proof fn lemma_feeds_concat(a: Seq<char>, b: Seq<char>)
    ensures
        feeds_in(a + b) == feeds_in(a) + feeds_in(b),
    decreases b.len(),
{
    if b.len() == 0 {
        assert(a + b =~= a);
    } else {
        assert((a + b).drop_last() =~= a + b.drop_last());
        lemma_feeds_concat(a, b.drop_last());
    }
}

/// A text that does not contain a line feed has none.
pub proof fn lemma_no_feeds(text: Seq<char>)
    requires
        !text.contains('\n'),
    ensures
        feeds_in(text) == 0,
    decreases text.len(),
{
    if text.len() > 0 {
        let front = text.drop_last();
        assert(text[text.len() - 1] != '\n');
        if front.contains('\n') {
            let j = choose|j: int| 0 <= j < front.len() && front[j] == '\n';
            assert(text[j] == '\n');
        }
        lemma_no_feeds(front);
    }
}

/// A text with a line feed has a first one.
pub proof fn lemma_first_feed(text: Seq<char>, j: int)
    requires
        0 <= j < text.len(),
        text[j] == '\n',
    ensures
        exists|i: int| breaks_at(text, i),
    decreases j,
{
    if exists|k: int| 0 <= k < j && text[k] == '\n' {
        let k = choose|k: int| 0 <= k < j && text[k] == '\n';
        lemma_first_feed(text, k);
    } else {
        assert(breaks_at(text, j));
    }
}

/// Where the lines of a text stand in it. Line `n` is found from its start on, and the line after
/// it starts behind the line break, if there is one.
pub proof fn lemma_line_place(text: Seq<char>, n: int)
    requires
        0 <= n < lines_of(text).len(),
    ensures
        ({
            let i = line_index(text, n) as int;
            let next = line_index(text, n + 1) as int;
            let line = lines_of(text)[n];
            &&& i + line.len() <= next <= text.len()
            &&& text.subrange(i, i + line.len()) == line
            &&& !line.contains('\n')
            &&& feeds_in(text.take(i)) == n
            &&& n > 0 ==> i > 0 && text[i - 1] == '\n'
            &&& n + 1 < lines_of(text).len() ==> next > 0 && text[next - 1] == '\n'
            &&& !text.contains('\r') ==> {
                ||| next == i + line.len() && next == text.len() && n + 1 == lines_of(text).len()
                ||| next == i + line.len() + 1 && text[next - 1] == '\n'
            }
        }),
    decreases text.len(),
{
    reveal_with_fuel(line_index, 2);
    assert(text.take(0) =~= Seq::<char>::empty());
    if exists|i: int| breaks_at(text, i) {
        let b = choose|i: int| breaks_at(text, i);
        let head = text.take(b);
        let tail = text.skip(b + 1);
        lemma_lines_split(text, b);
        if n == 0 {
            let line = without_return(head);
            assert(text.subrange(0, line.len() as int) =~= line);
            if line.contains('\n') {
                let j = choose|j: int| 0 <= j < line.len() && line[j] == '\n';
                assert(text[j] == '\n');
            }
            assert(line_index(text, 1) == b + 1);
            if !text.contains('\r') && head.len() > 0 {
                assert(head.last() == text[b - 1]);
            }
        } else {
            lemma_line_place(tail, n - 1);
            let i = line_index(tail, n - 1) as int;
            let next = line_index(tail, n) as int;
            let line = lines_of(tail)[n - 1];
            assert(lines_of(text)[n] == line);
            assert(line_index(text, n) == b + 1 + i);
            assert(line_index(text, n + 1) == b + 1 + next);
            assert(text.subrange(b + 1 + i, b + 1 + i + line.len()) =~= tail.subrange(
                i,
                i + line.len(),
            ));
            assert(text.take(b + 1 + i) =~= text.take(b + 1) + tail.take(i));
            lemma_feeds_concat(text.take(b + 1), tail.take(i));
            assert(text.take(b + 1) =~= head.push('\n'));
            lemma_no_feeds(head);
            assert(head.push('\n').drop_last() =~= head);
            if i > 0 {
                assert(tail[i - 1] == text[b + i]);
            }
            if next > 0 {
                assert(tail[next - 1] == text[b + next]);
            }
            if !text.contains('\r') {
                if tail.contains('\r') {
                    let j = choose|j: int| 0 <= j < tail.len() && tail[j] == '\r';
                    assert(text[b + 1 + j] == '\r');
                }
            }
        }
    } else {
        assert(n == 0);
        assert(text.subrange(0, text.len() as int) =~= text);
        if text.contains('\n') {
            let j = choose|j: int| 0 <= j < text.len() && text[j] == '\n';
            lemma_first_feed(text, j);
        }
    }
}

/// The index of the character at which a line starts.
pub fn line_place(chars: &Vec<char>, n: usize) -> (res: usize)
    ensures
        res == line_index(chars@, n as int),
        res <= chars@.len(),
{
    let ghost text = chars@;
    let mut start: usize = 0;
    let mut left: usize = n;
    let mut i: usize = 0;
    assert(text.skip(0) =~= text);
    while i < chars.len() && left > 0
        invariant
            text == chars@,
            start <= i <= chars@.len(),
            forall|j: int| start <= j < i ==> text[j] != '\n',
            left == 0 ==> start == i,
            line_index(text, n as int) == start + line_index(text.skip(start as int), left as int),
        decreases chars@.len() - i,
    {
        if chars[i] == '\n' {
            let ghost rest = text.skip(start as int);
            proof {
                assert(breaks_at(rest, i - start));
                let b = choose|b: int| breaks_at(rest, b);
                assert(breaks_at(rest, b));
                assert(b == i - start);
                assert(rest.skip(b + 1) =~= text.skip(i + 1));
            }
            start = i + 1;
            left -= 1;
        }
        i += 1;
    }
    if left == 0 {
        start
    } else {
        proof {
            let rest = text.skip(start as int);
            if exists|b: int| breaks_at(rest, b) {
                let b = choose|b: int| breaks_at(rest, b);
                assert(text[start + b] == '\n');
            }
        }
        chars.len()
    }
}

/// The byte offset of a position in a text whose characters and lines are given.
fn position_offset(
    chars: &Vec<char>,
    lines: &Vec<String>,
    position: Position,
) -> (res: Option<usize>)
    requires
        texts(lines@) == lines_of(chars@),
    ensures
        match res {
            Some(offset) => offset_of(chars@, position) == Some(offset as nat),
            None => offset_of(chars@, position) is None,
        },
{
    if position.line as usize >= lines.len() {
        return None;
    }
    let target: usize = position.line as usize;
    let line = lines[target].as_str();
    assert(line@ == lines_of(chars@)[target as int]);
    if position.character as usize > line.unicode_len() {
        return None;
    }
    proof {
        lemma_line_place(chars@, target as int);
    }
    let start = line_place(chars, target);
    assert(start + position.character <= chars.len());
    let place: usize = start + position.character as usize;
    let before = string_of(chars, 0, place);
    assert(before@ =~= chars@.take(place as int));
    Some(before.as_str().as_bytes().len())
}

/// The indices of the edits in bottom-up order.
fn bottom_up_order(edits: &Vec<TextEdit>) -> (res: Vec<usize>)
    ensures
        forall|i: int| 0 <= i < res@.len() ==> 0 <= #[trigger] res@[i] < edits@.len(),
        res@.map_values(|i: usize| edits@[i as int]@) == bottom_up(edit_views(edits@)),
{
    let mut order: Vec<usize> = Vec::new();
    let mut n: usize = 0;
    let ghost views = edit_views(edits@);
    let ghost pick = |i: usize| edits@[i as int]@;
    while n < edits.len()
        invariant
            n <= edits@.len(),
            views == edit_views(edits@),
            pick == (|i: usize| edits@[i as int]@),
            forall|i: int| 0 <= i < order@.len() ==> 0 <= #[trigger] order@[i] < edits@.len(),
            order@.map_values(pick) == bottom_up(views.take(n as int)),
        decreases edits@.len() - n,
    {
        let start = edits[n].range.start;
        let ghost before = order@;
        let ghost sorted = order@.map_values(pick);
        let mut at: usize = order.len();
        assert(sorted.take(at as int) =~= sorted);
        assert(sorted.skip(at as int) =~= Seq::<TextEditView>::empty());
        assert(put(sorted, views[n as int]) =~= put(sorted.take(at as int), views[n as int])
            + sorted.skip(at as int));
        while at > 0 && is_before(edits[order[at - 1]].range.start, start)
            invariant
                n < edits@.len(),
                at <= order@.len(),
                order@ == before,
                views == edit_views(edits@),
                pick == (|i: usize| edits@[i as int]@),
                sorted == order@.map_values(pick),
                start == views[n as int].range.start,
                forall|i: int| 0 <= i < order@.len() ==> 0 <= #[trigger] order@[i] < edits@.len(),
                put(sorted, views[n as int]) == put(sorted.take(at as int), views[n as int])
                    + sorted.skip(at as int),
            decreases at,
        {
            assert(sorted.take(at as int).drop_last() =~= sorted.take(at - 1));
            assert(sorted.take(at as int).last() == sorted[at - 1]);
            assert(sorted.skip(at - 1) =~= seq![sorted[at - 1]] + sorted.skip(at as int));
            at -= 1;
            assert(put(sorted, views[n as int]) =~= put(sorted.take(at as int), views[n as int])
                + sorted.skip(at as int));
        }
        order.insert(at, n);
        proof {
            if at > 0 {
                assert(sorted.take(at as int).last() == sorted[at - 1]);
            }
            assert(put(sorted.take(at as int), views[n as int]) == sorted.take(at as int).push(
                views[n as int],
            ));
            assert(order@.map_values(pick) =~= sorted.take(at as int).push(views[n as int])
                + sorted.skip(at as int));
            assert(views.take(n + 1).drop_last() =~= views.take(n as int));
        }
        n += 1;
    }
    assert(views.take(n as int) =~= views);
    order
}

/// What the replay of edits comes to.
enum Outcome {
    Edited(String),
    Refused(EditError),
    SplitsCharacter,
}

/// The text with the bytes between two boundaries replaced.
fn replace_range(content: &str, from: usize, to: usize, new_text: &str) -> (res: String)
    requires
        from <= to <= encode_utf8(content@).len(),
        is_char_boundary(encode_utf8(content@), from as int),
        is_char_boundary(encode_utf8(content@), to as int),
    ensures
        encode_utf8(res@) == encode_utf8(content@).take(from as int) + encode_utf8(new_text@)
            + encode_utf8(content@).skip(to as int),
{
    let (head, _) = content.split_at(from);
    let (_, tail) = content.split_at(to);
    let mut out = head.to_owned();
    out.append(new_text);
    out.append(tail);
    proof {
        lemma_encode_concat(head@ + new_text@, tail@);
        lemma_encode_concat(head@, new_text@);
        assert(encode_utf8(content@).take(from as int) =~= encode_utf8(content@).subrange(
            0,
            from as int,
        ));
        assert(encode_utf8(content@).skip(to as int) =~= encode_utf8(content@).subrange(
            to as int,
            encode_utf8(content@).len() as int,
        ));
    }
    out
}

fn run_edits(text: &str, edits: &Vec<TextEdit>) -> (res: Outcome)
    ensures
        match res {
            Outcome::Edited(new) => edited(text@, edit_views(edits@)) == Replay::Edited(
                encode_utf8(new@),
            ),
            Outcome::Refused(e) => edited(text@, edit_views(edits@)) == Replay::Refused(e),
            Outcome::SplitsCharacter => edited(text@, edit_views(edits@))
                == Replay::SplitsCharacter,
        },
{
    let chars = chars_of(text);
    let all = lines(text);
    let order = bottom_up_order(edits);
    let ghost sorted = bottom_up(edit_views(edits@));
    let mut content = text.to_owned();
    let mut k: usize = 0;
    assert(sorted.skip(0) =~= sorted);
    while k < order.len()
        invariant
            k <= order@.len(),
            chars@ == text@,
            texts(all@) == lines_of(text@),
            sorted == bottom_up(edit_views(edits@)),
            forall|i: int| 0 <= i < order@.len() ==> 0 <= #[trigger] order@[i] < edits@.len(),
            order@.map_values(|i: usize| edits@[i as int]@) == sorted,
            edited(text@, edit_views(edits@)) == replay(
                text@,
                encode_utf8(content@),
                sorted.skip(k as int),
            ),
        decreases order@.len() - k,
    {
        let edit = &edits[order[k]];
        let ghost rest = sorted.skip(k as int);
        assert(rest[0] == sorted[k as int]);
        assert(sorted[k as int] == edit@);
        assert(rest.skip(1) =~= sorted.skip(k + 1));
        let from = position_offset(&chars, &all, edit.range.start);
        let to = position_offset(&chars, &all, edit.range.end);
        match (from, to) {
            (Some(from), Some(to)) => {
                let len: usize = content.as_str().as_bytes().len();
                if from > to || to > len {
                    return Outcome::Refused(EditError::InvalidRange);
                }
                if !content.as_str().is_char_boundary(from) || !content.as_str().is_char_boundary(
                    to,
                ) {
                    return Outcome::SplitsCharacter;
                }
                let new = replace_range(content.as_str(), from, to, edit.new_text.as_str());
                content = new;
            },
            _ => {
                return Outcome::Refused(EditError::UnknownPosition);
            },
        }
        k += 1;
    }
    assert(sorted.skip(k as int) =~= Seq::<TextEditView>::empty());
    Outcome::Edited(content)
}

/// Whether a replay of these edits would cut a character in two.
pub fn splits_character(text: &str, edits: &Vec<TextEdit>) -> (res: bool)
    ensures
        res == (edited(text@, edit_views(edits@)) == Replay::SplitsCharacter),
{
    match run_edits(text, edits) {
        Outcome::SplitsCharacter => true,
        _ => false,
    }
}

/// The text after the edits, applied from the bottom of the text to its top, each at the place
/// that its range has in the text as given.
pub fn apply_edits(text: &str, edits: &Vec<TextEdit>) -> (res: Result<String, EditError>)
    requires
        edited(text@, edit_views(edits@)) != Replay::SplitsCharacter,
    ensures
        match res {
            Ok(new) => edited(text@, edit_views(edits@)) == Replay::Edited(encode_utf8(new@)),
            Err(e) => edited(text@, edit_views(edits@)) == Replay::Refused(e),
        },
{
    match run_edits(text, edits) {
        Outcome::Edited(new) => Ok(new),
        Outcome::Refused(e) => Err(e),
        Outcome::SplitsCharacter => Err(EditError::InvalidRange),
    }
}

/// `piece`, a beginning of `text`, with the range of each edit replaced by its new text. The
/// ranges are those of `text`, from its bottom to its top.
pub open spec fn patched(
    text: Seq<char>,
    piece: Seq<char>,
    edits: Seq<TextEditView>,
) -> Seq<char>
    decreases edits.len(),
{
    if edits.len() == 0 {
        piece
    } else {
        patched(text, piece.take(place_of(text, edits[0].range.start)), edits.skip(1))
            + edits[0].new_text + piece.skip(place_of(text, edits[0].range.end))
    }
}

/// No two of the edits touch the same character, and each range stands in the text.
pub open spec fn apart(text: Seq<char>, sorted: Seq<TextEditView>) -> bool {
    &&& forall|k: int|
        0 <= k < sorted.len() ==> {
            &&& offset_of(text, (#[trigger] sorted[k]).range.start) is Some
            &&& offset_of(text, sorted[k].range.end) is Some
            &&& place_of(text, sorted[k].range.start) <= place_of(text, sorted[k].range.end)
        }
    &&& forall|k: int, l: int|
        0 <= k < l < sorted.len() ==> place_of(text, (#[trigger] sorted[l]).range.end) <= place_of(
            text,
            (#[trigger] sorted[k]).range.start,
        )
}

/// The end of a beginning of a text is a boundary between characters.
pub proof fn lemma_boundary(a: Seq<char>, b: Seq<char>)
    ensures
        is_char_boundary(encode_utf8(a + b), encode_utf8(a).len() as int),
    decreases a.len(),
{
    let all = a + b;
    let bytes = encode_utf8(all);
    encode_utf8_valid_utf8(all);
    lemma_encode_concat(a, b);
    if a.len() == 0 {
        assert(encode_utf8(a).len() == 0);
    } else {
        encode_utf8_first_scalar(all);
        assert(all.drop_first() =~= a.drop_first() + b);
        assert(pop_first_scalar(bytes) =~= encode_utf8(all.drop_first()));
        lemma_boundary(a.drop_first(), b);
    }
}

/// The offset of a position is the number of bytes before the character that it names: the one
/// with that number in the line with that number, whether line feeds alone end the lines or
/// carriage returns stand before them.
pub proof fn law_offset_is_exact(text: Seq<char>, position: Position)
    requires
        offset_of(text, position) is Some,
    ensures
        ({
            let line = lines_of(text)[position.line as int];
            let place = place_of(text, position);
            let start = place - position.character;
            &&& 0 <= start
            &&& start + line.len() <= text.len()
            &&& text.subrange(start, start + line.len()) == line
            &&& feeds_in(text.take(start)) == position.line
            &&& start > 0 ==> text[start - 1] == '\n'
            &&& offset_of(text, position) == Some(encode_utf8(text.take(place)).len())
        }),
{
    lemma_line_place(text, position.line as int);
}

proof fn lemma_replay_apart(
    text: Seq<char>,
    p: int,
    tail: Seq<char>,
    edits: Seq<TextEditView>,
)
    requires
        apart(text, edits),
        0 <= p <= text.len(),
        edits.len() > 0 ==> place_of(text, edits[0].range.end) <= p,
    ensures
        replay(text, encode_utf8(text.take(p) + tail), edits) == Replay::Edited(
            encode_utf8(patched(text, text.take(p), edits) + tail),
        ),
    decreases edits.len(),
{
    if edits.len() > 0 {
        let edit = edits[0];
        let a = place_of(text, edit.range.start);
        let b = place_of(text, edit.range.end);
        let content = text.take(p) + tail;
        let bytes = encode_utf8(content);
        law_offset_is_exact(text, edit.range.start);
        law_offset_is_exact(text, edit.range.end);
        let from = encode_utf8(text.take(a)).len() as int;
        let to = encode_utf8(text.take(b)).len() as int;
        lemma_take_fits(text.take(b), a);
        assert(text.take(b).take(a) =~= text.take(a));
        let after_a = text.subrange(a, p) + tail;
        let after_b = text.subrange(b, p) + tail;
        assert(content =~= text.take(a) + after_a);
        assert(content =~= text.take(b) + after_b);
        lemma_boundary(text.take(a), after_a);
        lemma_boundary(text.take(b), after_b);
        lemma_encode_concat(text.take(a), after_a);
        lemma_encode_concat(text.take(b), after_b);
        assert(bytes.take(from) =~= encode_utf8(text.take(a)));
        assert(bytes.skip(to) =~= encode_utf8(after_b));
        let new_tail = edit.new_text + after_b;
        lemma_encode_concat(text.take(a), new_tail);
        lemma_encode_concat(edit.new_text, after_b);
        assert(bytes.take(from) + encode_utf8(edit.new_text) + bytes.skip(to) =~= encode_utf8(
            text.take(a) + new_tail,
        ));
        let rest = edits.skip(1);
        assert(apart(text, rest)) by {
            assert forall|k: int| 0 <= k < rest.len() implies {
                &&& offset_of(text, (#[trigger] rest[k]).range.start) is Some
                &&& offset_of(text, rest[k].range.end) is Some
                &&& place_of(text, rest[k].range.start) <= place_of(text, rest[k].range.end)
            } by {
                assert(rest[k] == edits[k + 1]);
            }
            assert forall|k: int, l: int| 0 <= k < l < rest.len() implies place_of(
                text,
                (#[trigger] rest[l]).range.end,
            ) <= place_of(text, (#[trigger] rest[k]).range.start) by {
                assert(rest[k] == edits[k + 1]);
                assert(rest[l] == edits[l + 1]);
            }
        }
        if rest.len() > 0 {
            assert(rest[0] == edits[1]);
        }
        lemma_replay_apart(text, a, new_tail, rest);
        assert(text.take(p).take(a) =~= text.take(a));
        assert(text.take(p).skip(b) =~= text.subrange(b, p));
        assert(patched(text, text.take(a), rest) + new_tail =~= patched(text, text.take(p), edits)
            + tail);
    }
}

/// Edits that touch no character twice do not disturb each other: whatever the order in which
/// they are listed, each replaces the very range that it names in the text as given.
pub proof fn law_edits_are_independent(text: Seq<char>, edits: Seq<TextEditView>)
    requires
        apart(text, bottom_up(edits)),
    ensures
        edited(text, edits) == Replay::Edited(
            encode_utf8(patched(text, text, bottom_up(edits))),
        ),
{
    let sorted = bottom_up(edits);
    let p = text.len() as int;
    let empty = Seq::<char>::empty();
    assert(text.take(p) =~= text);
    assert(text + empty =~= text);
    assert(patched(text, text, sorted) + empty =~= patched(text, text, sorted));
    if sorted.len() > 0 {
        law_offset_is_exact(text, sorted[0].range.end);
    }
    lemma_replay_apart(text, p, empty, sorted);
}

/// No edit starts after one that stands before it.
pub open spec fn descending(edits: Seq<TextEditView>) -> bool {
    forall|i: int, j: int|
        0 <= i < j < edits.len() ==> !precedes(
            (#[trigger] edits[i]).range.start,
            (#[trigger] edits[j]).range.start,
        )
}

/// No two edits start at the same position.
pub open spec fn starts_differ(edits: Seq<TextEditView>) -> bool {
    forall|i: int, j: int|
        0 <= i < j < edits.len() ==> (#[trigger] edits[i]).range.start != (
        #[trigger] edits[j]).range.start
}

proof fn lemma_put(sorted: Seq<TextEditView>, edit: TextEditView)
    requires
        descending(sorted),
    ensures
        descending(put(sorted, edit)),
        put(sorted, edit).to_multiset() == sorted.to_multiset().insert(edit),
        put(sorted, edit).len() == sorted.len() + 1,
        forall|i: int|
            0 <= i < put(sorted, edit).len() ==> #[trigger] put(sorted, edit)[i] == edit
                || sorted.contains(put(sorted, edit)[i]),
    decreases sorted.len(),
{
    broadcast use vstd::seq_lib::group_to_multiset_ensures;

    let res = put(sorted, edit);
    if sorted.len() > 0 && precedes(sorted.last().range.start, edit.range.start) {
        let front = sorted.drop_last();
        lemma_put(front, edit);
        let part = put(front, edit);
        assert(sorted =~= front.push(sorted.last()));
        assert(res.to_multiset() =~= sorted.to_multiset().insert(edit));
        assert forall|i: int| 0 <= i < part.len() implies !precedes(
            (#[trigger] part[i]).range.start,
            sorted.last().range.start,
        ) by {
            if part[i] != edit {
                let j = choose|j: int| 0 <= j < front.len() && front[j] == part[i];
                assert(sorted[j] == part[i]);
            }
        }
        assert forall|i: int| 0 <= i < res.len() implies #[trigger] res[i] == edit
            || sorted.contains(res[i]) by {
            if i < part.len() {
                assert(res[i] == part[i]);
                if part[i] != edit {
                    let j = choose|j: int| 0 <= j < front.len() && front[j] == part[i];
                    assert(sorted[j] == part[i]);
                }
            } else {
                assert(res[i] == sorted[sorted.len() - 1]);
            }
        }
    } else {
        assert(res == sorted.push(edit));
        assert forall|i: int| 0 <= i < sorted.len() implies !precedes(
            (#[trigger] sorted[i]).range.start,
            edit.range.start,
        ) by {
            assert(!precedes(sorted.last().range.start, edit.range.start));
            if i < sorted.len() - 1 {
                assert(!precedes(sorted[i].range.start, sorted[sorted.len() - 1].range.start));
            }
        }
        assert forall|i: int| 0 <= i < res.len() implies #[trigger] res[i] == edit
            || sorted.contains(res[i]) by {
            if i < sorted.len() {
                assert(sorted[i] == res[i]);
            }
        }
    }
}

/// The bottom-up order lists every edit once, and none after one that starts above it.
pub proof fn law_bottom_up_is_sorted(edits: Seq<TextEditView>)
    ensures
        descending(bottom_up(edits)),
        bottom_up(edits).to_multiset() == edits.to_multiset(),
    decreases edits.len(),
{
    broadcast use vstd::seq_lib::group_to_multiset_ensures;

    if edits.len() > 0 {
        let front = edits.drop_last();
        law_bottom_up_is_sorted(front);
        lemma_put(bottom_up(front), edits.last());
        assert(edits =~= front.push(edits.last()));
    }
}

proof fn lemma_starts_differ_kept(a: Seq<TextEditView>, b: Seq<TextEditView>)
    requires
        starts_differ(a),
        a.to_multiset() == b.to_multiset(),
    ensures
        starts_differ(b),
{
    broadcast use vstd::seq_lib::group_to_multiset_ensures;

    assert(a.no_duplicates()) by {
        assert forall|i: int, j: int|
            0 <= i < a.len() && 0 <= j < a.len() && i != j implies a[i] != a[j] by {
            if i < j {
                assert(a[i].range.start != a[j].range.start);
            } else {
                assert(a[j].range.start != a[i].range.start);
            }
        }
    }
    a.lemma_multiset_has_no_duplicates();
    b.lemma_multiset_has_no_duplicates_conv();
    assert forall|i: int, j: int| 0 <= i < j < b.len() implies (#[trigger] b[i]).range.start != (
    #[trigger] b[j]).range.start by {
        assert(b.to_multiset().count(b[i]) > 0);
        assert(b.to_multiset().count(b[j]) > 0);
        assert(a.contains(b[i]));
        assert(a.contains(b[j]));
        let k = choose|k: int| 0 <= k < a.len() && a[k] == b[i];
        let l = choose|l: int| 0 <= l < a.len() && a[l] == b[j];
        assert(b[i] != b[j]);
        if k < l {
            assert(a[k].range.start != a[l].range.start);
        } else {
            assert(a[l].range.start != a[k].range.start);
        }
    }
}

proof fn lemma_descending_unique(a: Seq<TextEditView>, b: Seq<TextEditView>)
    requires
        descending(a),
        descending(b),
        starts_differ(a),
        starts_differ(b),
        a.to_multiset() == b.to_multiset(),
    ensures
        a == b,
    decreases a.len(),
{
    broadcast use vstd::seq_lib::group_to_multiset_ensures;

    vstd::seq_lib::to_multiset_len(a);
    vstd::seq_lib::to_multiset_len(b);
    if a.len() > 0 {
        assert(a.to_multiset().count(a[0]) > 0);
        assert(b.to_multiset().count(b[0]) > 0);
        assert(b.contains(a[0]));
        assert(a.contains(b[0]));
        let k = choose|k: int| 0 <= k < b.len() && b[k] == a[0];
        let l = choose|l: int| 0 <= l < a.len() && a[l] == b[0];
        if k > 0 && l > 0 {
            assert(!precedes(b[0].range.start, b[k].range.start));
            assert(!precedes(a[0].range.start, a[l].range.start));
            assert(b[0].range.start != b[k].range.start);
        }
        assert(a[0] == b[0]);
        let x = a.remove(0);
        let y = b.remove(0);
        assert(x.to_multiset() =~= a.to_multiset().remove(a[0]));
        assert(y.to_multiset() =~= b.to_multiset().remove(b[0]));
        assert forall|i: int| 0 <= i < x.len() implies #[trigger] x[i] == a[i + 1] by {}
        assert forall|i: int| 0 <= i < y.len() implies #[trigger] y[i] == b[i + 1] by {}
        lemma_descending_unique(x, y);
        assert(a =~= seq![a[0]] + x);
        assert(b =~= seq![b[0]] + y);
    } else {
        assert(a =~= b);
    }
}

/// Where no two edits start at the same position, the order in which they are listed changes
/// nothing.
pub proof fn law_listing_order_is_irrelevant(
    text: Seq<char>,
    a: Seq<TextEditView>,
    b: Seq<TextEditView>,
)
    requires
        starts_differ(a),
        a.to_multiset() == b.to_multiset(),
    ensures
        edited(text, a) == edited(text, b),
{
    law_bottom_up_is_sorted(a);
    law_bottom_up_is_sorted(b);
    lemma_starts_differ_kept(a, bottom_up(a));
    lemma_starts_differ_kept(a, bottom_up(b));
    lemma_descending_unique(bottom_up(a), bottom_up(b));
}

/// A position has an offset exactly where the text has its line, and the line that many
/// characters before it.
pub proof fn law_positions_in_the_text_have_offsets(text: Seq<char>, position: Position)
    ensures
        offset_of(text, position) is Some <==> position.line < lines_of(text).len()
            && position.character <= lines_of(text)[position.line as int].len(),
{
}

/// One edit replaces the characters of its range by its new text, and no others.
pub proof fn law_single_edit_replaces_its_range(text: Seq<char>, edit: TextEditView)
    requires
        offset_of(text, edit.range.start) is Some,
        offset_of(text, edit.range.end) is Some,
        place_of(text, edit.range.start) <= place_of(text, edit.range.end),
    ensures
        edited(text, seq![edit]) == Replay::Edited(
            encode_utf8(
                text.take(place_of(text, edit.range.start)) + edit.new_text + text.skip(
                    place_of(text, edit.range.end),
                ),
            ),
        ),
{
    let edits = seq![edit];
    assert(edits.drop_last() =~= Seq::<TextEditView>::empty());
    reveal_with_fuel(bottom_up, 2);
    assert(bottom_up(edits) =~= edits);
    assert(apart(text, edits));
    law_edits_are_independent(text, edits);
    assert(edits.skip(1) =~= Seq::<TextEditView>::empty());
    reveal_with_fuel(patched, 2);
}

/// Of two texts that are inserted at one place, the one that is listed first comes last.
pub proof fn law_insertions_at_one_place(
    text: Seq<char>,
    position: Position,
    first: Seq<char>,
    second: Seq<char>,
)
    requires
        offset_of(text, position) is Some,
    ensures
        ({
            let range = Range { start: position, end: position };
            let edits = seq![
                TextEditView { range, new_text: first },
                TextEditView { range, new_text: second },
            ];
            let at = place_of(text, position);
            edited(text, edits) == Replay::Edited(
                encode_utf8(text.take(at) + second + first + text.skip(at)),
            )
        }),
{
    let range = Range { start: position, end: position };
    let a = TextEditView { range, new_text: first };
    let b = TextEditView { range, new_text: second };
    let edits = seq![a, b];
    let at = place_of(text, position);
    law_offset_is_exact(text, position);
    assert(edits.drop_last() =~= seq![a]);
    assert(seq![a].drop_last() =~= Seq::<TextEditView>::empty());
    reveal_with_fuel(bottom_up, 3);
    assert(bottom_up(seq![a]) =~= seq![a]);
    assert(bottom_up(edits) =~= edits);
    assert(apart(text, edits));
    law_edits_are_independent(text, edits);
    assert(edits.skip(1) =~= seq![b]);
    assert(seq![b].skip(1) =~= Seq::<TextEditView>::empty());
    reveal_with_fuel(patched, 3);
    assert(text.take(at).take(at) =~= text.take(at));
    assert(text.take(at).skip(at) =~= Seq::<char>::empty());
    assert(patched(text, text, edits) =~= text.take(at) + second + first + text.skip(at));
}

proof fn lemma_longer_has_more_bytes(text: Seq<char>, a: int, b: int)
    requires
        0 <= a < b <= text.len(),
    ensures
        encode_utf8(text.take(a)).len() < encode_utf8(text.take(b)).len(),
{
    let more = text.subrange(a, b);
    assert(text.take(b) =~= text.take(a) + more);
    lemma_encode_concat(text.take(a), more);
    assert(encode_utf8(more).len() >= 1);
}

proof fn lemma_bad_edit_stops_replay(
    text: Seq<char>,
    content: Seq<u8>,
    edits: Seq<TextEditView>,
    k: int,
)
    requires
        0 <= k < edits.len(),
        ({
            ||| offset_of(text, edits[k].range.start) is None
            ||| offset_of(text, edits[k].range.end) is None
            ||| place_of(text, edits[k].range.start) > place_of(text, edits[k].range.end)
        }),
    ensures
        replay(text, content, edits) !is Edited,
    decreases edits.len(),
{
    if k == 0 {
        let (start, end) = (edits[0].range.start, edits[0].range.end);
        if offset_of(text, start) is Some && offset_of(text, end) is Some {
            law_offset_is_exact(text, start);
            law_offset_is_exact(text, end);
            lemma_longer_has_more_bytes(text, place_of(text, end), place_of(text, start));
        }
    } else {
        let rest = edits.skip(1);
        assert(rest[k - 1] == edits[k]);
        let edit = edits[0];
        if let (Some(from), Some(to)) = (
            offset_of(text, edit.range.start),
            offset_of(text, edit.range.end),
        ) {
            let next = content.take(from as int) + encode_utf8(edit.new_text) + content.skip(
                to as int,
            );
            lemma_bad_edit_stops_replay(text, next, rest, k - 1);
        }
    }
}

/// Edits are made all together or not at all: where one of them names a place that the text does
/// not have, or a range that ends before it starts, no edited text comes out.
pub proof fn law_bad_edit_refuses_all(text: Seq<char>, edits: Seq<TextEditView>, i: int)
    requires
        0 <= i < edits.len(),
        ({
            ||| offset_of(text, edits[i].range.start) is None
            ||| offset_of(text, edits[i].range.end) is None
            ||| place_of(text, edits[i].range.start) > place_of(text, edits[i].range.end)
        }),
    ensures
        edited(text, edits) !is Edited,
{
    broadcast use vstd::seq_lib::group_to_multiset_ensures;

    let sorted = bottom_up(edits);
    law_bottom_up_is_sorted(edits);
    vstd::seq_lib::to_multiset_contains(edits, edits[i]);
    vstd::seq_lib::to_multiset_contains(sorted, edits[i]);
    assert(edits.contains(edits[i]));
    assert(sorted.contains(edits[i]));
    let k = choose|k: int| 0 <= k < sorted.len() && sorted[k] == edits[i];
    lemma_bad_edit_stops_replay(text, encode_utf8(text), sorted, k);
}

proof fn lemma_lines_follow(text: Seq<char>, a: int, b: int)
    requires
        0 <= a < b < lines_of(text).len(),
    ensures
        line_index(text, a) + lines_of(text)[a].len() < line_index(text, b),
    decreases b,
{
    lemma_line_place(text, b - 1);
    lemma_line_place(text, b);
    let line = lines_of(text)[b - 1];
    let i = line_index(text, b - 1) as int;
    let next = line_index(text, b) as int;
    if next == i + line.len() {
        if line.len() > 0 {
            assert(line[line.len() - 1] == text.subrange(i, i + line.len())[line.len() - 1]);
            assert(line.contains(line[line.len() - 1]));
        }
    }
    if a < b - 1 {
        lemma_lines_follow(text, a, b - 1);
    }
}

/// Positions are ordered as the places that they name in a text.
pub proof fn law_positions_are_ordered_as_places(text: Seq<char>, a: Position, b: Position)
    requires
        offset_of(text, a) is Some,
        offset_of(text, b) is Some,
    ensures
        precedes(a, b) <==> place_of(text, a) < place_of(text, b),
        a == b <==> place_of(text, a) == place_of(text, b),
{
    if a.line < b.line {
        lemma_lines_follow(text, a.line as int, b.line as int);
    } else if b.line < a.line {
        lemma_lines_follow(text, b.line as int, a.line as int);
    }
}

/// Two edits that touch no character twice replace their two ranges and nothing else, whichever of
/// them is listed first.
pub proof fn law_two_edits_replace_both_ranges(
    text: Seq<char>,
    above: TextEditView,
    below: TextEditView,
)
    requires
        offset_of(text, above.range.start) is Some,
        offset_of(text, above.range.end) is Some,
        offset_of(text, below.range.start) is Some,
        offset_of(text, below.range.end) is Some,
        place_of(text, above.range.start) <= place_of(text, above.range.end) <= place_of(
            text,
            below.range.start,
        ) <= place_of(text, below.range.end),
        place_of(text, above.range.start) < place_of(text, below.range.start),
    ensures
        ({
            let new_text = text.take(place_of(text, above.range.start)) + above.new_text
                + text.subrange(
                place_of(text, above.range.end),
                place_of(text, below.range.start),
            ) + below.new_text + text.skip(place_of(text, below.range.end));
            &&& edited(text, seq![above, below]) == Replay::Edited(encode_utf8(new_text))
            &&& edited(text, seq![below, above]) == Replay::Edited(encode_utf8(new_text))
        }),
{
    let (first, second) = (seq![above, below], seq![below, above]);
    let none = Seq::<TextEditView>::empty();
    law_positions_are_ordered_as_places(text, above.range.start, below.range.start);
    law_offset_is_exact(text, above.range.start);
    law_offset_is_exact(text, below.range.end);
    assert(first.drop_last() =~= seq![above]);
    assert(second.drop_last() =~= seq![below]);
    assert(seq![above].drop_last() =~= none);
    assert(seq![below].drop_last() =~= none);
    assert(none.push(above) =~= seq![above]);
    assert(none.push(below) =~= seq![below]);
    assert(bottom_up(none) =~= none);
    assert(bottom_up(seq![above]) =~= seq![above]);
    assert(bottom_up(seq![below]) =~= seq![below]);
    assert(put(none, below) =~= seq![below]);
    assert(put(seq![above], below) =~= seq![above].push(below) || put(seq![above], below)
        =~= put(none, below).push(above));
    assert(bottom_up(first) =~= second);
    assert(bottom_up(second) =~= second);
    assert(apart(text, second));
    law_edits_are_independent(text, first);
    law_edits_are_independent(text, second);
    assert(second.skip(1) =~= seq![above]);
    assert(seq![above].skip(1) =~= none);
    let (sa, ea) = (place_of(text, above.range.start), place_of(text, above.range.end));
    let (sb, eb) = (place_of(text, below.range.start), place_of(text, below.range.end));
    let head = text.take(sb);
    assert(patched(text, head.take(sa), none) == head.take(sa));
    assert(patched(text, head, seq![above]) == head.take(sa) + above.new_text + head.skip(ea));
    assert(patched(text, text, second) == patched(text, head, seq![above]) + below.new_text
        + text.skip(eb));
    assert(head.take(sa) =~= text.take(sa));
    assert(head.skip(ea) =~= text.subrange(ea, sb));
}

/// No edits leave a text as it is. An edit with a place that the text does not have is refused for
/// that, and one whose range ends before it starts is refused for its range.
pub proof fn law_refusals_tell_what_is_wrong(text: Seq<char>, edit: TextEditView)
    ensures
        edited(text, Seq::empty()) == Replay::Edited(encode_utf8(text)),
        offset_of(text, edit.range.start) is None || offset_of(text, edit.range.end) is None
            ==> edited(text, seq![edit]) == Replay::Refused(EditError::UnknownPosition),
        offset_of(text, edit.range.start) is Some && offset_of(text, edit.range.end) is Some
            && place_of(text, edit.range.start) > place_of(text, edit.range.end) ==> edited(
            text,
            seq![edit],
        ) == Replay::Refused(EditError::InvalidRange),
{
    let edits = seq![edit];
    let none = Seq::<TextEditView>::empty();
    assert(edits.drop_last() =~= none);
    assert(bottom_up(none) =~= none);
    assert(bottom_up(edits) =~= edits);
    if offset_of(text, edit.range.start) is Some && offset_of(text, edit.range.end) is Some
        && place_of(text, edit.range.start) > place_of(text, edit.range.end) {
        law_offset_is_exact(text, edit.range.start);
        law_offset_is_exact(text, edit.range.end);
        lemma_longer_has_more_bytes(
            text,
            place_of(text, edit.range.end),
            place_of(text, edit.range.start),
        );
    }
}

proof fn lemma_offset_in_bytes(text: Seq<char>, position: Position)
    requires
        offset_of(text, position) is Some,
    ensures
        offset_of(text, position)->0 <= encode_utf8(text).len(),
        is_char_boundary(encode_utf8(text), offset_of(text, position)->0 as int),
{
    law_offset_is_exact(text, position);
    let place = place_of(text, position);
    let (before, after) = (text.take(place), text.skip(place));
    assert(text =~= before + after);
    lemma_encode_concat(before, after);
    lemma_boundary(before, after);
}

/// Of two edits the lower one is made first, and the upper one on what comes of it, at the bytes that
/// its range has in the text as given. Where those are not there any more, the edits are refused;
/// where they cut a character in two, no text comes out.
pub proof fn law_overlapping_edits_are_made_from_the_bottom(
    text: Seq<char>,
    above: TextEditView,
    below: TextEditView,
)
    requires
        offset_of(text, above.range.start) is Some,
        offset_of(text, above.range.end) is Some,
        offset_of(text, below.range.start) is Some,
        offset_of(text, below.range.end) is Some,
        place_of(text, above.range.start) <= place_of(text, above.range.end),
        place_of(text, below.range.start) <= place_of(text, below.range.end),
        place_of(text, above.range.start) < place_of(text, below.range.start),
    ensures
        ({
            let bytes = encode_utf8(text);
            let (from, to) = (
                offset_of(text, above.range.start)->0 as int,
                offset_of(text, above.range.end)->0 as int,
            );
            let first = bytes.take(offset_of(text, below.range.start)->0 as int) + encode_utf8(
                below.new_text,
            ) + bytes.skip(offset_of(text, below.range.end)->0 as int);
            let made = edited(text, seq![above, below]);
            &&& to > first.len() ==> made == Replay::Refused(EditError::InvalidRange)
            &&& to <= first.len() && is_char_boundary(first, from) && is_char_boundary(first, to)
                ==> made == Replay::Edited(
                first.take(from) + encode_utf8(above.new_text) + first.skip(to),
            )
            &&& to <= first.len() && !(is_char_boundary(first, from) && is_char_boundary(first, to))
                ==> made == Replay::SplitsCharacter
        }),
{
    let edits = seq![above, below];
    let sorted = seq![below, above];
    let none = Seq::<TextEditView>::empty();
    law_positions_are_ordered_as_places(text, above.range.start, below.range.start);
    assert(edits.drop_last() =~= seq![above]);
    assert(seq![above].drop_last() =~= none);
    assert(none.push(above) =~= seq![above]);
    assert(none.push(below) =~= seq![below]);
    assert(bottom_up(none) =~= none);
    assert(bottom_up(seq![above]) =~= seq![above]);
    assert(put(none, below) =~= seq![below]);
    assert(bottom_up(edits) =~= sorted);
    lemma_offset_in_bytes(text, above.range.start);
    lemma_offset_in_bytes(text, above.range.end);
    lemma_offset_in_bytes(text, below.range.start);
    lemma_offset_in_bytes(text, below.range.end);
    law_offset_is_exact(text, above.range.start);
    law_offset_is_exact(text, above.range.end);
    law_offset_is_exact(text, below.range.start);
    law_offset_is_exact(text, below.range.end);
    if place_of(text, below.range.start) < place_of(text, below.range.end) {
        lemma_longer_has_more_bytes(
            text,
            place_of(text, below.range.start),
            place_of(text, below.range.end),
        );
    }
    if place_of(text, above.range.start) < place_of(text, above.range.end) {
        lemma_longer_has_more_bytes(
            text,
            place_of(text, above.range.start),
            place_of(text, above.range.end),
        );
    }
    assert(sorted.skip(1) =~= seq![above]);
    assert(seq![above].skip(1) =~= none);
    reveal_with_fuel(replay, 3);
}

}
