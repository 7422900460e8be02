//! Finding places in a text: excerpts, byte offsets of lines, positions of bytes, and the block of
//! code that an identifier means.
use crate::edits::{
    feeds_in, lemma_encode_concat, lemma_feeds_concat, lemma_line_place, lemma_lines_split,
    line_index, line_place, line_start, offset_of, Position,
};
use crate::paths::opt_str;
use crate::scope::{
    determine_code_scope, law_scope_holds_target, lemma_lines_total, scope_of, total_len,
};
use crate::text::{
    breaks_at, chars_of, contains, equal, is_space, join, joined, law_joined_lists_join,
    lemma_word_len, lines, lines_of, occurs, occurs_at, string_of, texts, word_len, words, words_of,
};
use rayon::iter::{IntoParallelRefIterator, ParallelIterator};
use vstd::prelude::*;
use vstd::utf8::{
    encode_scalar, encode_utf8, is_ascii_chars, is_ascii_chars_encode_utf8, last_continuation_byte,
    leading_byte_width_1, leading_byte_width_2, leading_byte_width_3, leading_byte_width_4,
    second_last_continuation_byte, third_last_continuation_byte,
};

verus! {

/// The excerpt of a text from one line to another, with some lines before and after it, as far as
/// the text has them. Nothing where the text does not have the line at which the excerpt starts or
/// the other line, or where the excerpt would start behind its end.
pub open spec fn excerpt(
    text: Seq<char>,
    start_line: u32,
    end_line: u32,
    prefix: u8,
    suffix: u8,
) -> Option<Seq<char>> {
    let all = lines_of(text);
    let first = if start_line < prefix {
        0
    } else {
        start_line - prefix
    };
    let last = if end_line + suffix < all.len() {
        end_line + suffix
    } else {
        all.len() - 1
    };
    if first >= all.len() || end_line >= all.len() || first > last {
        None
    } else {
        Some(joined(all.subrange(first, last + 1), "\n"@))
    }
}

/// A copy of a text.
pub fn copy(line: &String) -> (res: String)
    ensures
        res@ == line@,
{
    line.clone()
}

/// A parallel map of `copy` over a range of lines, by rayon's `par_iter`, `map` and `collect`.
/// rayon collects the results of an indexed parallel iterator in the order of its items, so the
/// copies stand as the lines do.
#[verifier::external_body]
fn copy_in_parallel(all: &Vec<String>, from: usize, to: usize) -> (res: Vec<String>)
    requires
        from <= to <= all@.len(),
    ensures
        texts(res@) == texts(all@).subrange(from as int, to as int),
{
    all[from..to].par_iter().map(|line| copy(line)).collect()
}

fn copy_range(all: &Vec<String>, from: usize, to: usize) -> (res: Vec<String>)
    requires
        from <= to <= all@.len(),
    ensures
        texts(res@) == texts(all@).subrange(from as int, to as int),
{
    let mut out: Vec<String> = Vec::new();
    let mut i: usize = from;
    while i < to
        invariant
            from <= i <= to <= all@.len(),
            texts(out@) == texts(all@).subrange(from as int, i as int),
        decreases to - i,
    {
        let ghost before = out@;
        out.push(copy(&all[i]));
        assert(texts(out@) =~= texts(before).push(all@[i as int]@));
        i += 1;
        assert(texts(out@) =~= texts(all@).subrange(from as int, i as int));
    }
    assert(texts(out@) =~= texts(all@).subrange(from as int, to as int));
    out
}

/// The lines of a text from `start_line` to `end_line`, both counted from zero and both taken
/// along, with `prefix` lines before and `suffix` lines after them. Nothing where the first line
/// with its prefix, or the last line, is out of bounds.
pub fn get_file_lines(
    content: &str,
    start_line: u32,
    end_line: u32,
    prefix: u8,
    suffix: u8,
) -> (res: Option<String>)
    ensures
        match res {
            Some(text) => excerpt(content@, start_line, end_line, prefix, suffix) == Some(text@),
            None => excerpt(content@, start_line, end_line, prefix, suffix) is None,
        },
{
    let all = lines(content);
    assert(texts(all@).len() == all@.len());
    if end_line as usize >= all.len() {
        return None;
    }
    let start = start_line.saturating_sub(prefix as u32) as usize;
    let room: usize = all.len() - 1 - end_line as usize;
    let end: usize = if (suffix as usize) < room {
        end_line as usize + suffix as usize
    } else {
        all.len() - 1
    };
    if start > end {
        return None;
    }
    let selected = if end - start > 1000 {
        copy_in_parallel(&all, start, end + 1)
    } else {
        copy_range(&all, start, end + 1)
    };
    Some(join(&selected, "\n"))
}

fn offset_of_line(chars: &Vec<char>, line: usize) -> (res: usize)
    ensures
        res == line_start(chars@, line as int),
{
    let place = line_place(chars, line);
    let before = string_of(chars, 0, place);
    assert(before@ =~= chars@.take(place as int));
    before.as_str().as_bytes().len()
}

/// The byte offset at which a line starts; past the last line, the length of the text.
pub fn line_to_byte_offset(content: &str, line: usize) -> (res: usize)
    ensures
        res == line_start(content@, line as int),
{
    let chars = chars_of(content);
    offset_of_line(&chars, line)
}

/// The number of line feeds among some bytes.
pub open spec fn feed_bytes(bytes: Seq<u8>) -> nat
    decreases bytes.len(),
{
    if bytes.len() == 0 {
        0
    } else if bytes.last() == 10 {
        feed_bytes(bytes.drop_last()) + 1
    } else {
        feed_bytes(bytes.drop_last())
    }
}

/// The number of bytes behind the last line feed.
pub open spec fn since_feed(bytes: Seq<u8>) -> nat
    decreases bytes.len(),
{
    if bytes.len() == 0 || bytes.last() == 10 {
        0
    } else {
        since_feed(bytes.drop_last()) + 1
    }
}

/// The position of a byte. Its line is the number of line feeds before the byte, and its character
/// the number of bytes behind the last of them. A byte past the end stands at the end.
pub open spec fn byte_position(text: Seq<char>, byte: int) -> Position {
    let bytes = encode_utf8(text);
    let at = if byte < bytes.len() {
        byte
    } else {
        bytes.len() as int
    };
    Position {
        line: feed_bytes(bytes.take(at)) as u32,
        character: since_feed(bytes.take(at)) as u32,
    }
}

fn position_of_byte(content: &str, byte: usize) -> (res: Position)
    ensures
        res == byte_position(content@, byte as int),
{
    let bytes = content.as_bytes();
    let at: usize = if byte < bytes.len() {
        byte
    } else {
        bytes.len()
    };
    let mut line: usize = 0;
    let mut character: usize = 0;
    let mut i: usize = 0;
    assert(bytes@.take(0) =~= Seq::<u8>::empty());
    while i < at
        invariant
            i <= at <= bytes@.len(),
            line <= i,
            character <= i,
            line == feed_bytes(bytes@.take(i as int)),
            character == since_feed(bytes@.take(i as int)),
        decreases at - i,
    {
        assert(bytes@.take(i + 1).drop_last() =~= bytes@.take(i as int));
        assert(bytes@.take(i + 1).last() == bytes@[i as int]);
        if bytes[i] == 10 {
            line += 1;
            character = 0;
        } else {
            character += 1;
        }
        i += 1;
    }
    Position { line: line as u32, character: character as u32 }
}

/// The positions of two bytes.
pub fn byte_positions_to_lsp_positions(content: &str, start_byte: usize, end_byte: usize) -> (res: (
    Position,
    Position,
))
    ensures
        res.0 == byte_position(content@, start_byte as int),
        res.1 == byte_position(content@, end_byte as int),
{
    (position_of_byte(content, start_byte), position_of_byte(content, end_byte))
}

proof fn lemma_bytes_above(c: u32)
    by (bit_vector)
    ensures
        leading_byte_width_2(c) >= 0x80,
        leading_byte_width_3(c) >= 0x80,
        leading_byte_width_4(c) >= 0x80,
        last_continuation_byte(c) >= 0x80,
        second_last_continuation_byte(c) >= 0x80,
        third_last_continuation_byte(c) >= 0x80,
{
}

proof fn lemma_byte_below(c: u32)
    by (bit_vector)
    requires
        c <= 0x7f,
    ensures
        leading_byte_width_1(c) == c,
{
}

proof fn lemma_char_feeds(c: char)
    ensures
        c == '\n' ==> encode_utf8(seq![c]) == seq![10u8],
        c != '\n' ==> !encode_utf8(seq![c]).contains(10),
{
    let u = c as u32;
    assert(seq![c].drop_first() =~= Seq::<char>::empty());
    assert(encode_utf8(Seq::<char>::empty()) =~= Seq::<u8>::empty());
    assert(encode_utf8(seq![c]) =~= encode_scalar(u));
    lemma_bytes_above(u);
    if u <= 0x7f {
        lemma_byte_below(u);
    }
}

/// A text without line feeds has no byte of one.
proof fn lemma_plain_bytes(text: Seq<char>)
    requires
        !text.contains('\n'),
    ensures
        !encode_utf8(text).contains(10),
    decreases text.len(),
{
    if text.len() > 0 {
        let tail = text.drop_first();
        assert(text =~= seq![text[0]] + tail);
        lemma_encode_concat(seq![text[0]], tail);
        lemma_char_feeds(text[0]);
        assert(text.contains(text[0]));
        if tail.contains('\n') {
            let j = choose|j: int| 0 <= j < tail.len() && tail[j] == '\n';
            assert(text[j + 1] == '\n');
        }
        lemma_plain_bytes(tail);
        let bytes = encode_utf8(text);
        let first = encode_utf8(seq![text[0]]);
        if bytes.contains(10) {
            let j = choose|j: int| 0 <= j < bytes.len() && bytes[j] == 10;
            if j < first.len() {
                assert(first[j] == 10);
            } else {
                assert(encode_utf8(tail)[j - first.len()] == 10);
            }
        }
    }
}

/// Bytes without a line feed add to the count since the last one, and add no line feed.
proof fn lemma_plain_tail(bytes: Seq<u8>, plain: Seq<u8>)
    requires
        !plain.contains(10),
    ensures
        feed_bytes(bytes + plain) == feed_bytes(bytes),
        since_feed(bytes + plain) == since_feed(bytes) + plain.len(),
    decreases plain.len(),
{
    if plain.len() == 0 {
        assert(bytes + plain =~= bytes);
    } else {
        let front = plain.drop_last();
        assert((bytes + plain).drop_last() =~= bytes + front);
        assert((bytes + plain).last() == plain.last());
        assert(plain.contains(plain.last()));
        if front.contains(10) {
            let j = choose|j: int| 0 <= j < front.len() && front[j] == 10;
            assert(plain[j] == 10);
        }
        lemma_plain_tail(bytes, front);
    }
}

/// The bytes of a text hold as many line feeds as its characters.
proof fn lemma_feeds_encoded(text: Seq<char>)
    ensures
        feed_bytes(encode_utf8(text)) == feeds_in(text),
        text.len() > 0 && text.last() == '\n' ==> since_feed(encode_utf8(text)) == 0,
    decreases text.len(),
{
    if text.len() > 0 {
        let front = text.drop_last();
        let c = text.last();
        assert(text =~= front + seq![c]);
        lemma_encode_concat(front, seq![c]);
        lemma_char_feeds(c);
        lemma_feeds_encoded(front);
        if c == '\n' {
            let bytes = encode_utf8(text);
            assert(bytes.drop_last() =~= encode_utf8(front));
            assert(bytes.last() == 10);
        } else {
            lemma_plain_tail(encode_utf8(front), encode_utf8(seq![c]));
        }
    }
}

/// The byte at the offset of a position stands on that position's line, as many bytes into it as
/// the characters before the position have. In a line of ASCII characters it has that very
/// position.
pub proof fn law_offsets_convert(text: Seq<char>, position: Position)
    requires
        offset_of(text, position) is Some,
    ensures
        ({
            let line = lines_of(text)[position.line as int];
            let back = byte_position(text, offset_of(text, position)->0 as int);
            &&& back.line == position.line
            &&& back.character == encode_utf8(line.take(position.character as int)).len() as u32
            &&& is_ascii_chars(line) ==> back == position
        }),
{
    let n = position.line as int;
    let c = position.character as int;
    let line = lines_of(text)[n];
    let i = line_index(text, n) as int;
    lemma_line_place(text, n);
    let before = text.take(i);
    let head = line.take(c);
    assert(text.take(i + c) =~= before + head) by {
        assert forall|j: int| 0 <= j < c implies text[i + j] == line[j] by {
            assert(text.subrange(i, i + line.len())[j] == line[j]);
        }
    }
    assert(text =~= text.take(i + c) + text.skip(i + c));
    lemma_encode_concat(text.take(i + c), text.skip(i + c));
    lemma_encode_concat(before, head);
    let at = encode_utf8(text.take(i + c)).len() as int;
    assert(encode_utf8(text).take(at) =~= encode_utf8(before) + encode_utf8(head));
    if head.contains('\n') {
        let j = choose|j: int| 0 <= j < head.len() && head[j] == '\n';
        assert(line[j] == '\n');
    }
    lemma_plain_bytes(head);
    lemma_plain_tail(encode_utf8(before), encode_utf8(head));
    lemma_feeds_encoded(before);
    if n > 0 {
        assert(before.last() == text[i - 1]);
    } else {
        assert(before =~= Seq::<char>::empty());
    }
    if is_ascii_chars(line) {
        assert(is_ascii_chars(head)) by {
            assert forall|j: int| 0 <= j < head.len() implies '\0' <= #[trigger] head[j] <= '\u{7f}' by {
                assert(head[j] == line[j]);
            }
        }
        is_ascii_chars_encode_utf8(head);
    }
}

/// The byte at which a line starts has the position of that line's first character, and that
/// position has that byte for its offset.
pub proof fn law_line_starts_convert(text: Seq<char>, n: u32)
    requires
        n < lines_of(text).len(),
    ensures
        byte_position(text, line_start(text, n as int) as int) == (Position {
            line: n,
            character: 0,
        }),
        offset_of(text, Position { line: n, character: 0 }) == Some(line_start(text, n as int)),
{
    let first = Position { line: n, character: 0 };
    law_offsets_convert(text, first);
    let none = lines_of(text)[n as int].take(0);
    assert(none =~= Seq::<char>::empty());
    assert(encode_utf8(none).len() == 0);
}

/// How similar two texts are: a share of a whole.
#[derive(Clone, Copy, PartialEq, Eq, Structural, Debug)]
pub struct Similarity {
    pub part: usize,
    pub whole: usize,
}

/// What a similarity is.
pub struct SimilarityView {
    pub part: nat,
    pub whole: nat,
}

impl View for Similarity {
    type V = SimilarityView;

    open spec fn view(&self) -> SimilarityView {
        SimilarityView { part: self.part as nat, whole: self.whole as nat }
    }
}

/// The different words of a text.
pub open spec fn word_set(text: Seq<char>) -> Set<Seq<char>> {
    words_of(text).to_set()
}

/// The similarity of two texts: the words that they share, out of those that they have between
/// them. Two texts without words are wholly similar.
pub open spec fn similarity_of(a: Seq<char>, b: Seq<char>) -> SimilarityView {
    let (x, y) = (word_set(a), word_set(b));
    if x.is_empty() && y.is_empty() {
        SimilarityView { part: 1, whole: 1 }
    } else {
        SimilarityView { part: x.intersect(y).len(), whole: x.union(y).len() }
    }
}

/// The similarity of two texts is the same either way round. It lies between none and all of a
/// whole that is not zero. It is all of it exactly where the texts have the same words, and none
/// of it exactly where they share no word and one of them has a word.
pub proof fn law_similarity(a: Seq<char>, b: Seq<char>)
    ensures
        ({
            let (x, y) = (word_set(a), word_set(b));
            let found = similarity_of(a, b);
            &&& found == similarity_of(b, a)
            &&& 0 < found.whole
            &&& 0 <= found.part <= found.whole
            &&& found.part == found.whole <==> x == y
            &&& found.part == 0 <==> x.disjoint(y) && !(x.is_empty() && y.is_empty())
        }),
{
    let (x, y) = (word_set(a), word_set(b));
    let (both, either) = (x.intersect(y), x.union(y));
    words_of(a).lemma_cardinality_of_set();
    words_of(b).lemma_cardinality_of_set();
    assert(both =~= y.intersect(x));
    assert(either =~= y.union(x));
    vstd::set_lib::lemma_len_subset(both, either);
    if x.is_empty() && y.is_empty() {
        assert(x =~= y);
    } else {
        if either.len() == 0 {
            assert(either =~= Set::empty());
            assert(x =~= Set::empty());
            assert(y =~= Set::empty());
        }
        if both.len() == either.len() {
            vstd::set_lib::lemma_subset_equality(both, either);
            assert forall|w: Seq<char>| x.contains(w) == y.contains(w) by {
                assert(both.contains(w) == either.contains(w));
            }
            assert(x =~= y);
        }
        if x == y {
            assert(both =~= either);
        }
        if both.len() == 0 {
            assert(both =~= Set::empty());
            assert forall|w: Seq<char>| x.contains(w) implies !y.contains(w) by {
                assert(!both.contains(w));
            }
        }
        if x.disjoint(y) {
            assert(both =~= Set::empty());
        }
    }
}

proof fn lemma_words_len(text: Seq<char>)
    ensures
        words_of(text).len() <= text.len(),
    decreases text.len(),
{
    if text.len() > 0 {
        if is_space(text[0]) {
            lemma_words_len(text.skip(1));
        } else {
            lemma_word_len(text);
            lemma_words_len(text.skip(word_len(text) as int));
        }
    }
}

fn holds(items: &Vec<String>, text: &str) -> (res: bool)
    ensures
        res == texts(items@).contains(text@),
{
    let mut i: usize = 0;
    while i < items.len()
        invariant
            i <= items@.len(),
            forall|j: int| 0 <= j < i ==> texts(items@)[j] != text@,
        decreases items@.len() - i,
    {
        if equal(items[i].as_str(), text) {
            assert(texts(items@)[i as int] == text@);
            return true;
        }
        i += 1;
    }
    false
}

/// The different words of a text, in the order in which they first stand in it.
fn distinct_words(text: &str) -> (res: Vec<String>)
    ensures
        texts(res@).no_duplicates(),
        texts(res@).to_set() == word_set(text@),
        res@.len() <= text@.len(),
{
    let all = words(text);
    proof {
        lemma_words_len(text@);
    }
    assert(texts(all@).len() == all@.len());
    let ghost every = texts(all@);
    let mut out: Vec<String> = Vec::new();
    let mut i: usize = 0;
    assert(texts(out@).to_set() =~= every.take(0).to_set());
    while i < all.len()
        invariant
            i <= all@.len(),
            every == texts(all@),
            out@.len() <= i,
            texts(out@).no_duplicates(),
            texts(out@).to_set() == every.take(i as int).to_set(),
        decreases all@.len() - i,
    {
        let ghost before = texts(out@);
        let ghost word = every[i as int];
        assert(every.take(i + 1) =~= every.take(i as int).push(word));
        proof {
            every.take(i as int).lemma_push_to_set_commute(word);
            before.lemma_push_to_set_commute(word);
        }
        if !holds(&out, all[i].as_str()) {
            let ghost strings = out@;
            out.push(copy(&all[i]));
            assert(texts(out@) =~= before.push(word));
        } else {
            assert(before.to_set().contains(word));
            assert(before.to_set().insert(word) =~= before.to_set());
        }
        i += 1;
    }
    assert(every.take(i as int) =~= every);
    out
}

/// The similarity of two texts.
pub fn calculate_similarity(a: &str, b: &str) -> (res: Similarity)
    requires
        a@.len() + b@.len() <= usize::MAX,
    ensures
        res@ == similarity_of(a@, b@),
{
    let x = distinct_words(a);
    let y = distinct_words(b);
    let ghost xs = texts(x@);
    let ghost ys = texts(y@);
    assert(xs.len() == x@.len() && ys.len() == y@.len());
    if x.len() == 0 && y.len() == 0 {
        assert(xs.to_set() =~= Set::empty());
        assert(ys.to_set() =~= Set::empty());
        return Similarity { part: 1, whole: 1 };
    }
    proof {
        if xs.len() > 0 {
            assert(xs.to_set().contains(xs[0]));
        }
        if ys.len() > 0 {
            assert(ys.to_set().contains(ys[0]));
        }
    }
    let mut shared: usize = 0;
    let mut i: usize = 0;
    let ghost mut common: Set<Seq<char>> = Set::empty();
    assert(xs.take(0).to_set().intersect(ys.to_set()) =~= Set::empty());
    while i < x.len()
        invariant
            i <= x@.len(),
            xs == texts(x@),
            ys == texts(y@),
            xs.no_duplicates(),
            common.finite(),
            common == xs.take(i as int).to_set().intersect(ys.to_set()),
            shared == common.len(),
            shared <= i,
        decreases x@.len() - i,
    {
        let ghost word = xs[i as int];
        assert(xs.take(i + 1) =~= xs.take(i as int).push(word));
        proof {
            xs.take(i as int).lemma_push_to_set_commute(word);
            assert(!xs.take(i as int).contains(word)) by {
                if xs.take(i as int).contains(word) {
                    let j = choose|j: int| 0 <= j < i && xs.take(i as int)[j] == word;
                    assert(xs[j] == xs[i as int]);
                }
            }
            assert(!common.contains(word));
        }
        if holds(&y, x[i].as_str()) {
            shared += 1;
            proof {
                assert(ys.to_set().contains(word));
                assert(xs.take(i + 1).to_set().intersect(ys.to_set()) =~= common.insert(word));
                common = common.insert(word);
            }
        } else {
            proof {
                assert(!ys.to_set().contains(word));
                assert(xs.take(i + 1).to_set().intersect(ys.to_set()) =~= common);
            }
        }
        i += 1;
    }
    proof {
        assert(xs.take(i as int) =~= xs);
        xs.unique_seq_to_set();
        ys.unique_seq_to_set();
        vstd::set_lib::lemma_set_intersect_union_lens(xs.to_set(), ys.to_set());
        vstd::set_lib::lemma_len_intersect(xs.to_set(), ys.to_set());
    }
    Similarity { part: shared, whole: (x.len() - shared) + y.len() }
}

/// The similarities are those of an identifier with the lines of a text.
pub open spec fn are_similarities(
    content: Seq<char>,
    target_identifier: Seq<char>,
    similarities: Seq<Similarity>,
) -> bool {
    &&& similarities.len() == lines_of(content).len()
    &&& forall|i: int|
        0 <= i < similarities.len() ==> (#[trigger] similarities[i])@ == similarity_of(
            target_identifier,
            lines_of(content)[i],
        )
}

/// The similarity of an identifier with each line of a text.
pub fn line_similarities(content: &str, target_identifier: &str) -> (res: Vec<Similarity>)
    requires
        content@.len() + target_identifier@.len() <= usize::MAX,
    ensures
        are_similarities(content@, target_identifier@, res@),
{
    let all = lines(content);
    assert(texts(all@).len() == all@.len());
    proof {
        lemma_lines_total(content@);
    }
    let mut out: Vec<Similarity> = Vec::new();
    let mut i: usize = 0;
    while i < all.len()
        invariant
            i <= all@.len(),
            texts(all@) == lines_of(content@),
            texts(all@).len() == all@.len(),
            total_len(lines_of(content@), lines_of(content@).len() as int) <= content@.len(),
            content@.len() + target_identifier@.len() <= usize::MAX,
            out@.len() == i,
            forall|j: int|
                0 <= j < i ==> (#[trigger] out@[j])@ == similarity_of(
                    target_identifier@,
                    lines_of(content@)[j],
                ),
        decreases all@.len() - i,
    {
        assert(all@[i as int]@ == lines_of(content@)[i as int]);
        proof {
            lemma_line_within_total(lines_of(content@), i as int, lines_of(content@).len() as int);
        }
        out.push(calculate_similarity(target_identifier, all[i].as_str()));
        i += 1;
    }
    out
}

proof fn lemma_line_within_total(all: Seq<Seq<char>>, i: int, n: int)
    requires
        0 <= i < n <= all.len(),
    ensures
        all[i].len() <= total_len(all, n),
    decreases n,
{
    if i < n - 1 {
        lemma_line_within_total(all, i, n - 1);
    }
}

/// The scores of a block of code, where the context hint stands in the block and where it does
/// not. Of two scores the larger number is the better score.
#[derive(Clone, Copy, PartialEq, Eq, Structural, Debug)]
pub struct BlockScore {
    pub plain: u64,
    pub with_hint: u64,
}

/// How a line of a text stands as the place that an identifier means: whether it is one at all,
/// and the scores of the block around it.
#[derive(Clone, Copy, PartialEq, Eq, Structural, Debug)]
pub struct LineScore {
    pub passes: bool,
    pub block: BlockScore,
}

/// A block of code that an identifier may mean.
pub struct Candidate {
    pub start: usize,
    pub end: usize,
    pub text: String,
    pub score: u64,
}

/// What a candidate is.
pub struct CandidateView {
    pub start: nat,
    pub end: nat,
    pub text: Seq<char>,
    pub score: u64,
}

impl View for Candidate {
    type V = CandidateView;

    open spec fn view(&self) -> CandidateView {
        CandidateView {
            start: self.start as nat,
            end: self.end as nat,
            text: self.text@,
            score: self.score,
        }
    }
}

/// The block around line `i`: its bytes, its text, and its score.
pub open spec fn candidate_at(
    content: Seq<char>,
    i: int,
    hint: Option<Seq<char>>,
    score: BlockScore,
) -> CandidateView {
    let all = lines_of(content);
    let (first, last) = scope_of(all, i);
    let text = joined(all.subrange(first, last + 1), "\n"@);
    CandidateView {
        start: line_start(content, first),
        end: line_start(content, last + 1),
        text,
        score: if hint is Some && occurs(text, hint->0) {
            score.with_hint
        } else {
            score.plain
        },
    }
}

/// The blocks around those of the first `n` lines that pass, in the order of the lines.
pub open spec fn candidates(
    content: Seq<char>,
    hint: Option<Seq<char>>,
    scores: Seq<LineScore>,
    n: int,
) -> Seq<CandidateView>
    decreases n,
{
    if n <= 0 {
        Seq::empty()
    } else if scores[n - 1].passes {
        candidates(content, hint, scores, n - 1).push(
            candidate_at(content, n - 1, hint, scores[n - 1].block),
        )
    } else {
        candidates(content, hint, scores, n - 1)
    }
}

/// The scores of the lines when only those count that hold the identifier.
pub open spec fn exact_scores(
    content: Seq<char>,
    target_identifier: Seq<char>,
    block: BlockScore,
) -> Seq<LineScore> {
    lines_of(content).map_values(
        |line: Seq<char>| LineScore { passes: occurs(line, target_identifier), block },
    )
}

/// The candidates for an identifier: the blocks around the lines that hold it, and only where
/// there is none, the blocks around the lines that pass by their own scores.
pub open spec fn target_candidates(
    content: Seq<char>,
    target_identifier: Seq<char>,
    hint: Option<Seq<char>>,
    exact: BlockScore,
    fuzzy: Seq<LineScore>,
) -> Seq<CandidateView> {
    let n = lines_of(content).len() as int;
    let found = candidates(content, hint, exact_scores(content, target_identifier, exact), n);
    if found.len() > 0 {
        found
    } else {
        candidates(content, hint, fuzzy, n)
    }
}

/// `k` is the first of the candidates with the best score.
pub open spec fn is_best(all: Seq<CandidateView>, k: int) -> bool {
    &&& 0 <= k < all.len()
    &&& forall|j: int| 0 <= j < all.len() ==> (#[trigger] all[j]).score <= all[k].score
    &&& forall|j: int| 0 <= j < k ==> (#[trigger] all[j]).score < all[k].score
}

/// What is found among some candidates.
pub open spec fn finds_target(
    all: Seq<CandidateView>,
    threshold: Option<u64>,
    res: Option<(usize, usize, String)>,
) -> bool {
    match res {
        Some((start, end, text)) => threshold is Some && exists|k: int|
            {
                &&& #[trigger] is_best(all, k)
                &&& all[k].score >= threshold->0
                &&& start == all[k].start
                &&& end == all[k].end
                &&& text@ == all[k].text
            },
        None => threshold is None || forall|k: int|
            0 <= k < all.len() ==> (#[trigger] all[k]).score < threshold->0,
    }
}

/// What some candidates are.
pub open spec fn candidate_views(all: Seq<Candidate>) -> Seq<CandidateView> {
    all.map_values(|c: Candidate| c@)
}

fn collect_candidates(
    content: &str,
    all: &Vec<String>,
    context_hint: Option<&str>,
    scores: &Vec<LineScore>,
) -> (res: Vec<Candidate>)
    requires
        texts(all@) == lines_of(content@),
        scores@.len() == all@.len(),
        encode_utf8(content@).len() < usize::MAX - 2,
        content@.len() <= i64::MAX,
    ensures
        candidate_views(res@) == candidates(
            content@,
            opt_str(context_hint),
            scores@,
            all@.len() as int,
        ),
{
    let ghost lines = lines_of(content@);
    let ghost hint = opt_str(context_hint);
    assert(lines.len() == all@.len());
    let chars = chars_of(content);
    let mut out: Vec<Candidate> = Vec::new();
    let mut i: usize = 0;
    assert(candidate_views(out@) =~= Seq::<CandidateView>::empty());
    proof {
        lemma_lines_total(content@);
        lemma_lines_count(content@);
    }
    while i < all.len()
        invariant
            i <= all@.len(),
            chars@ == content@,
            lines == lines_of(content@),
            texts(all@) == lines,
            lines.len() == all@.len(),
            scores@.len() == all@.len(),
            hint == opt_str(context_hint),
            encode_utf8(content@).len() < usize::MAX - 2,
            content@.len() <= i64::MAX,
            total_len(lines, lines.len() as int) <= content@.len(),
            lines.len() <= encode_utf8(content@).len(),
            candidate_views(out@) == candidates(content@, hint, scores@, i as int),
        decreases all@.len() - i,
    {
        if scores[i].passes {
            proof {
                law_scope_holds_target(lines, i as int);
            }
            let (first, last) = determine_code_scope(all, i);
            let part = copy_range(all, first, last + 1);
            let block = join(&part, "\n");
            let hinted = match context_hint {
                Some(h) => contains(block.as_str(), h),
                None => false,
            };
            let score = if hinted {
                scores[i].block.with_hint
            } else {
                scores[i].block.plain
            };
            let start = offset_of_line(&chars, first);
            let end = offset_of_line(&chars, last + 1);
            let ghost before = out@;
            let found = Candidate { start, end, text: block, score };
            assert(found@ == candidate_at(content@, i as int, hint, scores@[i as int].block));
            out.push(found);
            assert(candidate_views(out@) =~= candidate_views(before).push(found@));
        }
        i += 1;
    }
    out
}

proof fn lemma_lines_count(text: Seq<char>)
    ensures
        lines_of(text).len() <= encode_utf8(text).len(),
    decreases text.len(),
{
    if exists|i: int| breaks_at(text, i) {
        let i = choose|i: int| breaks_at(text, i);
        lemma_lines_split(text, i);
        lemma_lines_count(text.skip(i + 1));
    } else if text.len() > 0 {
        assert(encode_utf8(text).len() >= 1);
    }
}

fn find_best(all: &Vec<Candidate>) -> (res: usize)
    requires
        all@.len() > 0,
    ensures
        is_best(candidate_views(all@), res as int),
{
    let ghost views = candidate_views(all@);
    let mut best: usize = 0;
    let mut i: usize = 1;
    while i < all.len()
        invariant
            1 <= i <= all@.len(),
            views == candidate_views(all@),
            best < i,
            forall|j: int| 0 <= j < i ==> (#[trigger] views[j]).score <= views[best as int].score,
            forall|j: int| 0 <= j < best ==> (#[trigger] views[j]).score < views[best as int].score,
        decreases all@.len() - i,
    {
        assert(views[i as int] == all@[i as int]@);
        assert(views[best as int] == all@[best as int]@);
        if all[i].score > all[best].score {
            best = i;
        }
        i += 1;
    }
    best
}

/// The block of code that an identifier means: its first byte, the byte behind it, and its text.
/// The candidates are the blocks around the lines that hold the identifier, with the scores
/// `exact`, or, where no line holds it, those around the lines that pass by `fuzzy`. The first
/// one with the best score is taken, if that score is not below the threshold.
pub fn find_target_location(
    content: &str,
    target_identifier: &str,
    context_hint: Option<&str>,
    exact: BlockScore,
    fuzzy: &Vec<LineScore>,
    threshold: Option<u64>,
) -> (res: Option<(usize, usize, String)>)
    requires
        fuzzy@.len() == lines_of(content@).len(),
        encode_utf8(content@).len() < usize::MAX - 2,
        content@.len() <= i64::MAX,
    ensures
        finds_target(
            target_candidates(
                content@,
                target_identifier@,
                opt_str(context_hint),
                exact,
                fuzzy@,
            ),
            threshold,
            res,
        ),
{
    let all = lines(content);
    assert(texts(all@).len() == all@.len());
    let ghost hint = opt_str(context_hint);
    let ghost wanted = exact_scores(content@, target_identifier@, exact);
    let mut scores: Vec<LineScore> = Vec::new();
    let mut i: usize = 0;
    while i < all.len()
        invariant
            i <= all@.len(),
            texts(all@) == lines_of(content@),
            texts(all@).len() == all@.len(),
            wanted == exact_scores(content@, target_identifier@, exact),
            scores@ == wanted.take(i as int),
        decreases all@.len() - i,
    {
        assert(all@[i as int]@ == lines_of(content@)[i as int]);
        let score = LineScore {
            passes: contains(all[i].as_str(), target_identifier),
            block: exact,
        };
        scores.push(score);
        i += 1;
        assert(scores@ =~= wanted.take(i as int));
    }
    assert(wanted.take(i as int) =~= wanted);
    let mut found = collect_candidates(content, &all, context_hint, &scores);
    assert(candidate_views(found@).len() == found@.len());
    if found.len() == 0 {
        found = collect_candidates(content, &all, context_hint, fuzzy);
    }
    let ghost views = target_candidates(
        content@,
        target_identifier@,
        hint,
        exact,
        fuzzy@,
    );
    assert(views == candidate_views(found@));
    if found.len() == 0 {
        return None;
    }
    let best = find_best(&found);
    assert(is_best(views, best as int));
    match threshold {
        Some(t) => {
            if found[best].score >= t {
                let chosen = &found[best];
                assert(views[best as int] == chosen@);
                Some((chosen.start, chosen.end, copy(&chosen.text)))
            } else {
                assert(views[best as int] == found@[best as int]@);
                None
            }
        },
        None => None,
    }
}

proof fn lemma_block_text(text: Seq<char>, a: int, b: int)
    requires
        !text.contains('\r'),
        0 <= a <= b < lines_of(text).len(),
    ensures
        ({
            let all = lines_of(text);
            let from = line_index(text, a) as int;
            let to = (line_index(text, b) + all[b].len()) as int;
            &&& from <= to <= text.len()
            &&& text.subrange(from, to) == joined(all.subrange(a, b + 1), "\n"@)
        }),
    decreases b - a,
{
    let all = lines_of(text);
    let from = line_index(text, a) as int;
    let at = line_index(text, b) as int;
    let to = at + all[b].len();
    lemma_line_place(text, a);
    lemma_line_place(text, b);
    let part = all.subrange(a, b + 1);
    if a == b {
        assert(part =~= seq![all[b]]);
    } else {
        lemma_block_text(text, a, b - 1);
        lemma_line_place(text, b - 1);
        assert(at == line_index(text, b - 1) + all[b - 1].len() + 1);
        assert(part.drop_last() =~= all.subrange(a, b));
        assert(part.last() == all[b]);
        reveal_strlit("\n");
        assert("\n"@ =~= seq!['\n']);
        assert(text.subrange(from, to) =~= text.subrange(from, at - 1) + seq!['\n']
            + text.subrange(at, to));
    }
}

/// In a text without carriage returns, the bytes of a candidate are those of its text, and of the
/// line break behind it unless the text ends there. (A carriage return before a line feed is part
/// of the line break, and the text of a candidate has line feeds alone.)
#[verifier::spinoff_prover]
#[verifier::rlimit(30)]
pub proof fn law_candidate_bytes(
    content: Seq<char>,
    i: int,
    hint: Option<Seq<char>>,
    score: BlockScore,
)
    requires
        !content.contains('\r'),
        0 <= i < lines_of(content).len(),
    ensures
        ({
            let found = candidate_at(content, i, hint, score);
            let bytes = encode_utf8(content);
            let own = encode_utf8(found.text);
            &&& found.start <= found.end <= bytes.len()
            &&& {
                ||| bytes.subrange(found.start as int, found.end as int) == own && found.end
                    == bytes.len()
                ||| bytes.subrange(found.start as int, found.end as int) == own.push(10)
            }
        }),
{
    let all = lines_of(content);
    let bytes = encode_utf8(content);
    law_scope_holds_target(all, i);
    let (a, b) = scope_of(all, i);
    lemma_block_text(content, a, b);
    lemma_line_place(content, b);
    let from = line_index(content, a) as int;
    let to = (line_index(content, b) + all[b].len()) as int;
    let next = line_index(content, b + 1) as int;
    let head = content.take(from);
    let body = content.subrange(from, to);
    let whole = content.subrange(from, next);
    assert(content.take(next) =~= head + whole);
    lemma_encode_concat(head, whole);
    assert(content =~= content.take(next) + content.skip(next));
    lemma_encode_concat(content.take(next), content.skip(next));
    let start = line_start(content, a) as int;
    let end = line_start(content, b + 1) as int;
    assert(bytes.subrange(start, end) =~= encode_utf8(whole));
    if next == to {
        assert(content.take(next) =~= content);
        assert(whole =~= body);
    } else {
        assert(whole =~= body + seq!['\n']);
        lemma_encode_concat(body, seq!['\n']);
        lemma_char_feeds('\n');
        assert(encode_utf8(body) + seq![10u8] =~= encode_utf8(body).push(10));
    }
}

proof fn lemma_occurs_inside(
    before: Seq<char>,
    text: Seq<char>,
    after: Seq<char>,
    pattern: Seq<char>,
)
    requires
        occurs(text, pattern),
    ensures
        occurs(before + text + after, pattern),
{
    let i = choose|i: int| occurs_at(text, pattern, i);
    let whole = before + text + after;
    let j = before.len() + i;
    assert(whole.subrange(j, j + pattern.len()) =~= text.subrange(i, i + pattern.len()));
    assert(occurs_at(whole, pattern, j));
}

proof fn lemma_occurs_joined(
    parts: Seq<Seq<char>>,
    separator: Seq<char>,
    k: int,
    pattern: Seq<char>,
)
    requires
        0 <= k < parts.len(),
        occurs(parts[k], pattern),
    ensures
        occurs(joined(parts, separator), pattern),
    decreases parts.len(),
{
    let empty = Seq::<char>::empty();
    if parts.len() > 1 {
        let front = joined(parts.drop_last(), separator);
        if k == parts.len() - 1 {
            lemma_occurs_inside(front + separator, parts.last(), empty, pattern);
            assert(front + separator + parts.last() + empty =~= joined(parts, separator));
        } else {
            assert(parts.drop_last()[k] == parts[k]);
            lemma_occurs_joined(parts.drop_last(), separator, k, pattern);
            lemma_occurs_inside(empty, front, separator + parts.last(), pattern);
            assert(empty + front + (separator + parts.last()) =~= joined(parts, separator));
        }
    }
}

/// The block around a line that holds an identifier holds it too.
pub proof fn law_block_holds_identifier(
    content: Seq<char>,
    i: int,
    target_identifier: Seq<char>,
    hint: Option<Seq<char>>,
    score: BlockScore,
)
    requires
        0 <= i < lines_of(content).len(),
        occurs(lines_of(content)[i], target_identifier),
    ensures
        occurs(candidate_at(content, i, hint, score).text, target_identifier),
{
    let all = lines_of(content);
    law_scope_holds_target(all, i);
    let (first, last) = scope_of(all, i);
    let block = all.subrange(first, last + 1);
    assert(block[i - first] == all[i]);
    lemma_occurs_joined(block, "\n"@, i - first, target_identifier);
}

/// An excerpt of one line is that line, and two excerpts of which one follows the other make up that
/// of all their lines, with a line break between them.
pub proof fn law_excerpts_are_made_of_lines(
    text: Seq<char>,
    start_line: u32,
    middle: u32,
    end_line: u32,
)
    requires
        start_line <= middle < end_line < lines_of(text).len(),
    ensures
        excerpt(text, start_line, start_line, 0, 0) == Some(lines_of(text)[start_line as int]),
        excerpt(text, end_line, end_line, 0, 0) == Some(lines_of(text)[end_line as int]),
        excerpt(text, start_line, end_line, 0, 0) is Some,
        excerpt(text, start_line, end_line, 0, 0)->0 == excerpt(
            text,
            start_line,
            middle,
            0,
            0,
        )->0 + seq!['\n'] + excerpt(text, (middle + 1) as u32, end_line, 0, 0)->0,
{
    reveal_strlit("\n");
    assert("\n"@ =~= seq!['\n']);
    let all = lines_of(text);
    let (a, m, b) = (start_line as int, middle as int, end_line as int);
    assert(all.subrange(a, a + 1) =~= seq![all[a]]);
    assert(all.subrange(b, b + 1) =~= seq![all[b]]);
    assert(all.subrange(a, b + 1) =~= all.subrange(a, m + 1) + all.subrange(m + 1, b + 1));
    law_joined_lists_join(all.subrange(a, m + 1), all.subrange(m + 1, b + 1), "\n"@);
}

/// The lines before and after widen an excerpt as far as the text has lines. There is no excerpt
/// exactly where the text does not have the last line that is asked for, or where the excerpt would
/// start behind its end.
pub proof fn law_excerpt_is_widened_within_the_text(
    text: Seq<char>,
    start_line: u32,
    end_line: u32,
    prefix: u8,
    suffix: u8,
    first: u32,
    last: u32,
)
    requires
        first == if start_line >= prefix {
            start_line - prefix
        } else {
            0
        },
        lines_of(text).len() > 0,
        last == if end_line + suffix <= lines_of(text).len() - 1 {
            end_line + suffix
        } else {
            lines_of(text).len() - 1
        },
    ensures
        excerpt(text, start_line, end_line, prefix, suffix) is Some <==> end_line < lines_of(
            text,
        ).len() && first <= last,
        excerpt(text, start_line, end_line, prefix, suffix) is Some ==> excerpt(
            text,
            start_line,
            end_line,
            prefix,
            suffix,
        ) == excerpt(text, first, last, 0, 0),
        lines_of(text).len() <= end_line ==> excerpt(text, start_line, end_line, prefix, suffix) is None,
{
}

/// The line of a byte is the number of line feeds before it, and its character is the number of bytes
/// since the last of them, or since the start of the text.
pub proof fn law_byte_position_counts_line_feeds(text: Seq<char>, byte: int)
    requires
        0 <= byte <= encode_utf8(text).len() <= u32::MAX,
    ensures
        ({
            let before = encode_utf8(text).take(byte);
            let found = byte_position(text, byte);
            &&& found.line == before.filter(|b: u8| b == 10).len()
            &&& found.character <= byte
            &&& forall|i: int| byte - found.character <= i < byte ==> before[i] != 10
            &&& found.character < byte ==> before[byte - found.character - 1] == 10
        }),
{
    let before = encode_utf8(text).take(byte);
    lemma_feed_counts(before);
    before.lemma_filter_len(|b: u8| b == 10);
}

proof fn lemma_feed_counts(bytes: Seq<u8>)
    ensures
        feed_bytes(bytes) == bytes.filter(|b: u8| b == 10).len(),
        since_feed(bytes) <= bytes.len(),
        forall|i: int| bytes.len() - since_feed(bytes) <= i < bytes.len() ==> bytes[i] != 10,
        since_feed(bytes) < bytes.len() ==> bytes[bytes.len() - since_feed(bytes) - 1] == 10,
    decreases bytes.len(),
{
    reveal(Seq::filter);
    if bytes.len() > 0 {
        let front = bytes.drop_last();
        lemma_feed_counts(front);
        if bytes.last() != 10 {
            let k = since_feed(front) as int;
            assert forall|i: int| bytes.len() - since_feed(bytes) <= i < bytes.len() implies bytes[i]
                != 10 by {
                if i < front.len() {
                    assert(front[i] != 10);
                }
            }
            if since_feed(bytes) < bytes.len() {
                assert(front[front.len() - k - 1] == 10);
            }
        }
    }
}

/// Bytes past the end of a text have the position of its end.
pub proof fn law_bytes_past_the_end_stand_at_the_end(text: Seq<char>, byte: int)
    requires
        byte >= encode_utf8(text).len(),
    ensures
        byte_position(text, byte) == byte_position(text, encode_utf8(text).len() as int),
{
}

/// The similarity of two texts counts each word that both have once, out of each word that one of
/// them has.
pub proof fn law_similarity_counts_words(a: Seq<char>, b: Seq<char>)
    ensures
        words_of(a).len() > 0 || words_of(b).len() > 0 ==> {
            &&& similarity_of(a, b).part == words_of(a).to_set().filter(
                |word: Seq<char>| words_of(b).contains(word),
            ).len()
            &&& similarity_of(a, b).whole == (words_of(a) + words_of(b)).to_set().len()
        },
        words_of(a).len() == 0 && words_of(b).len() == 0 ==> similarity_of(a, b).part == 1
            && similarity_of(a, b).whole == 1,
{
    let (x, y) = (words_of(a), words_of(b));
    assert(word_set(a).intersect(word_set(b)) =~= x.to_set().filter(
        |word: Seq<char>| y.contains(word),
    ));
    assert((x + y).to_set() =~= word_set(a).union(word_set(b))) by {
        assert forall|word: Seq<char>| (x + y).contains(word) <==> x.contains(word) || y.contains(
            word,
        ) by {
            if (x + y).contains(word) {
                let i = choose|i: int| 0 <= i < (x + y).len() && (x + y)[i] == word;
                if i < x.len() {
                    assert(x[i] == word);
                } else {
                    assert(y[i - x.len()] == word);
                }
            }
            if x.contains(word) {
                let i = choose|i: int| 0 <= i < x.len() && x[i] == word;
                assert((x + y)[i] == word);
            }
            if y.contains(word) {
                let i = choose|i: int| 0 <= i < y.len() && y[i] == word;
                assert((x + y)[x.len() + i] == word);
            }
        }
    }
    if x.len() > 0 {
        assert(word_set(a).contains(x[0]));
    }
    if y.len() > 0 {
        assert(word_set(b).contains(y[0]));
    }
    if x.len() == 0 {
        assert(word_set(a) =~= Set::empty());
    }
    if y.len() == 0 {
        assert(word_set(b) =~= Set::empty());
    }
}

/// A candidate is the text of the lines of its block, from the first byte of the first line to the
/// first byte behind the last one. It has the score for the hint where the hint stands in that text,
/// and else the plain one.
pub proof fn law_candidate_is_the_block_of_its_line(
    content: Seq<char>,
    i: int,
    hint: Option<Seq<char>>,
    score: BlockScore,
)
    requires
        0 <= i < lines_of(content).len(),
    ensures
        ({
            let found = candidate_at(content, i, hint, score);
            let (first, last) = scope_of(lines_of(content), i);
            &&& found.text == joined(lines_of(content).subrange(first, last + 1), "\n"@)
            &&& found.start == line_start(content, first)
            &&& found.end == line_start(content, last + 1)
            &&& hint is Some && occurs(found.text, hint->0) ==> found.score == score.with_hint
            &&& hint is None || !occurs(found.text, hint->0) ==> found.score == score.plain
        }),
{
}

proof fn lemma_candidate_of(
    content: Seq<char>,
    hint: Option<Seq<char>>,
    scores: Seq<LineScore>,
    n: int,
    i: int,
) -> (k: int)
    requires
        0 <= i < n <= scores.len(),
        scores[i].passes,
    ensures
        0 <= k < candidates(content, hint, scores, n).len(),
        candidates(content, hint, scores, n)[k] == candidate_at(content, i, hint, scores[i].block),
        k == candidates(content, hint, scores, i).len(),
    decreases n,
{
    if i == n - 1 {
        candidates(content, hint, scores, n - 1).len() as int
    } else {
        lemma_candidate_of(content, hint, scores, n - 1, i)
    }
}

proof fn lemma_line_of_candidate(
    content: Seq<char>,
    hint: Option<Seq<char>>,
    scores: Seq<LineScore>,
    n: int,
    k: int,
) -> (i: int)
    requires
        0 <= n <= scores.len(),
        0 <= k < candidates(content, hint, scores, n).len(),
    ensures
        0 <= i < n,
        scores[i].passes,
        candidates(content, hint, scores, n)[k] == candidate_at(content, i, hint, scores[i].block),
        k == candidates(content, hint, scores, i).len(),
    decreases n,
{
    if scores[n - 1].passes && k == candidates(content, hint, scores, n - 1).len() {
        n - 1
    } else {
        lemma_line_of_candidate(content, hint, scores, n - 1, k)
    }
}

proof fn lemma_candidates_grow(
    content: Seq<char>,
    hint: Option<Seq<char>>,
    scores: Seq<LineScore>,
    a: int,
    b: int,
)
    requires
        0 <= a <= b <= scores.len(),
    ensures
        candidates(content, hint, scores, a).len() <= candidates(content, hint, scores, b).len(),
        a < b && scores[a].passes ==> candidates(content, hint, scores, a).len() < candidates(
            content,
            hint,
            scores,
            b,
        ).len(),
    decreases b - a,
{
    if a < b {
        lemma_candidates_grow(content, hint, scores, a, b - 1);
    }
}

/// What is found is the block of a line that passes and whose score is not below the threshold. No
/// line that passes has a block with a better score, and none before it one as good. Nothing is found
/// exactly where there is no threshold or every such block is below it.
proof fn lemma_target_is_the_best_block(
    content: Seq<char>,
    hint: Option<Seq<char>>,
    scores: Seq<LineScore>,
    threshold: Option<u64>,
    res: Option<(usize, usize, String)>,
) -> (i: int)
    requires
        finds_target(candidates(content, hint, scores, scores.len() as int), threshold, res),
    ensures
        res matches Some((start, end, text)) ==> {
            let found = candidate_at(content, i, hint, scores[i].block);
            &&& threshold is Some
            &&& 0 <= i < scores.len()
            &&& scores[i].passes
            &&& found.score >= threshold->0
            &&& found.start == start
            &&& found.end == end
            &&& found.text == text@
            &&& forall|j: int|
                0 <= j < scores.len() && (#[trigger] scores[j]).passes ==> candidate_at(
                    content,
                    j,
                    hint,
                    scores[j].block,
                ).score <= found.score
            &&& forall|j: int|
                0 <= j < i && (#[trigger] scores[j]).passes ==> candidate_at(
                    content,
                    j,
                    hint,
                    scores[j].block,
                ).score < found.score
        },
        res is None && threshold is Some ==> forall|j: int|
            0 <= j < scores.len() && (#[trigger] scores[j]).passes ==> candidate_at(
                content,
                j,
                hint,
                scores[j].block,
            ).score < threshold->0,
{
    let n = scores.len() as int;
    let all = candidates(content, hint, scores, n);
    if let Some((start, end, text)) = res {
        let k = choose|k: int|
            {
                &&& #[trigger] is_best(all, k)
                &&& all[k].score >= threshold->0
                &&& start == all[k].start
                &&& end == all[k].end
                &&& text@ == all[k].text
            };
        let i = lemma_line_of_candidate(content, hint, scores, n, k);
        assert forall|j: int| 0 <= j < n && (#[trigger] scores[j]).passes implies candidate_at(
            content,
            j,
            hint,
            scores[j].block,
        ).score <= all[k].score && (j < i ==> candidate_at(
            content,
            j,
            hint,
            scores[j].block,
        ).score < all[k].score) by {
            let m = lemma_candidate_of(content, hint, scores, n, j);
            assert(all[m].score <= all[k].score);
            if j < i {
                lemma_candidates_grow(content, hint, scores, j, i);
                assert(m < k);
            }
        }
        i
    } else {
        if threshold is Some {
            assert forall|j: int| 0 <= j < n && (#[trigger] scores[j]).passes implies candidate_at(
                content,
                j,
                hint,
                scores[j].block,
            ).score < threshold->0 by {
                let m = lemma_candidate_of(content, hint, scores, n, j);
                assert(all[m].score < threshold->0);
            }
        }
        0
    }
}

/// Where a line of the text holds the identifier, what is found is the block of such a line whose
/// score is not below the threshold. No line that holds the identifier has a block with a better
/// score, and none before it one as good. Nothing is found exactly where there is no threshold or
/// each of these blocks is below it.
pub proof fn law_identifier_is_found_where_it_stands(
    content: Seq<char>,
    target_identifier: Seq<char>,
    hint: Option<Seq<char>>,
    exact: BlockScore,
    fuzzy: Seq<LineScore>,
    threshold: Option<u64>,
    res: Option<(usize, usize, String)>,
)
    requires
        finds_target(
            target_candidates(content, target_identifier, hint, exact, fuzzy),
            threshold,
            res,
        ),
        exists|j: int|
            0 <= j < lines_of(content).len() && occurs(
                #[trigger] lines_of(content)[j],
                target_identifier,
            ),
    ensures
        res matches Some((start, end, text)) ==> threshold is Some && exists|i: int|
            {
                let found = candidate_at(content, i, hint, exact);
                &&& 0 <= i < lines_of(content).len()
                &&& occurs(#[trigger] lines_of(content)[i], target_identifier)
                &&& found.score >= threshold->0
                &&& found.start == start
                &&& found.end == end
                &&& found.text == text@
                &&& forall|j: int|
                    0 <= j < lines_of(content).len() && occurs(
                        #[trigger] lines_of(content)[j],
                        target_identifier,
                    ) ==> candidate_at(content, j, hint, exact).score <= found.score && (j < i
                        ==> candidate_at(content, j, hint, exact).score < found.score)
            },
        res is None ==> threshold is None || forall|j: int|
            0 <= j < lines_of(content).len() && occurs(
                #[trigger] lines_of(content)[j],
                target_identifier,
            ) ==> candidate_at(content, j, hint, exact).score < threshold->0,
{
    let all = lines_of(content);
    let scores = exact_scores(content, target_identifier, exact);
    let n = all.len() as int;
    assert(scores.len() == n);
    let some = choose|j: int| 0 <= j < all.len() && occurs(#[trigger] all[j], target_identifier);
    assert(scores[some].passes);
    let m = lemma_candidate_of(content, hint, scores, n, some);
    let i = lemma_target_is_the_best_block(content, hint, scores, threshold, res);
    assert forall|j: int| 0 <= j < n implies (#[trigger] scores[j]).block == exact
        && scores[j].passes == occurs(all[j], target_identifier) by {}
    if res is Some {
        let found = candidate_at(content, i, hint, exact);
        assert(scores[i].passes);
        assert forall|j: int|
            0 <= j < all.len() && occurs(#[trigger] all[j], target_identifier) implies candidate_at(
            content,
            j,
            hint,
            exact,
        ).score <= found.score && (j < i ==> candidate_at(content, j, hint, exact).score
            < found.score) by {
            assert(scores[j].passes);
        }
        assert(occurs(all[i], target_identifier));
    } else if threshold is Some {
        assert forall|j: int|
            0 <= j < all.len() && occurs(#[trigger] all[j], target_identifier) implies candidate_at(
            content,
            j,
            hint,
            exact,
        ).score < threshold->0 by {
            assert(scores[j].passes);
        }
    }
}

/// Where no line of the text holds the identifier, what is found is the block of a line that passes
/// by its own score, if that is not below the threshold. No line that passes has a block with a better
/// score, and none before it one as good.
pub proof fn law_identifier_is_found_by_the_scores_of_the_lines(
    content: Seq<char>,
    target_identifier: Seq<char>,
    hint: Option<Seq<char>>,
    exact: BlockScore,
    fuzzy: Seq<LineScore>,
    threshold: Option<u64>,
    res: Option<(usize, usize, String)>,
)
    requires
        finds_target(
            target_candidates(content, target_identifier, hint, exact, fuzzy),
            threshold,
            res,
        ),
        fuzzy.len() == lines_of(content).len(),
        forall|i: int|
            0 <= i < lines_of(content).len() ==> !occurs(
                #[trigger] lines_of(content)[i],
                target_identifier,
            ),
    ensures
        res matches Some((start, end, text)) ==> threshold is Some && exists|i: int|
            {
                let found = candidate_at(content, i, hint, (#[trigger] fuzzy[i]).block);
                &&& 0 <= i < fuzzy.len()
                &&& fuzzy[i].passes
                &&& found.score >= threshold->0
                &&& found.start == start
                &&& found.end == end
                &&& found.text == text@
                &&& forall|j: int|
                    0 <= j < fuzzy.len() && (#[trigger] fuzzy[j]).passes ==> candidate_at(
                        content,
                        j,
                        hint,
                        fuzzy[j].block,
                    ).score <= found.score && (j < i ==> candidate_at(
                        content,
                        j,
                        hint,
                        fuzzy[j].block,
                    ).score < found.score)
            },
        res is None && threshold is Some ==> forall|j: int|
            0 <= j < fuzzy.len() && (#[trigger] fuzzy[j]).passes ==> candidate_at(
                content,
                j,
                hint,
                fuzzy[j].block,
            ).score < threshold->0,
{
    let scores = exact_scores(content, target_identifier, exact);
    let n = lines_of(content).len() as int;
    if candidates(content, hint, scores, n).len() > 0 {
        let i = lemma_line_of_candidate(content, hint, scores, n, 0);
        assert(!occurs(lines_of(content)[i], target_identifier));
    }
    let i = lemma_target_is_the_best_block(content, hint, fuzzy, threshold, res);
    if res is Some {
        assert(fuzzy[i].passes);
    }
}

/// Every line has a similarity with the identifier, in the order of the lines: all of it where the
/// line has the same words, and none of it where the two share no word and one of them has one.
pub proof fn law_every_line_has_a_similarity(
    content: Seq<char>,
    target_identifier: Seq<char>,
    similarities: Seq<Similarity>,
    i: int,
)
    requires
        are_similarities(content, target_identifier, similarities),
        0 <= i < lines_of(content).len(),
    ensures
        ({
            let own = words_of(lines_of(content)[i]).to_set();
            let wanted = words_of(target_identifier).to_set();
            &&& similarities.len() == lines_of(content).len()
            &&& 0 < similarities[i].whole
            &&& similarities[i].part <= similarities[i].whole
            &&& similarities[i].part == similarities[i].whole <==> own == wanted
            &&& similarities[i].part == 0 <==> own.disjoint(wanted) && !(own.is_empty()
                && wanted.is_empty())
        }),
{
    let line = lines_of(content)[i];
    law_similarity(target_identifier, line);
    assert(similarities[i]@ == similarity_of(target_identifier, line));
    let (own, wanted) = (words_of(line).to_set(), words_of(target_identifier).to_set());
    assert(own.disjoint(wanted) <==> wanted.disjoint(own)) by {
        if own.disjoint(wanted) {
            assert forall|w: Seq<char>| wanted.contains(w) implies !own.contains(w) by {}
        }
        if wanted.disjoint(own) {
            assert forall|w: Seq<char>| own.contains(w) implies !wanted.contains(w) by {}
        }
    }
}

/// Behind the last line feed there is no line to start: a line past it starts at the end of the text.
pub proof fn law_lines_past_the_end_start_at_the_end(text: Seq<char>, n: int)
    requires
        n > text.filter(|c: char| c == '\n').len(),
    ensures
        line_start(text, n) == encode_utf8(text).len(),
{
    lemma_feeds_filtered(text);
    lemma_index_past_the_end(text, n);
    assert(text.take(text.len() as int) =~= text);
}

proof fn lemma_feeds_filtered(text: Seq<char>)
    ensures
        feeds_in(text) == text.filter(|c: char| c == '\n').len(),
    decreases text.len(),
{
    reveal(Seq::filter);
    if text.len() > 0 {
        lemma_feeds_filtered(text.drop_last());
    }
}

proof fn lemma_index_past_the_end(text: Seq<char>, n: int)
    requires
        n > feeds_in(text),
    ensures
        line_index(text, n) == text.len(),
    decreases text.len(),
{
    if exists|i: int| breaks_at(text, i) {
        let i = choose|i: int| breaks_at(text, i);
        let head = text.take(i + 1);
        let tail = text.skip(i + 1);
        assert(text =~= head + tail);
        lemma_feeds_concat(head, tail);
        assert(head.last() == '\n');
        lemma_index_past_the_end(tail, n - 1);
    }
}

}
