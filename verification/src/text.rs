//! The three coordinates of a character of a text: its byte offset, its line
//! and its column, as functions of the character's index.
use crate::Position;
use vstd::prelude::*;
use vstd::std_specs::iter::IteratorSpec;
use vstd::string::StringSliceAdditionalSpecFns;
use vstd::utf8::{
    encode_scalar, encode_utf8, encode_utf8_decode_utf8, encode_utf8_first_scalar,
    encode_utf8_valid_utf8, is_char_boundary, pop_first_scalar,
};

verus! {

/// The number of bytes that `c` takes in UTF-8.
pub open spec fn utf8_width(c: char) -> int {
    if (c as u32) < 0x80 {
        1
    } else if (c as u32) < 0x800 {
        2
    } else if (c as u32) < 0x10000 {
        3
    } else {
        4
    }
}

/// The byte offset of the character at index `i`: the bytes that the
/// characters before it take. At `s.len()` it is the length in bytes.
pub open spec fn offset_at(s: Seq<char>, i: int) -> int
    decreases i,
{
    if i <= 0 {
        0
    } else if i > s.len() {
        offset_at(s, s.len() as int)
    } else {
        offset_at(s, i - 1) + utf8_width(s[i - 1])
    }
}

/// The line of the character at index `i`: one more than the number of line
/// feeds before it.
pub open spec fn line_at(s: Seq<char>, i: int) -> int
    decreases i,
{
    if i <= 0 {
        1
    } else if i > s.len() {
        line_at(s, s.len() as int)
    } else if s[i - 1] == '\n' {
        line_at(s, i - 1) + 1
    } else {
        line_at(s, i - 1)
    }
}

/// The column of the character at index `i`: one more than the number of
/// characters between the start of its line and it. A carriage return takes
/// no column.
pub open spec fn column_at(s: Seq<char>, i: int) -> int
    decreases i,
{
    if i <= 0 {
        1
    } else if i > s.len() {
        column_at(s, s.len() as int)
    } else if s[i - 1] == '\n' {
        1
    } else if s[i - 1] == '\r' {
        column_at(s, i - 1)
    } else {
        column_at(s, i - 1) + 1
    }
}

/// The position of the character at index `i`.
pub open spec fn position_at(s: Seq<char>, i: int) -> Position {
    Position {
        line: line_at(s, i) as usize,
        column: column_at(s, i) as usize,
        offset: offset_at(s, i) as usize,
    }
}

/// The position that ends a token whose last character is at index `i - 1`:
/// the line and column of that character, the offset of what follows it.
pub open spec fn end_position_at(s: Seq<char>, i: int) -> Position {
    Position {
        line: line_at(s, i - 1) as usize,
        column: column_at(s, i - 1) as usize,
        offset: offset_at(s, i) as usize,
    }
}

/// The position that starts a token at index `i`: that of the character
/// there, or, where the text ends at `i`, that of the end of the text.
pub open spec fn start_position_at(s: Seq<char>, i: int) -> Position {
    if i < s.len() {
        position_at(s, i)
    } else {
        end_position_at(s, i)
    }
}

/// Offsets, lines and columns never decrease along the text, and are bounded
/// by the index.
pub proof fn lemma_coordinates_bounded(s: Seq<char>, i: int)
    requires
        0 <= i <= s.len(),
    ensures
        i <= offset_at(s, i) <= 4 * i,
        1 <= line_at(s, i) <= i + 1,
        1 <= column_at(s, i) <= i + 1,
    decreases i,
{
    if i > 0 {
        lemma_coordinates_bounded(s, i - 1);
    }
}

/// A later character has a later offset.
pub proof fn lemma_offset_increases(s: Seq<char>, i: int, j: int)
    requires
        0 <= i <= j <= s.len(),
    ensures
        offset_at(s, i) + (j - i) <= offset_at(s, j),
    decreases j - i,
{
    if i < j {
        lemma_offset_increases(s, i, j - 1);
    }
}

/// A later character is on the same line or a later one.
pub proof fn lemma_line_increases(s: Seq<char>, i: int, j: int)
    requires
        0 <= i <= j <= s.len(),
    ensures
        line_at(s, i) <= line_at(s, j),
    decreases j - i,
{
    if i < j {
        lemma_line_increases(s, i, j - 1);
    }
}

/// On one line, a later character has the same column or a later one, and a
/// later one if the earlier character is no carriage return.
pub proof fn lemma_column_increases(s: Seq<char>, i: int, j: int)
    requires
        0 <= i <= j <= s.len(),
        line_at(s, i) == line_at(s, j),
    ensures
        column_at(s, i) <= column_at(s, j),
        i < j && s[i] != '\r' ==> column_at(s, i) < column_at(s, j),
    decreases j - i,
{
    if i < j {
        lemma_line_increases(s, i, j - 1);
        lemma_line_increases(s, j - 1, j);
        lemma_column_increases(s, i, j - 1);
    }
}

proof fn lemma_width_is_encoded_len(c: char)
    ensures
        encode_scalar(c as u32).len() == utf8_width(c),
{
}

proof fn lemma_encode_concat(a: Seq<char>, b: Seq<char>)
    ensures
        encode_utf8(a + b) =~= encode_utf8(a) + encode_utf8(b),
    decreases a.len(),
{
    if a.len() == 0 {
        assert(a + b =~= b);
    } else {
        assert((a + b).drop_first() =~= a.drop_first() + b);
        lemma_encode_concat(a.drop_first(), b);
    }
}

proof fn lemma_encoded_prefix_len(s: Seq<char>, i: int)
    requires
        0 <= i <= s.len(),
    ensures
        encode_utf8(s.take(i)).len() == offset_at(s, i),
    decreases i,
{
    if i > 0 {
        let c = s[i - 1];
        lemma_encoded_prefix_len(s, i - 1);
        assert(s.take(i) =~= s.take(i - 1) + seq![c]);
        lemma_encode_concat(s.take(i - 1), seq![c]);
        assert(seq![c].drop_first() =~= Seq::<char>::empty());
        assert(encode_utf8(seq![c]) =~= encode_scalar(c as u32)) by {
            reveal_with_fuel(encode_utf8, 2);
        }
        lemma_width_is_encoded_len(c);
    } else {
        assert(s.take(0) =~= Seq::<char>::empty());
    }
}

proof fn lemma_prefix_is_boundary(a: Seq<char>, b: Seq<char>)
    ensures
        is_char_boundary(encode_utf8(a + b), encode_utf8(a).len() as int),
    decreases a.len(),
{
    let bytes = encode_utf8(a + b);
    encode_utf8_valid_utf8(a + b);
    if a.len() > 0 {
        let rest = a.drop_first() + b;
        assert((a + b).drop_first() =~= rest);
        encode_utf8_first_scalar(a + b);
        assert(pop_first_scalar(bytes) =~= encode_utf8(rest));
        lemma_prefix_is_boundary(a.drop_first(), b);
        lemma_encode_concat(a, b);
        lemma_width_is_encoded_len(a[0]);
        assert(encode_utf8(a).len() == encode_scalar(a[0] as u32).len() + encode_utf8(
            a.drop_first(),
        ).len());
    }
}

/// The characters of `text`, one by one.
pub fn chars_of(text: &str) -> (v: Vec<char>)
    ensures
        v@ == text@,
{
    broadcast use vstd::string::group_string_axioms;

    let mut v: Vec<char> = Vec::new();
    let mut it = text.chars();
    loop
        invariant
            v@ + it.remaining() == text@,
            it.obeys_prophetic_iter_laws(),
            it.decrease() is Some,
        ensures
            v@ == text@,
        decreases it.decrease()->0,
    {
        match it.next() {
            Some(c) => {
                v.push(c);
            },
            None => {
                assert(v@ =~= text@);
                break ;
            },
        }
    }
    v
}

/// The length of `text` in bytes, which is the offset of its end.
pub fn byte_len(text: &str) -> (n: usize)
    ensures
        n == offset_at(text@, text@.len() as int),
{
    proof {
        lemma_encoded_prefix_len(text@, text@.len() as int);
        assert(text@.take(text@.len() as int) =~= text@);
    }
    text.as_bytes().len()
}

/// The part of `text` between two byte offsets that are those of the
/// characters at `i` and `j`.
pub(crate) fn slice<'a>(text: &'a str, from: usize, to: usize, Ghost(i): Ghost<int>, Ghost(j): Ghost<int>) -> (r:
    &'a str)
    requires
        0 <= i <= j <= text@.len(),
        from == offset_at(text@, i),
        to == offset_at(text@, j),
    ensures
        r@ == text@.subrange(i, j),
{
    let ghost s = text@;
    proof {
        assert(s.take(j) + s.skip(j) =~= s);
        lemma_prefix_is_boundary(s.take(j), s.skip(j));
        lemma_encoded_prefix_len(s, j);
        lemma_encode_concat(s.take(j), s.skip(j));
    }
    let (head, _) = text.split_at(to);
    proof {
        assert(head.spec_bytes() =~= encode_utf8(s.take(j)));
        encode_utf8_decode_utf8(head@);
        encode_utf8_decode_utf8(s.take(j));
        assert(head@ == s.take(j));
        let h = head@;
        assert(h.take(i) + h.skip(i) =~= h);
        lemma_prefix_is_boundary(h.take(i), h.skip(i));
        lemma_encoded_prefix_len(h, i);
        lemma_encode_concat(h.take(i), h.skip(i));
        assert(h.take(i) =~= s.take(i));
        lemma_encoded_prefix_len(s, i);
    }
    let (_, tail) = head.split_at(from);
    proof {
        let h = head@;
        assert(tail.spec_bytes() =~= encode_utf8(h.skip(i)));
        encode_utf8_decode_utf8(tail@);
        encode_utf8_decode_utf8(h.skip(i));
        assert(h.skip(i) =~= s.subrange(i, j));
    }
    tail
}

} // verus!
