//! The byte-offset view of character positions. Texts are modelled as
//! sequences of characters, but the ranges that `Delimiter::find_next`
//! reports are byte offsets into the UTF-8 encoding of the text; this
//! module relates the two: the byte offset of character position `k` is
//! the encoded length of the first `k` characters.
use vstd::prelude::*;

verus! {

use vstd::utf8::{char_is_scalar, encode_scalar, encode_utf8};

/// The number of bytes in the UTF-8 encoding of `text`.
pub open spec fn byte_len(text: Seq<char>) -> nat {
    encode_utf8(text).len()
}

/// The number of bytes in the UTF-8 encoding of the character `c`.
pub open spec fn char_width(c: char) -> nat {
    encode_scalar(c as u32).len()
}

/// Encoding a concatenation encodes the parts one after the other.
pub proof fn lemma_encode_utf8_concat(a: Seq<char>, b: Seq<char>)
    ensures
        encode_utf8(a + b) == encode_utf8(a) + encode_utf8(b),
    decreases a.len(),
{
    if a.len() == 0 {
        assert(a + b =~= b);
        assert(encode_utf8(a) + encode_utf8(b) =~= encode_utf8(b));
    } else {
        assert((a + b).drop_first() =~= a.drop_first() + b);
        lemma_encode_utf8_concat(a.drop_first(), b);
        assert(encode_scalar(a[0] as u32) + (encode_utf8(a.drop_first()) + encode_utf8(b)) =~= (
        encode_scalar(a[0] as u32) + encode_utf8(a.drop_first())) + encode_utf8(b));
    }
}

/// A one-character text encodes into exactly that character's bytes.
pub proof fn lemma_byte_len_single(c: char)
    ensures
        byte_len(seq![c]) == char_width(c),
{
    assert(seq![c].drop_first() =~= Seq::<char>::empty());
    assert(encode_scalar(c as u32) + encode_utf8(Seq::<char>::empty()) =~= encode_scalar(
        c as u32,
    ));
}

/// Taking one more character into the prefix adds that character's width.
pub proof fn lemma_byte_len_prefix_extend(text: Seq<char>, j: int)
    requires
        0 <= j < text.len(),
    ensures
        byte_len(text.subrange(0, j + 1)) == byte_len(text.subrange(0, j)) + char_width(text[j]),
{
    assert(text.subrange(0, j + 1) =~= text.subrange(0, j) + seq![text[j]]);
    lemma_encode_utf8_concat(text.subrange(0, j), seq![text[j]]);
    lemma_byte_len_single(text[j]);
}

/// A prefix encodes into no more bytes than the whole text.
pub proof fn lemma_byte_len_prefix_bound(text: Seq<char>, j: int)
    requires
        0 <= j <= text.len(),
    ensures
        byte_len(text.subrange(0, j)) <= byte_len(text),
{
    assert(text =~= text.subrange(0, j) + text.subrange(j, text.len() as int));
    lemma_encode_utf8_concat(text.subrange(0, j), text.subrange(j, text.len() as int));
}

/// The number of bytes in the UTF-8 encoding of `c`, from its code point.
fn utf8_width(c: char) -> (w: usize)
    ensures
        w == char_width(c),
{
    proof {
        char_is_scalar(c);
    }
    let v: u32 = c as u32;
    if v <= 0x7F {
        1
    } else if v <= 0x7FF {
        2
    } else if v <= 0xFFFF {
        3
    } else {
        4
    }
}

/// The byte offset of character position `k` in `slice`: the number of
/// bytes that encode the first `k` characters.
pub fn byte_offset_of(slice: &str, k: usize) -> (r: usize)
    requires
        k <= slice@.len(),
    ensures
        r == byte_len(slice@.subrange(0, k as int)),
{
    let all_bytes: &[u8] = slice.as_bytes();
    let total: usize = all_bytes.len();
    let mut acc: usize = 0;
    let mut j: usize = 0;
    proof {
        assert(slice@.subrange(0, 0) =~= Seq::<char>::empty());
    }
    while j < k
        invariant
            j <= k <= slice@.len(),
            acc == byte_len(slice@.subrange(0, j as int)),
            total == byte_len(slice@),
        decreases k - j,
    {
        let c: char = slice.get_char(j);
        let w: usize = utf8_width(c);
        proof {
            lemma_byte_len_prefix_extend(slice@, j as int);
            lemma_byte_len_prefix_bound(slice@, j + 1);
        }
        acc = acc + w;
        j = j + 1;
    }
    acc
}

} // verus!
