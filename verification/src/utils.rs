//! Cursor positions in UTF-8 text: the byte offset at which the nth
//! character of a string begins.

use vstd::prelude::*;
use vstd::string::*;
use vstd::utf8::{char_is_scalar, encode_scalar, encode_utf8};

verus! {

/// Encoding a concatenation encodes each part in turn.
proof fn lemma_encode_utf8_concat(a: Seq<char>, b: Seq<char>)
    ensures
        encode_utf8(a + b) == encode_utf8(a) + encode_utf8(b),
    decreases a.len(),
{
    if a.len() == 0 {
        assert(a + b =~= b);
        assert(encode_utf8(a) =~= Seq::<u8>::empty());
        assert(encode_utf8(a) + encode_utf8(b) =~= encode_utf8(b));
    } else {
        assert((a + b)[0] == a[0]);
        assert((a + b).drop_first() =~= a.drop_first() + b);
        lemma_encode_utf8_concat(a.drop_first(), b);
        assert(encode_utf8(a + b) =~= encode_utf8(a) + encode_utf8(b));
    }
}

/// How many bytes one character takes in UTF-8.
fn char_utf8_len(c: char) -> (n: usize)
    ensures
        n == encode_scalar(c as u32).len(),
        1 <= n <= 4,
{
    proof {
        char_is_scalar(c);
    }
    let v = c as u32;
    if v <= 0x7F {
        1
    } else if v <= 0x7FF {
        2
    } else if v <= 0xFFFF {
        3
    } else {
        4
    }
}

/// The byte offset at which character `idx` of `text` begins: the length
/// of the UTF-8 encoding of the characters before it.
pub fn nth_char_idx(text: &str, idx: usize) -> (r: usize)
    requires
        idx < text@.len(),
        text@.len() < usize::MAX as int / 4,
    ensures
        r == encode_utf8(text@.take(idx as int)).len(),
{
    let mut r: usize = 0;
    let mut i: usize = 0;
    proof {
        assert(text@.take(0) =~= Seq::<char>::empty());
        assert(encode_utf8(text@.take(0)) =~= Seq::<u8>::empty());
    }
    while i < idx
        invariant
            idx < text@.len(),
            text@.len() < usize::MAX as int / 4,
            i <= idx,
            r == encode_utf8(text@.take(i as int)).len(),
            r <= 4 * i,
        decreases idx - i,
    {
        let c = text.get_char(i);
        proof {
            assert(text@.take(i + 1) =~= text@.take(i as int) + seq![text@[i as int]]);
            lemma_encode_utf8_concat(text@.take(i as int), seq![text@[i as int]]);
            assert(seq![text@[i as int]].drop_first() =~= Seq::<char>::empty());
            assert(encode_utf8(Seq::<char>::empty()) =~= Seq::<u8>::empty());
            assert(encode_utf8(seq![text@[i as int]]) == encode_scalar(
                seq![text@[i as int]][0] as u32,
            ) + encode_utf8(seq![text@[i as int]].drop_first()));
            assert(encode_utf8(seq![text@[i as int]]) =~= encode_scalar(text@[i as int] as u32));
        }
        r = r + char_utf8_len(c);
        i += 1;
    }
    r
}

} // verus!
