//! Small slice and buffer helpers shared by the codec and the controller.

use vstd::prelude::*;
use vstd::slice::slice_subrange;
use vstd::utf8::{decode_utf8, encode_utf8, valid_utf8};
use crate::model::ServerError;

verus! {

/// A sequence of bytes below 128 is valid UTF-8 and decodes byte for byte.
pub proof fn lemma_ascii_bytes(b: Seq<u8>)
    requires
        forall|i: int| 0 <= i < b.len() ==> b[i] < 128,
    ensures
        valid_utf8(b),
        decode_utf8(b) == b.map_values(|x: u8| x as char),
        encode_utf8(b.map_values(|x: u8| x as char)) == b,
{
    let chars = b.map_values(|x: u8| x as char);
    assert forall|i: int| 0 <= i < chars.len() implies '\0' <= #[trigger] chars[i]
        <= '\u{7f}' by {
        assert(chars[i] == b[i] as char);
        assert(b[i] < 128);
    }
    assert(vstd::utf8::is_ascii_chars(chars));
    vstd::utf8::is_ascii_chars_encode_utf8(chars);
    assert forall|i: int| 0 <= i < chars.len() implies #[trigger] encode_utf8(chars)[i]
        == b[i] by {
        assert(chars[i] as u8 == encode_utf8(chars)[i]);
        assert((b[i] as char) as u8 == b[i]);
    }
    assert(encode_utf8(chars) =~= b);
    vstd::utf8::encode_utf8_valid_utf8(chars);
    vstd::utf8::encode_utf8_decode_utf8(chars);
}

/// A bounds-checked subslice: the requested window when it lies inside the
/// buffer, an error otherwise.
pub fn check_slice<A>(buf: &[A], start: usize, end: usize) -> (r: Result<&[A], ServerError>)
    requires
        start <= end,
    ensures
        match r {
            Ok(s) => end <= buf@.len() && s@ == buf@.subrange(start as int, end as int),
            Err(e) => (start > buf@.len() || end > buf@.len()) && e == ServerError::OutOfBounds,
        },
{
    if start > buf.len() || end > buf.len() {
        Err(ServerError::OutOfBounds)
    } else {
        Ok(slice_subrange(buf, start, end))
    }
}

/// Appends every byte of `src` to `dst`.
pub fn push_all(dst: &mut Vec<u8>, src: &[u8])
    ensures
        final(dst)@ == old(dst)@ + src@,
{
    let mut i: usize = 0;
    while i < src.len()
        invariant
            0 <= i <= src@.len(),
            dst@ == old(dst)@ + src@.take(i as int),
        decreases src@.len() - i,
    {
        dst.push(src[i]);
        proof {
            assert(old(dst)@ + src@.take(i + 1) =~= (old(dst)@ + src@.take(i as int)).push(
                src@[i as int],
            ));
        }
        i = i + 1;
    }
    proof {
        assert(old(dst)@ + src@.take(src@.len() as int) =~= old(dst)@ + src@);
    }
}

} // verus!
