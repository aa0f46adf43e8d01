//! Reading bytes as text.

use vstd::prelude::*;
use vstd::utf8::{valid_utf8, partial_valid_utf8_extend_ascii_block};
use vstd::string::StringSliceAdditionalSpecFns;

verus! {

/// Calls `core::str::from_utf8`. Its documentation: it gives the string slice whose
/// bytes are `bytes` when they are valid UTF-8, and an error otherwise. The contract
/// states exactly that, with vstd's model of UTF-8.
#[verifier::external_body]
pub(crate) fn str_from_utf8<'a>(bytes: &'a [u8]) -> (r: Option<&'a str>)
    ensures
        r is Some <==> valid_utf8(bytes@),
        r matches Some(s) ==> s.spec_bytes() == bytes@,
{
    core::str::from_utf8(bytes).ok()
}

/// Bytes below 128 are ASCII, and ASCII is valid UTF-8.
pub proof fn lemma_ascii_valid_utf8(b: Seq<u8>)
    requires
        forall|i: int| 0 <= i < b.len() ==> b[i] < 128,
    ensures
        valid_utf8(b),
{
    assert(b.subrange(0, 0) =~= Seq::<u8>::empty());
    partial_valid_utf8_extend_ascii_block(b, 0, b.len() as int);
    assert(b.subrange(0, b.len() as int) =~= b);
}

/// Copies `src` into `buf` from position `at`; the rest of `buf` stays.
pub fn copy_at(buf: &mut [u8], at: usize, src: &[u8])
    requires
        at + src@.len() <= old(buf)@.len(),
    ensures
        final(buf)@.len() == old(buf)@.len(),
        final(buf)@.subrange(at as int, at + src@.len()) == src@,
        forall|k: int|
            0 <= k < old(buf)@.len() && !(at <= k < at + src@.len()) ==> #[trigger] final(buf)@[k]
                == old(buf)@[k],
{
    let ghost buf0 = buf@;
    let blen = buf.len();
    let mut i: usize = 0;
    while i < src.len()
        invariant
            0 <= i <= src@.len(),
            blen == buf0.len(),
            at + src@.len() <= buf0.len(),
            buf@.len() == buf0.len(),
            forall|k: int|
                0 <= k < buf0.len() ==> #[trigger] buf@[k] == if at <= k < at + i {
                    src@[k - at]
                } else {
                    buf0[k]
                },
        decreases src@.len() - i,
    {
        buf[at + i] = src[i];
        i += 1;
    }
    assert(buf@.subrange(at as int, at + src@.len()) =~= src@);
}

} // verus!
