//! 32-bit words in either byte order, and the byte order of the running
//! machine.

use vstd::prelude::*;

use vstd::bytes::{
    lemma_auto_spec_u32_to_from_le_bytes, spec_u32_from_le_bytes, spec_u32_to_le_bytes,
    u32_from_le_bytes, u32_to_le_bytes,
};
use vstd::slice::slice_subrange;

verus! {

/// The four bytes of `x` in memory order: least significant first when
/// `little`, most significant first otherwise.
pub open spec fn word_bytes(x: u32, little: bool) -> Seq<u8> {
    let le = spec_u32_to_le_bytes(x);
    if little {
        le
    } else {
        seq![le[3], le[2], le[1], le[0]]
    }
}

/// The word whose four bytes start at `off` in `b`, read in the given order.
pub open spec fn word_at(b: Seq<u8>, off: int, little: bool) -> u32 {
    if little {
        spec_u32_from_le_bytes(b.subrange(off, off + 4))
    } else {
        spec_u32_from_le_bytes(seq![b[off + 3], b[off + 2], b[off + 1], b[off]])
    }
}

/// A word written in one order reads back as itself in the same order.
pub proof fn lemma_word_roundtrip(b: Seq<u8>, off: int, x: u32, little: bool)
    requires
        0 <= off,
        off + 4 <= b.len(),
        b.subrange(off, off + 4) == word_bytes(x, little),
    ensures
        word_bytes(x, little).len() == 4,
        word_at(b, off, little) == x,
{
    lemma_auto_spec_u32_to_from_le_bytes();
    let le = spec_u32_to_le_bytes(x);
    if !little {
        assert(b.subrange(off, off + 4)[0] == b[off]);
        assert(b.subrange(off, off + 4)[1] == b[off + 1]);
        assert(b.subrange(off, off + 4)[2] == b[off + 2]);
        assert(b.subrange(off, off + 4)[3] == b[off + 3]);
        assert(seq![b[off + 3], b[off + 2], b[off + 1], b[off]] =~= le);
    }
}

/// Every word takes four bytes.
pub proof fn lemma_word_bytes_len(x: u32, little: bool)
    ensures
        word_bytes(x, little).len() == 4,
{
    lemma_auto_spec_u32_to_from_le_bytes();
}

/// The bytes of `x` in the given order.
pub fn word_to_bytes(x: u32, little: bool) -> (r: Vec<u8>)
    ensures
        r@ == word_bytes(x, little),
{
    proof {
        lemma_auto_spec_u32_to_from_le_bytes();
    }
    let le = u32_to_le_bytes(x);
    if little {
        le
    } else {
        let mut r: Vec<u8> = Vec::new();
        r.push(le[3]);
        r.push(le[2]);
        r.push(le[1]);
        r.push(le[0]);
        assert(r@ =~= word_bytes(x, little));
        r
    }
}

/// The word stored at `off` in the given order.
pub fn read_word(bytes: &[u8], off: usize, little: bool) -> (r: u32)
    requires
        off + 4 <= bytes@.len(),
    ensures
        r == word_at(bytes@, off as int, little),
{
    let _n = bytes.len();
    if little {
        u32_from_le_bytes(slice_subrange(bytes, off, off + 4))
    } else {
        let mut w: Vec<u8> = Vec::new();
        w.push(bytes[off + 3]);
        w.push(bytes[off + 2]);
        w.push(bytes[off + 1]);
        w.push(bytes[off]);
        assert(w@ =~= seq![bytes@[off + 3], bytes@[off + 2], bytes@[off + 1], bytes@[off as int]]);
        u32_from_le_bytes(w.as_slice())
    }
}

/// Calls `u32::from_ne_bytes([1, 0, 0, 0])`, which reads the bytes in the
/// machine's own order: 1 on a little-endian machine, `0x0100_0000` on a
/// big-endian one. Which of the two depends on the machine.
#[verifier::external_body]
fn native_probe() -> (r: u32)
    ensures
        r == 1 || r == 0x0100_0000,
{
    u32::from_ne_bytes([1, 0, 0, 0])
}

/// Whether the running machine stores words least significant byte first.
pub(crate) fn native_is_little_endian() -> bool {
    native_probe() == 1
}

} // verus!
