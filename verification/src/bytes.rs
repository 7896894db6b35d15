//! Big-endian 32-bit words as byte sequences: the primitive the dataset
//! decoder and the checkpoint codec share.

use vstd::prelude::*;

verus! {

/// The value of four bytes read as one big-endian 32-bit word.
pub open spec fn be_val(b0: u8, b1: u8, b2: u8, b3: u8) -> int {
    b0 * 0x1000000 + b1 * 0x10000 + b2 * 0x100 + b3
}

/// The four big-endian bytes of a value in [0, 2^32).
pub open spec fn be4(x: int) -> Seq<u8> {
    seq![
        (x / 0x1000000) as u8,
        ((x / 0x10000) % 0x100) as u8,
        ((x / 0x100) % 0x100) as u8,
        (x % 0x100) as u8,
    ]
}

/// Writing a value and reading it back yields the value: the bytes of `be4`
/// carry exactly the word they were made from.
pub proof fn lemma_val_of_be4(x: int)
    requires
        0 <= x < 0x100000000,
    ensures
        be4(x).len() == 4,
        be_val(be4(x)[0], be4(x)[1], be4(x)[2], be4(x)[3]) == x,
{
    assert(be4(x)[0] == (x / 0x1000000) as u8);
    assert(0 <= x / 0x1000000 < 0x100) by (nonlinear_arith)
        requires 0 <= x < 0x100000000;
    assert(0x1000000 * (x / 0x1000000) + x % 0x1000000 == x) by (nonlinear_arith);
    assert(0x10000 * ((x / 0x10000) % 0x100) + x % 0x10000 == x % 0x1000000) by (nonlinear_arith);
    assert(0x100 * ((x / 0x100) % 0x100) + x % 0x100 == x % 0x10000) by (nonlinear_arith);
}

/// Reading four bytes and writing the value back yields the same bytes.
pub proof fn lemma_be4_of_val(b0: u8, b1: u8, b2: u8, b3: u8)
    ensures
        be4(be_val(b0, b1, b2, b3)) =~= seq![b0, b1, b2, b3],
{
    let v = be_val(b0, b1, b2, b3);
    assert(v / 0x1000000 == b0) by (nonlinear_arith)
        requires v == b0 * 0x1000000 + b1 * 0x10000 + b2 * 0x100 + b3;
    assert((v / 0x10000) % 0x100 == b1) by (nonlinear_arith)
        requires v == b0 * 0x1000000 + b1 * 0x10000 + b2 * 0x100 + b3;
    assert((v / 0x100) % 0x100 == b2) by (nonlinear_arith)
        requires v == b0 * 0x1000000 + b1 * 0x10000 + b2 * 0x100 + b3;
    assert(v % 0x100 == b3) by (nonlinear_arith)
        requires v == b0 * 0x1000000 + b1 * 0x10000 + b2 * 0x100 + b3;
}

/// Values with the same big-endian bytes are the same value.
pub proof fn lemma_be4_injective(x: int, y: int)
    requires
        0 <= x < 0x100000000,
        0 <= y < 0x100000000,
        be4(x) == be4(y),
    ensures
        x == y,
{
    lemma_val_of_be4(x);
    lemma_val_of_be4(y);
}

/// Reads the big-endian 32-bit word at `off`.
pub fn read_be_u32(bytes: &[u8], off: usize) -> (r: u32)
    requires
        off + 4 <= bytes@.len(),
    ensures
        r == be_val(bytes@[off as int], bytes@[off + 1], bytes@[off + 2], bytes@[off + 3]),
{
    let b0 = bytes[off];
    let b1 = bytes[off + 1];
    let b2 = bytes[off + 2];
    let b3 = bytes[off + 3];
    (b0 as u32) * 0x1000000 + (b1 as u32) * 0x10000 + (b2 as u32) * 0x100 + (b3 as u32)
}

/// Appends the four big-endian bytes of `x` to `out`.
pub fn push_be_u32(out: &mut Vec<u8>, x: u32)
    ensures
        final(out)@ =~= old(out)@ + be4(x as int),
{
    out.push((x / 0x1000000) as u8);
    out.push(((x / 0x10000) % 0x100) as u8);
    out.push(((x / 0x100) % 0x100) as u8);
    out.push((x % 0x100) as u8);
}

} // verus!
