//! The numbers that the bytes of a field spell in either byte order.

use crate::modules::io::Endianness;
use vstd::prelude::*;

verus! {

/// The number that `bytes` spell with the least significant byte first.
pub open spec fn le_value(bytes: Seq<u8>) -> nat
    decreases bytes.len(),
{
    if bytes.len() == 0 {
        0
    } else {
        bytes[0] as nat + 256 * le_value(bytes.drop_first())
    }
}

/// The number that `bytes` spell with the most significant byte first.
pub open spec fn be_value(bytes: Seq<u8>) -> nat
    decreases bytes.len(),
{
    if bytes.len() == 0 {
        0
    } else {
        256 * be_value(bytes.drop_last()) + bytes.last() as nat
    }
}

/// The unsigned number that `bytes` spell in byte order `e`.
pub open spec fn unsigned_value(e: Endianness, bytes: Seq<u8>) -> nat {
    match e {
        Endianness::Little => le_value(bytes),
        Endianness::Big => be_value(bytes),
    }
}

/// The two's complement reading of an unsigned number of `bits` bits, for
/// the widths 16, 32 and 64.
pub open spec fn twos_complement(v: nat, bits: nat) -> int {
    if bits == 16 {
        if v >= 0x8000 { v - 0x1_0000 } else { v as int }
    } else if bits == 32 {
        if v >= 0x8000_0000 { v - 0x1_0000_0000 } else { v as int }
    } else {
        if v >= 0x8000_0000_0000_0000 { v - 0x1_0000_0000_0000_0000 } else { v as int }
    }
}

/// The `width` bytes of `buf` that start at `off`, where the buffer holds
/// that many.
pub open spec fn field_at(buf: Seq<u8>, off: int, width: int) -> Option<Seq<u8>> {
    if 0 <= off && off + width <= buf.len() {
        Some(buf.subrange(off, off + width))
    } else {
        None
    }
}

/// `256^n`.
pub open spec fn weight(n: nat) -> nat
    decreases n,
{
    if n == 0 {
        1
    } else {
        256 * weight((n - 1) as nat)
    }
}

/// The value of a field of two bytes.
pub proof fn lemma_value_2(s: Seq<u8>)
    requires
        s.len() == 2,
    ensures
        le_value(s) == s[0] + 256 * s[1],
        be_value(s) == 256 * s[0] + s[1],
{
    reveal_with_fuel(le_value, 3);
    reveal_with_fuel(be_value, 3);
    assert(s.drop_first()[0] == s[1]);
    assert(s.drop_last().last() == s[0]);
}

/// The value of a field of four bytes.
pub proof fn lemma_value_4(s: Seq<u8>)
    requires
        s.len() == 4,
    ensures
        le_value(s) == s[0] + 0x100 * s[1] + 0x1_0000 * s[2] + 0x100_0000 * s[3],
        be_value(s) == 0x100_0000 * s[0] + 0x1_0000 * s[1] + 0x100 * s[2] + s[3],
{
    lemma_value_2(s.drop_first().drop_first());
    lemma_value_2(s.drop_last().drop_last());
    reveal_with_fuel(le_value, 3);
    reveal_with_fuel(be_value, 3);
    assert(s.drop_first()[0] == s[1]);
    assert(s.drop_first().drop_first()[0] == s[2]);
    assert(s.drop_first().drop_first()[1] == s[3]);
    assert(s.drop_last().last() == s[2]);
    assert(s.drop_last().drop_last()[0] == s[0]);
    assert(s.drop_last().drop_last()[1] == s[1]);
}

/// The value of a field of eight bytes.
pub proof fn lemma_value_8(s: Seq<u8>)
    requires
        s.len() == 8,
    ensures
        le_value(s) == s[0] + 0x100 * s[1] + 0x1_0000 * s[2] + 0x100_0000 * s[3] + 0x1_0000_0000
            * s[4] + 0x100_0000_0000 * s[5] + 0x1_0000_0000_0000 * s[6] + 0x100_0000_0000_0000
            * s[7],
        be_value(s) == 0x100_0000_0000_0000 * s[0] + 0x1_0000_0000_0000 * s[1] + 0x100_0000_0000
            * s[2] + 0x1_0000_0000 * s[3] + 0x100_0000 * s[4] + 0x1_0000 * s[5] + 0x100 * s[6]
            + s[7],
{
    let lo = s.subrange(0, 4);
    let hi = s.subrange(4, 8);
    lemma_value_4(lo);
    lemma_value_4(hi);
    lemma_le_value_concat(lo, hi);
    lemma_be_value_concat(lo, hi);
    assert(s =~= lo + hi);
    reveal_with_fuel(weight, 5);
    let w = weight(4);
    assert(w == 0x1_0000_0000);
    let ll = le_value(lo);
    let lh = le_value(hi);
    let bl = be_value(lo);
    let bh = be_value(hi);
    assert(w * lh == 0x1_0000_0000 * lh) by (nonlinear_arith)
        requires
            w == 0x1_0000_0000,
    ;
    assert(w * bl == 0x1_0000_0000 * bl) by (nonlinear_arith)
        requires
            w == 0x1_0000_0000,
    ;
    assert(le_value(s) == ll + 0x1_0000_0000 * lh);
    assert(be_value(s) == 0x1_0000_0000 * bl + bh);
    assert(lo[0] == s[0] && lo[1] == s[1] && lo[2] == s[2] && lo[3] == s[3]);
    assert(hi[0] == s[4] && hi[1] == s[5] && hi[2] == s[6] && hi[3] == s[7]);
    assert(ll == s[0] + 0x100 * s[1] + 0x1_0000 * s[2] + 0x100_0000 * s[3]);
    assert(lh == s[4] + 0x100 * s[5] + 0x1_0000 * s[6] + 0x100_0000 * s[7]);
    assert(bl == 0x100_0000 * s[0] + 0x1_0000 * s[1] + 0x100 * s[2] + s[3]);
    assert(bh == 0x100_0000 * s[4] + 0x1_0000 * s[5] + 0x100 * s[6] + s[7]);
}

/// Little-endian: the bytes that follow count for `256^len` times their own
/// value.
pub proof fn lemma_le_value_concat(a: Seq<u8>, b: Seq<u8>)
    ensures
        le_value(a + b) == le_value(a) + weight(a.len()) * le_value(b),
    decreases a.len(),
{
    let v = le_value(b);
    if a.len() == 0 {
        assert(a + b =~= b);
        let w0 = weight(a.len());
        assert(w0 * v == v) by (nonlinear_arith)
            requires
                w0 == 1,
        ;
    } else {
        assert((a + b).drop_first() =~= a.drop_first() + b);
        assert((a + b)[0] == a[0]);
        lemma_le_value_concat(a.drop_first(), b);
        let w = weight((a.len() - 1) as nat);
        let w1 = weight(a.len());
        assert(256 * (w * v) == w1 * v) by (nonlinear_arith)
            requires
                w1 == 256 * w,
        ;
    }
}

/// Big-endian: the bytes that come first count for `256^len` times their own
/// value, `len` being the number of bytes that follow.
pub proof fn lemma_be_value_concat(a: Seq<u8>, b: Seq<u8>)
    ensures
        be_value(a + b) == weight(b.len()) * be_value(a) + be_value(b),
    decreases b.len(),
{
    let v = be_value(a);
    if b.len() == 0 {
        assert(a + b =~= a);
        let w0 = weight(b.len());
        assert(w0 * v == v) by (nonlinear_arith)
            requires
                w0 == 1,
        ;
    } else {
        assert((a + b).drop_last() =~= a + b.drop_last());
        assert((a + b).last() == b.last());
        lemma_be_value_concat(a, b.drop_last());
        let w = weight((b.len() - 1) as nat);
        let w1 = weight(b.len());
        assert(256 * (w * v) == w1 * v) by (nonlinear_arith)
            requires
                w1 == 256 * w,
        ;
    }
}

/// Big-endian order is little-endian order on the bytes in reverse: a field
/// read in big-endian order has the value that the field with its bytes
/// swapped has in little-endian order.
pub proof fn lemma_big_endian_is_swapped_little_endian(bytes: Seq<u8>)
    ensures
        be_value(bytes) == le_value(bytes.reverse()),
    decreases bytes.len(),
{
    if bytes.len() > 0 {
        let r = bytes.reverse();
        assert(r[0] == bytes.last());
        assert(r.drop_first() =~= bytes.drop_last().reverse());
        lemma_big_endian_is_swapped_little_endian(bytes.drop_last());
    }
}

} // verus!
