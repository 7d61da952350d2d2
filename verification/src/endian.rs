//! Unsigned numbers as fixed-width byte strings, in either byte order.

use vstd::prelude::*;

verus! {

/// 256 to the power `width`.
pub open spec fn pow256(width: nat) -> nat
    decreases width,
{
    if width == 0 {
        1
    } else {
        256 * pow256((width - 1) as nat)
    }
}

/// The `width` bytes of `n`, least significant first.
pub open spec fn le_bytes(n: nat, width: nat) -> Seq<u8>
    decreases width,
{
    if width == 0 {
        Seq::empty()
    } else {
        seq![(n % 256) as u8] + le_bytes(n / 256, (width - 1) as nat)
    }
}

/// The number that `b` spells, least significant byte first.
pub open spec fn le_value(b: Seq<u8>) -> nat
    decreases b.len(),
{
    if b.len() == 0 {
        0
    } else {
        b[0] as nat + 256 * le_value(b.drop_first())
    }
}

/// The `width` bytes of `n`, most significant first.
pub open spec fn be_bytes(n: nat, width: nat) -> Seq<u8>
    decreases width,
{
    if width == 0 {
        Seq::empty()
    } else {
        be_bytes(n / 256, (width - 1) as nat).push((n % 256) as u8)
    }
}

/// The number that `b` spells, most significant byte first.
pub open spec fn be_value(b: Seq<u8>) -> nat
    decreases b.len(),
{
    if b.len() == 0 {
        0
    } else {
        256 * be_value(b.drop_last()) + b.last() as nat
    }
}

/// The powers of 256 that the widths in use call for.
pub proof fn lemma_pow256_values()
    ensures
        pow256(0) == 1,
        pow256(1) == 0x100,
        pow256(2) == 0x1_0000,
        pow256(3) == 0x100_0000,
        pow256(4) == 0x1_0000_0000,
        pow256(8) == 0x1_0000_0000_0000_0000,
{
    reveal_with_fuel(pow256, 9);
}

/// Little-endian bytes have the width asked for and spell the number they
/// were made from, as far as the width holds it.
pub proof fn lemma_le_roundtrip(n: nat, width: nat)
    ensures
        le_bytes(n, width).len() == width,
        le_value(le_bytes(n, width)) == n % pow256(width),
        n < pow256(width) ==> le_value(le_bytes(n, width)) == n,
    decreases width,
{
    if width > 0 {
        let rest = le_bytes(n / 256, (width - 1) as nat);
        lemma_le_roundtrip(n / 256, (width - 1) as nat);
        let b = le_bytes(n, width);
        assert(b.drop_first() =~= rest);
        let p = pow256((width - 1) as nat);
        lemma_pow256_positive((width - 1) as nat);
        assert(n % 256 + 256 * ((n / 256) % p) == n % (256 * p)) by (nonlinear_arith)
            requires
                p > 0,
        ;
    }
    lemma_pow256_positive(width);
    if n < pow256(width) {
        assert(n % pow256(width) == n) by (nonlinear_arith)
            requires
                n < pow256(width),
        ;
    }
}

/// No power of 256 is zero.
pub proof fn lemma_pow256_positive(width: nat)
    ensures
        pow256(width) > 0,
    decreases width,
{
    if width > 0 {
        lemma_pow256_positive((width - 1) as nat);
    }
}

/// Big-endian bytes have the width asked for and spell the number they were
/// made from, as far as the width holds it.
pub proof fn lemma_be_roundtrip(n: nat, width: nat)
    ensures
        be_bytes(n, width).len() == width,
        be_value(be_bytes(n, width)) == n % pow256(width),
        n < pow256(width) ==> be_value(be_bytes(n, width)) == n,
    decreases width,
{
    if width > 0 {
        let rest = be_bytes(n / 256, (width - 1) as nat);
        lemma_be_roundtrip(n / 256, (width - 1) as nat);
        let b = be_bytes(n, width);
        assert(b.drop_last() =~= rest);
        let p = pow256((width - 1) as nat);
        lemma_pow256_positive((width - 1) as nat);
        assert(n % 256 + 256 * ((n / 256) % p) == n % (256 * p)) by (nonlinear_arith)
            requires
                p > 0,
        ;
    }
    lemma_pow256_positive(width);
    if n < pow256(width) {
        assert(n % pow256(width) == n) by (nonlinear_arith)
            requires
                n < pow256(width),
        ;
    }
}

/// Appends the four bytes of `n`, most significant first.
pub fn push_be_u32(out: &mut Vec<u8>, n: u32)
    ensures
        final(out)@ == old(out)@ + be_bytes(n as nat, 4),
{
    let b0: u8 = (n / 0x100_0000) as u8;
    let b1: u8 = ((n / 0x1_0000) % 0x100) as u8;
    let b2: u8 = ((n / 0x100) % 0x100) as u8;
    let b3: u8 = (n % 0x100) as u8;
    out.push(b0);
    out.push(b1);
    out.push(b2);
    out.push(b3);
    proof {
        reveal_with_fuel(be_bytes, 5);
        let m = n as nat;
        assert(be_bytes(m, 4) =~= seq![b0, b1, b2, b3]) by {
            assert(m / 256 / 256 / 256 == m / 0x100_0000);
            assert(m / 256 / 256 == m / 0x1_0000);
        }
        assert(out@ =~= old(out)@ + seq![b0, b1, b2, b3]);
    }
}

/// Reads the number that the four bytes from `pos` on spell, most
/// significant first.
pub fn read_be_u32(bytes: &[u8], pos: usize) -> (n: u32)
    requires
        pos + 4 <= bytes@.len(),
    ensures
        n == be_value(bytes@.subrange(pos as int, pos + 4)),
{
    let b0: u32 = bytes[pos] as u32;
    let b1: u32 = bytes[pos + 1] as u32;
    let b2: u32 = bytes[pos + 2] as u32;
    let b3: u32 = bytes[pos + 3] as u32;
    proof {
        let s = bytes@.subrange(pos as int, pos + 4);
        reveal_with_fuel(be_value, 5);
        let s3 = s.drop_last();
        let s2 = s3.drop_last();
        let s1 = s2.drop_last();
        assert(s.last() == bytes@[pos + 3]);
        assert(s3.last() == bytes@[pos + 2]);
        assert(s2.last() == bytes@[pos + 1]);
        assert(s1.last() == bytes@[pos as int]);
        assert(s1.drop_last().len() == 0);
    }
    b0 * 0x100_0000 + b1 * 0x1_0000 + b2 * 0x100 + b3
}

} // verus!
