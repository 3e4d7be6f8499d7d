//! Numbers as big-endian bytes.
use vstd::prelude::*;

verus! {

/// The number that bytes write, most significant byte first.
pub open spec fn be_value(b: Seq<u8>) -> nat
    decreases b.len(),
{
    if b.len() == 0 {
        0
    } else {
        be_value(b.drop_last()) * 256 + b.last() as nat
    }
}

/// The `width` lowest bytes of a number, most significant byte first.
pub open spec fn be_bytes(n: nat, width: nat) -> Seq<u8>
    decreases width,
{
    if width == 0 {
        Seq::empty()
    } else {
        be_bytes(n / 256, (width - 1) as nat).push((n % 256) as u8)
    }
}

/// 256 to the power of `width`.
pub open spec fn pow256(width: nat) -> nat
    decreases width,
{
    if width == 0 {
        1
    } else {
        256 * pow256((width - 1) as nat)
    }
}

/// Bytes written from a number that fits them read back as that number.
pub proof fn lemma_be_value_of_bytes(n: nat, width: nat)
    requires
        n < pow256(width),
    ensures
        be_bytes(n, width).len() == width,
        be_value(be_bytes(n, width)) == n,
    decreases width,
{
    if width > 0 {
        lemma_be_value_of_bytes(n / 256, (width - 1) as nat);
        assert(be_bytes(n, width).drop_last() =~= be_bytes(n / 256, (width - 1) as nat));
    }
}

/// A number read from bytes writes back as those bytes.
pub proof fn lemma_be_bytes_of_value(b: Seq<u8>)
    ensures
        be_value(b) < pow256(b.len()),
        be_bytes(be_value(b), b.len()) == b,
    decreases b.len(),
{
    if b.len() > 0 {
        lemma_be_bytes_of_value(b.drop_last());
        let n = be_value(b);
        assert(n / 256 == be_value(b.drop_last()));
        assert(n % 256 == b.last() as nat);
        assert(be_bytes(n, b.len()) =~= b);
    } else {
        assert(be_bytes(0, 0) =~= b);
    }
}

/// 256 to the eighth power is 2 to the 64th, and so on for the other widths
/// that the encodings write.
pub proof fn lemma_pow256()
    ensures
        pow256(1) == 0x100,
        pow256(2) == 0x1_0000,
        pow256(4) == 0x1_0000_0000,
        pow256(8) == 0x1_0000_0000_0000_0000,
        pow256(16) == 0x1_0000_0000_0000_0000_0000_0000_0000_0000,
{
    reveal_with_fuel(pow256, 17);
}

/// The power of a sum is the product of the powers.
pub proof fn lemma_pow256_sum(a: nat, b: nat)
    ensures
        pow256(a + b) == pow256(a) * pow256(b),
    decreases b,
{
    if b == 0 {
        assert(pow256(a) * 1 == pow256(a)) by (nonlinear_arith);
    } else {
        lemma_pow256_sum(a, (b - 1) as nat);
        let x = pow256(a);
        let y = pow256((b - 1) as nat);
        assert(256 * (x * y) == x * (256 * y)) by (nonlinear_arith);
    }
}

/// Different numbers that fit the width are written with different bytes.
pub proof fn lemma_be_bytes_injective(a: nat, b: nat, width: nat)
    requires
        a < pow256(width),
        b < pow256(width),
        be_bytes(a, width) == be_bytes(b, width),
    ensures
        a == b,
{
    lemma_be_value_of_bytes(a, width);
    lemma_be_value_of_bytes(b, width);
}

/// The bytes of a concatenation read as the first part shifted, plus the
/// second part.
pub proof fn lemma_be_value_concat(a: Seq<u8>, b: Seq<u8>)
    ensures
        be_value(a + b) == be_value(a) * pow256(b.len()) + be_value(b),
    decreases b.len(),
{
    if b.len() == 0 {
        assert(a + b =~= a);
        assert(pow256(0) == 1);
        assert(be_value(b) == 0);
        assert(be_value(a) * 1 == be_value(a)) by (nonlinear_arith);
    } else {
        assert((a + b).drop_last() =~= a + b.drop_last());
        assert((a + b).last() == b.last());
        assert(pow256(b.len()) == 256 * pow256((b.len() - 1) as nat));
        lemma_be_value_concat(a, b.drop_last());
        let x = be_value(a);
        let y = be_value(b.drop_last());
        let p = pow256((b.len() - 1) as nat);
        assert((x * p + y) * 256 == x * (256 * p) + y * 256) by (nonlinear_arith);
    }
}

/// Appends the `width` lowest bytes of a number, most significant first.
pub fn push_be(out: &mut Vec<u8>, n: u128, width: usize)
    ensures
        final(out)@ == old(out)@ + be_bytes(n as nat, width as nat),
    decreases width,
{
    if width > 0 {
        push_be(out, n / 256, width - 1);
        out.push((n % 256) as u8);
        proof {
            assert(final(out)@ =~= old(out)@ + be_bytes(n as nat, width as nat));
        }
    } else {
        proof {
            assert(final(out)@ =~= old(out)@ + be_bytes(n as nat, width as nat));
        }
    }
}

/// Reads `width` bytes as a number, most significant first.
pub fn read_be(bytes: &[u8], pos: usize, width: usize) -> (n: u128)
    requires
        width <= 16,
        pos + width <= bytes@.len(),
    ensures
        n == be_value(bytes@.subrange(pos as int, pos + width)),
{
    let mut n: u128 = 0;
    let mut k: usize = 0;
    let len: usize = bytes.len();
    proof {
        lemma_pow256();
        assert(bytes@.subrange(pos as int, pos as int).len() == 0);
    }
    while k < width
        invariant
            k <= width <= 16,
            pos + width <= bytes@.len(),
            len == bytes@.len(),
            n == be_value(bytes@.subrange(pos as int, pos + k)),
            n < pow256(k as nat),
        decreases width - k,
    {
        proof {
            let next = bytes@.subrange(pos as int, pos + k + 1);
            assert(next.drop_last() =~= bytes@.subrange(pos as int, pos + k));
            lemma_pow256_monotonic((k + 1) as nat, 16);
            lemma_pow256();
            assert(n * 256 + 255 < pow256((k + 1) as nat)) by (nonlinear_arith)
                requires
                    n < pow256(k as nat),
                    pow256((k + 1) as nat) == 256 * pow256(k as nat),
            ;
        }
        n = n * 256 + bytes[pos + k] as u128;
        k = k + 1;
    }
    n
}

/// The powers of 256 ascend.
pub proof fn lemma_pow256_monotonic(a: nat, b: nat)
    requires
        a <= b,
    ensures
        pow256(a) <= pow256(b),
        pow256(a) > 0,
    decreases b,
{
    if a < b {
        lemma_pow256_monotonic(a, (b - 1) as nat);
    } else if a > 0 {
        lemma_pow256_monotonic((a - 1) as nat, (a - 1) as nat);
    }
}

} // verus!
