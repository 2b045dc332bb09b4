use vstd::arithmetic::div_mod::lemma_div_denominator;
use vstd::arithmetic::mul::lemma_mul_strict_inequality;
use vstd::prelude::*;

verus! {

/// `256` to the power `i`.
pub open spec fn pow256(i: nat) -> nat
    decreases i,
{
    if i == 0 {
        1
    } else {
        256 * pow256((i - 1) as nat)
    }
}

/// The `n` bytes of `v` in little-endian order (the low byte first).
pub open spec fn le_bytes(v: nat, n: nat) -> Seq<u8> {
    Seq::new(n, |i: int| ((v / pow256(i as nat)) % 256) as u8)
}

/// The number that the bytes `bs` give in little-endian order.
pub open spec fn le_value(bs: Seq<u8>) -> nat
    decreases bs.len(),
{
    if bs.len() == 0 {
        0
    } else {
        (bs[0] as nat + 256 * le_value(bs.drop_first())) as nat
    }
}

/// A number of `n` bytes is below `256^n`.
pub proof fn lemma_le_value_bound(bs: Seq<u8>)
    ensures
        le_value(bs) < pow256(bs.len()),
    decreases bs.len(),
{
    if bs.len() > 0 {
        lemma_le_value_bound(bs.drop_first());
        let rest = le_value(bs.drop_first());
        let p = pow256(bs.drop_first().len());
        assert(bs[0] + 256 * rest < 256 * p) by (nonlinear_arith)
            requires
                rest < p,
                bs[0] < 256,
        ;
    }
}

/// Four bytes give a number that fits in a `u32`.
pub proof fn lemma_le_value_u32(bs: Seq<u8>)
    requires
        bs.len() == 4,
    ensures
        le_value(bs) <= u32::MAX,
{
    lemma_le_value_bound(bs);
    reveal_with_fuel(pow256, 5);
}

proof fn lemma_pow256_positive(i: nat)
    ensures
        pow256(i) > 0,
    decreases i,
{
    if i > 0 {
        lemma_pow256_positive((i - 1) as nat);
    }
}

/// Appends the `n` little-endian bytes of `v` to `out`.
pub fn push_le(out: &mut Vec<u8>, v: u64, n: usize)
    requires
        n <= 8,
    ensures
        final(out)@ == old(out)@ + le_bytes(v as nat, n as nat),
{
    let mut x: u64 = v;
    let mut i: usize = 0;
    assert(pow256(0) == 1);
    while i < n
        invariant
            i <= n,
            x == v as nat / pow256(i as nat),
            out@ == old(out)@ + le_bytes(v as nat, i as nat),
        decreases n - i,
    {
        proof {
            lemma_pow256_positive(i as nat);
            lemma_div_denominator(v as int, pow256(i as nat) as int, 256);
            assert(pow256(i as nat) * 256 == pow256((i + 1) as nat));
        }
        out.push((x % 256) as u8);
        x = x / 256;
        i = i + 1;
        assert(out@ =~= old(out)@ + le_bytes(v as nat, i as nat));
    }
}

/// The number that `bs[at .. at + n]` gives in little-endian order.
pub fn read_le(bs: &[u8], at: usize, n: usize) -> (r: u64)
    requires
        n <= 8,
        at + n <= bs@.len(),
    ensures
        r == le_value(bs@.subrange(at as int, at + n)),
{
    let len = bs.len();
    let mut x: u64 = 0;
    let mut i: usize = n;
    while i > 0
        invariant
            i <= n <= 8,
            len == bs@.len(),
            at + n <= bs@.len(),
            x == le_value(bs@.subrange(at + i, at + n)),
        decreases i,
    {
        let ghost rest = bs@.subrange(at + i, at + n);
        proof {
            lemma_le_value_bound(rest);
            lemma_pow256_mono(rest.len(), 7);
            reveal_with_fuel(pow256, 8);
            assert(pow256(7) == 0x100_0000_0000_0000);
            assert(x < 0x100_0000_0000_0000);
            assert(bs@.subrange(at + i - 1, at + n).drop_first() =~= rest);
        }
        let b = bs[at + i - 1] as u64;
        assert(x * 256 + b < 0x1_0000_0000_0000_0000) by (nonlinear_arith)
            requires
                x < 0x100_0000_0000_0000,
                b < 256,
        ;
        x = x * 256 + b;
        i = i - 1;
    }
    x
}

proof fn lemma_pow256_mono(a: nat, b: nat)
    requires
        a <= b,
    ensures
        pow256(a) <= pow256(b),
    decreases b,
{
    if a < b {
        lemma_pow256_mono(a, (b - 1) as nat);
        lemma_pow256_positive((b - 1) as nat);
    }
}

} // verus!
