//! Arithmetic done with bit operations alone.
use vstd::prelude::*;

verus! {

/// The reflected binary code of `n`: each bit is the exclusive or of the
/// same bit of `n` and the bit above it.
pub open spec fn gray_spec(n: u32) -> u32 {
    n ^ (n >> 1)
}

/// The reflected binary (Gray) code of `n`.
pub fn gray_code(n: u32) -> (r: u32)
    ensures
        r == gray_spec(n),
        forall|i: u32| #![auto] i < 31 ==> ((r >> i) & 1 == 1) == (((n >> i) & 1) != ((n >> (i + 1)) & 1)),
{
    let r = n ^ (n >> 1);
    assert(forall|i: u32| #![auto] i < 31 ==> ((r >> i) & 1 == 1) == (((n >> i) & 1) != ((n >> (i + 1)) & 1))) by (bit_vector)
        requires r == n ^ (n >> 1);
    r
}

/// Exclusive or adds without carries, and the shifted conjunction holds the
/// carries, so the two add up to the sum.
proof fn lemma_half_add(x: u32, y: u32)
    requires
        x as int + y as int <= u32::MAX,
    ensures
        (x ^ y) as int + ((x & y) << 1) as int == x as int + y as int,
{
    assert((x as u64) + (y as u64) <= 0xffff_ffffu64);
    assert((x as u64) + (y as u64) <= 0xffff_ffffu64 ==> ((x ^ y) as u64) + (((x & y) << 1u32)
        as u64) == (x as u64) + (y as u64)) by (bit_vector);
}

/// The low `k` bits of `c` are clear.
spec fn low_bits_clear(c: u32, k: u32) -> bool {
    (c as u64) & (((1u64 << (k as u64)) - 1) as u64) == 0
}

/// A carry shifted out of `k` clear low bits has `k + 1` of them; a nonzero
/// value has fewer than 32.
proof fn lemma_carry_moves_up(t: u32, c: u32, k: u32)
    requires
        1 <= k <= 32,
        c != 0,
        low_bits_clear(c, k),
    ensures
        k < 32,
        low_bits_clear((t & c) << 1u32, (k + 1) as u32),
{
    assert(1 <= k <= 32 && c != 0 && (c as u64) & (((1u64 << (k as u64)) - 1) as u64) == 0 ==> k
        < 32) by (bit_vector);
    assert(1 <= k < 32 && (c as u64) & (((1u64 << (k as u64)) - 1) as u64) == 0 ==> ((((t & c)
        << 1u32) as u64) & (((1u64 << ((k + 1) as u64)) - 1) as u64)) == 0) by (bit_vector);
}

/// The sum of `a` and `b`, computed with exclusive or, conjunction and
/// shifts: the carries are folded back in until none is left.
pub fn adder(a: u32, b: u32) -> (r: u32)
    requires
        a as int + b as int <= u32::MAX,
    ensures
        r == a + b,
{
    let mut sum = a ^ b;
    let mut carry = (a & b) << 1u32;
    let ghost mut k: u32 = 1;
    proof {
        lemma_half_add(a, b);
        assert(((a & b) << 1u32) & 1 == 0) by (bit_vector);
        assert(low_bits_clear(carry, 1u32)) by (bit_vector)
            requires
                carry & 1 == 0,
        ;
    }
    while carry != 0
        invariant
            sum as int + carry as int == a + b,
            a + b <= u32::MAX,
            1 <= k <= 32,
            low_bits_clear(carry, k),
        decreases 32 - k,
    {
        proof {
            lemma_carry_moves_up(sum, carry, k);
            lemma_half_add(sum, carry);
            k = (k + 1) as u32;
        }
        let temp = sum;
        sum = sum ^ carry;
        carry = (temp & carry) << 1u32;
    }
    sum
}

/// The product of `a` and `b`, computed by shifting and adding: each set bit
/// of `b` adds `a` shifted to that bit's place.
pub fn multiplier(a: u32, b: u32) -> (r: u32)
    requires
        a as int * b as int <= u32::MAX,
    ensures
        r == a * b,
{
    let mut result: u32 = 0;
    let mut multiplicand: u32 = a;
    let mut multiplier: u32 = b;
    while multiplier > 0
        invariant
            result as int + multiplicand as int * multiplier as int == a as int * b as int,
            a as int * b as int <= u32::MAX,
        decreases multiplier,
    {
        let ghost m = multiplier as int;
        let ghost d = multiplicand as int;
        let ghost r0 = result as int;
        assert(multiplier & 1 == multiplier % 2) by (bit_vector);
        assert(multiplier >> 1u32 == multiplier / 2) by (bit_vector);
        assert(d <= d * m) by (nonlinear_arith)
            requires
                m >= 1,
                d >= 0,
        ;
        assert(d * m == d * (m % 2) + 2 * d * (m / 2)) by (nonlinear_arith);
        if (multiplier & 1) != 0 {
            result = adder(result, multiplicand);
        }
        assert(result as int == r0 + d * (m % 2)) by (nonlinear_arith)
            requires
                (m % 2 == 1 && result as int == r0 + d) || (m % 2 == 0 && result as int == r0),
        ;
        if multiplier > 1 {
            assert(2 * d <= d * m) by (nonlinear_arith)
                requires
                    m >= 2,
                    d >= 0,
            ;
            assert(multiplicand << 1u32 == multiplicand * 2) by (bit_vector)
                requires
                    multiplicand <= 0x7fff_ffff,
            ;
        }
        multiplicand = multiplicand << 1u32;
        multiplier = multiplier >> 1u32;
        assert(result as int + multiplicand as int * multiplier as int == a as int * b as int)
            by (nonlinear_arith)
            requires
                result as int == r0 + d * (m % 2),
                multiplier as int == m / 2,
                m / 2 == 0 || multiplicand as int == 2 * d,
                r0 + d * m == a as int * b as int,
                d * m == d * (m % 2) + 2 * d * (m / 2),
        ;
    }
    result
}

} // verus!
