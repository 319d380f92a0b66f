//! Powers of two, as a specification function and as executable code.

use vstd::prelude::*;

verus! {

/// Two to the power `e`.
pub open spec fn two_to(e: nat) -> nat
    decreases e,
{
    if e == 0 {
        1
    } else {
        2 * two_to((e - 1) as nat)
    }
}

/// A power of two is never zero.
pub proof fn lemma_two_to_positive(e: nat)
    ensures
        two_to(e) > 0,
    decreases e,
{
    if e > 0 {
        lemma_two_to_positive((e - 1) as nat);
    }
}

/// A larger exponent gives a power that is no smaller.
pub proof fn lemma_two_to_monotonic(a: nat, b: nat)
    requires
        a <= b,
    ensures
        two_to(a) <= two_to(b),
    decreases b,
{
    if a < b {
        lemma_two_to_monotonic(a, (b - 1) as nat);
    }
}

/// Exponents add where powers multiply.
pub proof fn lemma_two_to_adds(a: nat, b: nat)
    ensures
        two_to(a + b) == two_to(a) * two_to(b),
    decreases a,
{
    if a > 0 {
        let less = (a - 1) as nat;
        lemma_two_to_adds(less, b);
        assert((a + b - 1) as nat == less + b);
        assert(two_to(a + b) == 2 * two_to(less + b));
        assert(2 * (two_to(less) * two_to(b)) == (2 * two_to(less)) * two_to(b))
            by (nonlinear_arith);
    } else {
        assert(two_to(a + b) == two_to(b));
        assert(two_to(a) * two_to(b) == two_to(b)) by (nonlinear_arith)
            requires
                two_to(a) == 1,
        ;
    }
}

/// The powers of two up to the sixteenth.
pub proof fn lemma_two_to_values()
    ensures
        two_to(0) == 1,
        two_to(1) == 2,
        two_to(2) == 4,
        two_to(3) == 8,
        two_to(4) == 16,
        two_to(5) == 32,
        two_to(6) == 64,
        two_to(7) == 128,
        two_to(8) == 256,
        two_to(9) == 512,
        two_to(10) == 1024,
        two_to(11) == 2048,
        two_to(12) == 4096,
        two_to(13) == 8192,
        two_to(14) == 16384,
        two_to(15) == 32768,
        two_to(16) == 65536,
{
    reveal_with_fuel(two_to, 17);
}

/// Two to the thirty-first, the largest power of two in a `u32`.
pub proof fn lemma_two_to_thirty_one()
    ensures
        two_to(31) == 0x8000_0000,
{
    lemma_two_to_values();
    lemma_two_to_adds(16, 15);
}

/// Computes two to the power `exp`, for the powers that a `u32` holds.
pub fn power_of_two(exp: u8) -> (power: u32)
    requires
        exp <= 31,
    ensures
        power == two_to(exp as nat),
{
    let mut power: u32 = 1;
    let mut i: u8 = 0;
    while i < exp
        invariant
            i <= exp <= 31,
            power == two_to(i as nat),
        decreases exp - i,
    {
        proof {
            lemma_two_to_monotonic((i + 1) as nat, 31);
            lemma_two_to_thirty_one();
        }
        power = power * 2;
        i = i + 1;
    }
    power
}

} // verus!
