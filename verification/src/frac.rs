use vstd::prelude::*;

verus! {

use vstd::arithmetic::div_mod::{
    lemma_div_multiples_vanish, lemma_div_nonincreasing, lemma_fundamental_div_mod,
    lemma_mod_multiples_basic, lemma_mod_self_0, lemma_small_mod,
};
use vstd::math::abs;
use vstd::string::StringExecFns;
use crate::text::{int_str, int_to_string};

/// Euclid's greatest common divisor on nonnegative integers.
pub open spec fn gcd_nat(a: nat, b: nat) -> nat
    decreases b,
{
    if b == 0 {
        a
    } else {
        gcd_nat(b, a % b)
    }
}

/// The greatest common divisor of two numbers, not both zero, is positive
/// and divides both of them.
pub proof fn lemma_gcd_divides(a: nat, b: nat)
    requires
        a > 0 || b > 0,
    ensures
        gcd_nat(a, b) > 0,
        a as int % (gcd_nat(a, b) as int) == 0,
        b as int % (gcd_nat(a, b) as int) == 0,
    decreases b,
{
    let g = gcd_nat(a, b) as int;
    if b == 0 {
        lemma_mod_self_0(a as int);
        lemma_small_mod(0, a);
    } else {
        let r: nat = a % b;
        lemma_gcd_divides(b, r);
        lemma_fundamental_div_mod(a as int, b as int);
        let q = a as int / b as int;
        lemma_fundamental_div_mod(b as int, g);
        lemma_fundamental_div_mod(r as int, g);
        let sb = b as int / g;
        let st = r as int / g;
        assert(a as int == (sb * q + st) * g) by (nonlinear_arith)
            requires
                a as int == b as int * q + r,
                b as int == g * sb + 0,
                r as int == g * st + 0,
        ;
        lemma_mod_multiples_basic(sb * q + st, g);
    }
}

/// The greatest common divisor never exceeds a positive second argument,
/// and equals the first argument when the second is zero.
pub proof fn lemma_gcd_le(a: nat, b: nat)
    ensures
        b > 0 ==> gcd_nat(a, b) <= b,
        b == 0 ==> gcd_nat(a, b) == a,
    decreases b,
{
    if b > 0 {
        let r: nat = a % b;
        lemma_gcd_le(b, r);
    }
}

/// Euclid's algorithm, iteratively, on wide unsigned integers.
fn gcd_u128(a: u128, b: u128) -> (g: u128)
    ensures
        g as nat == gcd_nat(a as nat, b as nat),
{
    let mut x: u128 = a;
    let mut y: u128 = b;
    while y != 0
        invariant
            gcd_nat(x as nat, y as nat) == gcd_nat(a as nat, b as nat),
        decreases y,
    {
        let t: u128 = x % y;
        x = y;
        y = t;
    }
    x
}

/// Greatest common divisor of two machine integers, taken on their
/// absolute values, so the result is always nonnegative.
pub fn gcd(a: i32, b: i32) -> (g: i32)
    requires
        a != i32::MIN,
        b != i32::MIN,
    ensures
        g as int == gcd_nat(abs(a as int), abs(b as int)) as int,
        g >= 0,
{
    let x: u128 = if a < 0 {
        (-(a as i64)) as u128
    } else {
        a as u128
    };
    let y: u128 = if b < 0 {
        (-(b as i64)) as u128
    } else {
        b as u128
    };
    let g = gcd_u128(x, y);
    proof {
        lemma_gcd_le(x as nat, y as nat);
    }
    g as i32
}

/// A signed rational number. By convention a zero numerator collapses the
/// whole pair to (0, 0), the terminal "no contribution" state.
#[derive(Clone, Copy, Debug, PartialEq, Eq, Structural)]
pub struct Fraction {
    pub nom: i128,
    pub denom: i128,
}

/// What simplification returns: (0, 0) for a zero numerator, otherwise both
/// entries divided by their greatest common divisor.
pub open spec fn simp(n: int, d: int) -> (int, int) {
    if n == 0 {
        (0, 0)
    } else {
        let g = gcd_nat(abs(n), abs(d)) as int;
        (n / g, d / g)
    }
}

/// Exact division of a signed number by a positive divisor of its absolute
/// value, phrased through the quotient of absolute values.
proof fn lemma_signed_exact_div(x: int, g: int)
    requires
        g > 0,
        abs(x) as int % g == 0,
    ensures
        x >= 0 ==> x / g == abs(x) as int / g,
        x < 0 ==> x / g == -(abs(x) as int / g),
{
    if x < 0 {
        let m = abs(x) as int;
        lemma_fundamental_div_mod(m, g);
        let q = m / g;
        assert(m == g * q);
        assert(x == g * (-q)) by (nonlinear_arith)
            requires
                m == g * q,
                x == -m,
        ;
        lemma_div_multiples_vanish(-q, g);
    }
}

/// One over one is already in lowest terms.
pub proof fn lemma_simp_unit()
    ensures
        simp(1, 1) == (1int, 1int),
{
    assert((1 as nat) % (1 as nat) == 0);
    assert(gcd_nat(1, 0) == 1);
    assert(gcd_nat(1, 1) == 1);
    assert(abs(1) == 1);
    assert(1int / 1int == 1);
}

/// Simplification never grows the magnitude of either entry.
pub proof fn lemma_simp_shrinks(n0: int, d0: int)
    ensures
        abs(simp(n0, d0).0) <= abs(n0),
        abs(simp(n0, d0).1) <= abs(d0),
{
    if n0 != 0 {
        let g = gcd_nat(abs(n0), abs(d0)) as int;
        lemma_gcd_divides(abs(n0), abs(d0));
        lemma_signed_exact_div(n0, g);
        lemma_signed_exact_div(d0, g);
        lemma_div_nonincreasing(abs(n0) as int, g);
        lemma_div_nonincreasing(abs(d0) as int, g);
    }
}

impl Fraction {
    /// Reduce to lowest terms, or to the terminal (0, 0) state when the
    /// numerator is zero.
    pub fn simplify(&self) -> (r: Fraction)
        requires
            self.nom != i128::MIN,
            self.denom != i128::MIN,
        ensures
            r.nom as int == simp(self.nom as int, self.denom as int).0,
            r.denom as int == simp(self.nom as int, self.denom as int).1,
    {
        if self.nom == 0 {
            return Fraction { nom: 0, denom: 0 };
        }
        let mn: u128 = if self.nom < 0 {
            (-self.nom) as u128
        } else {
            self.nom as u128
        };
        let md: u128 = if self.denom < 0 {
            (-self.denom) as u128
        } else {
            self.denom as u128
        };
        let g: u128 = gcd_u128(mn, md);
        proof {
            lemma_gcd_divides(mn as nat, md as nat);
            lemma_div_nonincreasing(mn as int, g as int);
            lemma_div_nonincreasing(md as int, g as int);
            lemma_signed_exact_div(self.nom as int, g as int);
            lemma_signed_exact_div(self.denom as int, g as int);
        }
        let qn: u128 = mn / g;
        let qd: u128 = md / g;
        let rn: i128 = if self.nom < 0 {
            -(qn as i128)
        } else {
            qn as i128
        };
        let rd: i128 = if self.denom < 0 {
            -(qd as i128)
        } else {
            qd as i128
        };
        Fraction { nom: rn, denom: rd }
    }

    /// Display form: the bare numerator when it is zero or the denominator
    /// is one, otherwise numerator/denominator.
    pub fn render(&self) -> (s: String)
        requires
            self.nom != i128::MIN,
            self.denom != i128::MIN,
        ensures
            s@ == frac_str(self.nom as int, self.denom as int),
    {
        if self.nom == 0 || self.denom == 1 {
            int_to_string(self.nom)
        } else {
            let mut s = int_to_string(self.nom);
            s.append("/");
            let d = int_to_string(self.denom);
            s.append(d.as_str());
            proof {
                reveal_strlit("/");
                assert(s@ =~= frac_str(self.nom as int, self.denom as int));
            }
            s
        }
    }
}

/// Display form of a fraction: the bare numerator when it is zero or the
/// denominator is one, otherwise numerator, a slash, denominator.
pub open spec fn frac_str(n: int, d: int) -> Seq<char> {
    if n == 0 || d == 1 {
        int_str(n)
    } else {
        int_str(n) + seq!['/'] + int_str(d)
    }
}

} // verus!
