use vstd::prelude::*;

verus! {

use vstd::arithmetic::div_mod::{lemma_div_is_ordered, lemma_div_multiples_vanish,
    lemma_mod_multiples_vanish};
use vstd::arithmetic::power::pow;
use vstd::arithmetic::power2::{lemma2_to64, lemma2_to64_rest, lemma_pow2_adds,
    lemma_pow2_strictly_increases, pow2};
use vstd::math::abs;
use vstd::string::{StrSliceExecFns, StringExecFns};
use crate::comb::{lex_val, lemma_lex_val_bounds, lemma_next_lex_increases, next_combination,
    next_lex, wf_lex, Combination};
use crate::frac::{frac_str, simp, Fraction};
use crate::tableau::{all_steps_ok, count2, first_bad_from, pauling_tableau, somo_count,
    tab_a, tab_b, tableau_matches, Tableau};
use crate::text::{char_to_string, int_str, int_to_string};

/// The largest number of molecular orbitals one expansion accepts. The
/// running coefficient products of longer vectors would no longer fit the
/// fixed-width arithmetic of the walk.
pub const MAX_ORBITALS: usize = 20;

/// Why an expansion is rejected before any determinant is produced.
#[derive(Clone, Copy, Debug, PartialEq, Eq, Structural)]
pub enum CsfError {
    /// A character outside the step alphabet; carries the offending one.
    InvalidStep(char),
    /// The requested projection cannot be reached from the total spin:
    /// too large in magnitude, or of the wrong parity.
    InfeasibleMs { twoms: i32, spin: i32 },
}

/// The rendering of a failure, as reported to the caller.
pub open spec fn err_str(e: CsfError) -> Seq<char> {
    match e {
        CsfError::InvalidStep(ch) => "invalid step: "@ + seq![ch],
        CsfError::InfeasibleMs { twoms, spin } => "half-integer Ms "@ + int_str(twoms as int)
            + " does not exist for spin "@ + int_str(spin as int),
    }
}

impl CsfError {
    /// The descriptive message of this failure.
    pub fn message(&self) -> (s: String)
        ensures
            s@ == err_str(*self),
    {
        match self {
            CsfError::InvalidStep(ch) => {
                let mut s = String::from_str("invalid step: ");
                let c = char_to_string(*ch);
                s.append(c.as_str());
                proof {
                    reveal_strlit("invalid step: ");
                }
                s
            },
            CsfError::InfeasibleMs { twoms, spin } => {
                let mut s = String::from_str("half-integer Ms ");
                let t = int_to_string(*twoms as i128);
                s.append(t.as_str());
                s.append(" does not exist for spin ");
                let p = int_to_string(*spin as i128);
                s.append(p.as_str());
                proof {
                    reveal_strlit("half-integer Ms ");
                    reveal_strlit(" does not exist for spin ");
                    assert(s@ =~= err_str(*self));
                }
                s
            },
        }
    }
}

/// The running state of the per-determinant walk along the step vector.
pub ghost struct WalkState {
    pub phase: int,
    pub nom: int,
    pub denom: int,
    pub det: Seq<char>,
    pub i_somo: int,
    pub i_alpha: int,
    pub i_beta: int,
}

pub open spec fn walk_init() -> WalkState {
    WalkState { phase: 1, nom: 1, denom: 1, det: Seq::empty(), i_somo: 0, i_alpha: 0, i_beta: 0 }
}

/// Re-simplify the running coefficient fraction.
pub open spec fn simp_state(st: WalkState) -> WalkState {
    WalkState {
        phase: st.phase,
        nom: simp(st.nom, st.denom).0,
        denom: simp(st.nom, st.denom).1,
        det: st.det,
        i_somo: st.i_somo,
        i_alpha: st.i_alpha,
        i_beta: st.i_beta,
    }
}

/// One symbol of the walk: extend the determinant string, multiply the
/// coefficient factors dictated by the tableau entries ai and bi, update the
/// counters and the phase, then re-simplify the fraction.
pub open spec fn walk_step(st: WalkState, ch: char, ai: int, bi: int, eigv: Seq<int>) -> WalkState {
    if ch == '0' {
        simp_state(
            WalkState {
                phase: st.phase,
                nom: st.nom,
                denom: st.denom,
                det: st.det.push('0'),
                i_somo: st.i_somo,
                i_alpha: st.i_alpha,
                i_beta: st.i_beta,
            },
        )
    } else if ch == 'u' {
        if eigv[st.i_somo] == 1 {
            simp_state(
                WalkState {
                    phase: st.phase,
                    nom: st.nom * (ai + bi - st.i_beta),
                    denom: st.denom * bi,
                    det: st.det.push('a'),
                    i_somo: st.i_somo + 1,
                    i_alpha: st.i_alpha + 1,
                    i_beta: st.i_beta,
                },
            )
        } else {
            simp_state(
                WalkState {
                    phase: st.phase,
                    nom: st.nom * (ai + bi - st.i_alpha),
                    denom: st.denom * bi,
                    det: st.det.push('b'),
                    i_somo: st.i_somo + 1,
                    i_alpha: st.i_alpha,
                    i_beta: st.i_beta + 1,
                },
            )
        }
    } else if ch == 'd' {
        if eigv[st.i_somo] == 1 {
            simp_state(
                WalkState {
                    phase: if bi % 2 == 0 {
                        -st.phase
                    } else {
                        st.phase
                    },
                    nom: st.nom * (st.i_beta - ai + 1),
                    denom: st.denom * (bi + 2),
                    det: st.det.push('a'),
                    i_somo: st.i_somo + 1,
                    i_alpha: st.i_alpha + 1,
                    i_beta: st.i_beta,
                },
            )
        } else {
            simp_state(
                WalkState {
                    phase: if bi % 2 != 0 {
                        -st.phase
                    } else {
                        st.phase
                    },
                    nom: st.nom * (st.i_alpha - ai + 1),
                    denom: st.denom * (bi + 2),
                    det: st.det.push('b'),
                    i_somo: st.i_somo + 1,
                    i_alpha: st.i_alpha,
                    i_beta: st.i_beta + 1,
                },
            )
        }
    } else {
        simp_state(
            WalkState {
                phase: if bi % 2 != 0 {
                    -st.phase
                } else {
                    st.phase
                },
                nom: st.nom,
                denom: st.denom,
                det: st.det.push('2'),
                i_somo: st.i_somo,
                i_alpha: st.i_alpha + 1,
                i_beta: st.i_beta + 1,
            },
        )
    }
}

/// The walk after the first n symbols, for a given alpha/beta sign pattern
/// over the singly occupied orbitals.
pub open spec fn walk(s: Seq<char>, eigv: Seq<int>, n: nat) -> WalkState
    decreases n,
{
    if n == 0 {
        walk_init()
    } else {
        walk_step(walk(s, eigv, (n - 1) as nat), s[n - 1], tab_a(s, n), tab_b(s, n), eigv)
    }
}

/// The number of singly occupied orbitals only grows along the vector.
pub proof fn lemma_somo_mono(s: Seq<char>, i: nat, j: nat)
    requires
        i <= j,
    ensures
        somo_count(s, i) <= somo_count(s, j),
    decreases j,
{
    if i < j {
        lemma_somo_mono(s, i, (j - 1) as nat);
    }
}

/// Counter bookkeeping along the walk: each counter counts what it names,
/// the determinant string grows one symbol per step, and the phase is a sign.
pub proof fn lemma_walk_counters(s: Seq<char>, eigv: Seq<int>, n: nat)
    requires
        n <= s.len(),
        all_steps_ok(s),
    ensures
        ({
            let w = walk(s, eigv, n);
            &&& w.i_somo == somo_count(s, n)
            &&& w.i_alpha + w.i_beta == 2 * count2(s, n) + somo_count(s, n)
            &&& 0 <= w.i_alpha <= n
            &&& 0 <= w.i_beta <= n
            &&& w.det.len() == n
            &&& (w.phase == 1 || w.phase == -1)
        }),
    decreases n,
{
    if n > 0 {
        lemma_walk_counters(s, eigv, (n - 1) as nat);
    }
}

/// Simplification never grows the magnitude of either entry.
proof fn lemma_simp_shrinks(n0: int, d0: int)
    ensures
        abs(simp(n0, d0).0) <= abs(n0),
        abs(simp(n0, d0).1) <= abs(d0),
{
    crate::frac::lemma_simp_shrinks(n0, d0);
}

proof fn lemma_mul_bound(x: int, y: int, a: int, b: int)
    requires
        -a <= x <= a,
        -b <= y <= b,
        0 <= a,
        0 <= b,
    ensures
        -(a * b) <= x * y <= a * b,
{
    assert(-(a * b) <= x * y <= a * b) by (nonlinear_arith)
        requires
            -a <= x <= a,
            -b <= y <= b,
            0 <= a,
            0 <= b,
    ;
}

/// The coefficient numerator and denominator after n symbols stay within
/// two to the power of six times n in magnitude.
pub proof fn lemma_walk_magnitude(s: Seq<char>, eigv: Seq<int>, n: nat)
    requires
        n <= s.len(),
        s.len() <= MAX_ORBITALS,
        all_steps_ok(s),
    ensures
        ({
            let w = walk(s, eigv, n);
            abs(w.nom) <= pow2(6 * n) && abs(w.denom) <= pow2(6 * n)
        }),
    decreases n,
{
    if n == 0 {
        assert(pow2(0) == 1) by {
            lemma2_to64();
        }
    } else {
        let m = (n - 1) as nat;
        lemma_walk_magnitude(s, eigv, m);
        lemma_walk_counters(s, eigv, m);
        crate::tableau::lemma_tab_bounds(s, n);
        lemma2_to64();
        lemma_pow2_adds(6 * m, 6);
        let w0 = walk(s, eigv, m);
        let cap = pow2(6 * m) as int;
        let ai = tab_a(s, n);
        let bi = tab_b(s, n);
        let w1 = walk(s, eigv, n);
        let ch = s[n - 1];
        if ch == '0' {
            lemma_simp_shrinks(w0.nom, w0.denom);
        } else if ch == 'u' {
            let f = if eigv[w0.i_somo] == 1 {
                ai + bi - w0.i_beta
            } else {
                ai + bi - w0.i_alpha
            };
            lemma_mul_bound(w0.nom, f, cap, 64);
            lemma_mul_bound(w0.denom, bi, cap, 64);
            lemma_simp_shrinks(w0.nom * f, w0.denom * bi);
        } else if ch == 'd' {
            let f = if eigv[w0.i_somo] == 1 {
                w0.i_beta - ai + 1
            } else {
                w0.i_alpha - ai + 1
            };
            lemma_mul_bound(w0.nom, f, cap, 64);
            lemma_mul_bound(w0.denom, bi + 2, cap, 64);
            lemma_simp_shrinks(w0.nom * f, w0.denom * (bi + 2));
        } else {
            lemma_simp_shrinks(w0.nom, w0.denom);
        }
    }
}

proof fn lemma_neg_parity(b: int)
    ensures
        (-b) % 2 == b % 2,
{
    lemma_mod_multiples_vanish(-b, b, 2);
}

/// Whether a signed number is odd.
fn is_odd_i32(x: i32) -> (r: bool)
    requires
        x != i32::MIN,
    ensures
        r == (x as int % 2 != 0),
{
    let m: i32 = if x < 0 {
        -x
    } else {
        x
    };
    proof {
        lemma_neg_parity(x as int);
    }
    (m as u32) % 2 == 1
}

/// The sign pattern of one i8 vector, as mathematical integers.
pub open spec fn eigv_view(e: Seq<i8>) -> Seq<int> {
    e.map_values(|x: i8| x as int)
}

/// Walk the step vector once for one alpha assignment, producing the phase,
/// the simplified coefficient fraction and the determinant string, exactly
/// as the walk model states.
#[verifier::rlimit(100)]
fn determinant_for(stepvec: &str, tab: &Tableau, eigv: &Vec<i8>) -> (r: (i32, Fraction, String))
    requires
        stepvec@.len() <= MAX_ORBITALS,
        all_steps_ok(stepvec@),
        tableau_matches(*tab, stepvec@),
        eigv@.len() == somo_count(stepvec@, stepvec@.len()),
    ensures
        ({
            let w = walk(stepvec@, eigv_view(eigv@), stepvec@.len());
            r.0 as int == w.phase && r.1.nom as int == w.nom && r.1.denom as int == w.denom
                && r.2@ == w.det
        }),
{
    let ghost s = stepvec@;
    let ghost ev = eigv_view(eigv@);
    let n = stepvec.unicode_len();
    let mut phase: i32 = 1;
    let mut frac = Fraction { nom: 1, denom: 1 };
    let mut i_somo: usize = 0;
    let mut i_alpha: i32 = 0;
    let mut i_beta: i32 = 0;
    let mut det = String::new();
    let mut i: usize = 0;
    while i < n
        invariant
            s == stepvec@,
            ev == eigv_view(eigv@),
            n == s.len(),
            s.len() <= MAX_ORBITALS,
            all_steps_ok(s),
            tableau_matches(*tab, s),
            eigv@.len() == somo_count(s, s.len()),
            i <= n,
            ({
                let w = walk(s, ev, i as nat);
                &&& phase as int == w.phase
                &&& frac.nom as int == w.nom
                &&& frac.denom as int == w.denom
                &&& det@ == w.det
                &&& i_somo as int == w.i_somo
                &&& i_alpha as int == w.i_alpha
                &&& i_beta as int == w.i_beta
            }),
        decreases n - i,
    {
        let ghost w0 = walk(s, ev, i as nat);
        let ghost w1 = walk(s, ev, (i + 1) as nat);
        proof {
            lemma_walk_counters(s, ev, i as nat);
            lemma_walk_counters(s, ev, (i + 1) as nat);
            lemma_walk_magnitude(s, ev, i as nat);
            crate::tableau::lemma_tab_bounds(s, (i + 1) as nat);
            lemma_somo_mono(s, (i + 1) as nat, s.len());
            lemma2_to64();
            lemma2_to64_rest();
            lemma_pow2_adds(6 * (i as nat), 6);
            lemma_pow2_strictly_increases(6 * (i as nat) + 6, 121);
            lemma_pow2_adds(61, 60);
            assert(pow2(6 * (i as nat)) as int * 64 == pow2(6 * (i as nat) + 6));
            assert(pow2(6 * (i as nat) + 6) < pow2(61) * pow2(60));
            reveal_strlit("0");
            reveal_strlit("a");
            reveal_strlit("b");
            reveal_strlit("2");
        }
        let ch = stepvec.get_char(i);
        let ai: i32 = tab.a[i];
        let bi: i32 = tab.b[i];
        let ghost cap = pow2(6 * (i as nat)) as int;
        if ch == '0' {
            det.append("0");
            proof {
                assert(det@ =~= w1.det);
            }
        } else if ch == 'u' {
            if eigv[i_somo] == 1 {
                det.append("a");
                let f: i128 = ai as i128 + bi as i128 - i_beta as i128;
                proof {
                    lemma_mul_bound(frac.nom as int, f as int, cap, 64);
                    assert(det@ =~= w1.det);
                }
                frac.nom = frac.nom * f;
                i_alpha = i_alpha + 1;
            } else {
                det.append("b");
                let f: i128 = ai as i128 + bi as i128 - i_alpha as i128;
                proof {
                    lemma_mul_bound(frac.nom as int, f as int, cap, 64);
                    assert(det@ =~= w1.det);
                }
                frac.nom = frac.nom * f;
                i_beta = i_beta + 1;
            }
            proof {
                lemma_mul_bound(frac.denom as int, bi as int, cap, 64);
            }
            frac.denom = frac.denom * (bi as i128);
            i_somo = i_somo + 1;
        } else if ch == 'd' {
            let flip = is_odd_i32(bi);
            if eigv[i_somo] == 1 {
                det.append("a");
                let f: i128 = i_beta as i128 - ai as i128 + 1;
                proof {
                    lemma_mul_bound(frac.nom as int, f as int, cap, 64);
                    assert(det@ =~= w1.det);
                }
                frac.nom = frac.nom * f;
                i_alpha = i_alpha + 1;
                if !flip {
                    phase = -phase;
                }
            } else {
                det.append("b");
                let f: i128 = i_alpha as i128 - ai as i128 + 1;
                proof {
                    lemma_mul_bound(frac.nom as int, f as int, cap, 64);
                    assert(det@ =~= w1.det);
                }
                frac.nom = frac.nom * f;
                i_beta = i_beta + 1;
                if flip {
                    phase = -phase;
                }
            }
            proof {
                lemma_mul_bound(frac.denom as int, bi as int + 2, cap, 64);
            }
            frac.denom = frac.denom * (bi as i128 + 2);
            i_somo = i_somo + 1;
        } else {
            det.append("2");
            let flip = is_odd_i32(bi);
            if flip {
                phase = -phase;
            }
            i_alpha = i_alpha + 1;
            i_beta = i_beta + 1;
            proof {
                assert(det@ =~= w1.det);
            }
        }
        frac = frac.simplify();
        i = i + 1;
    }
    (phase, frac, det)
}

/// The alpha/beta sign pattern chosen by a combination: +1 at the chosen
/// singly occupied orbitals, -1 elsewhere.
pub open spec fn comb_eigv(lex: Seq<usize>, m: int) -> Seq<int> {
    Seq::new(
        m as nat,
        |i: int|
            if lex.contains(i as usize) {
                1int
            } else {
                -1int
            },
    )
}

/// The first combination: the k smallest indices.
pub open spec fn init_lex(k: int) -> Seq<usize> {
    Seq::new(k as nat, |i: int| i as usize)
}

/// Every combination from the given one to exhaustion, in enumeration order.
pub open spec fn comb_chain(n: usize, k: usize, lex: Seq<usize>) -> Seq<Seq<usize>>
    decreases pow(n as int, k as nat) - lex_val(n as int, lex),
    when wf_lex(n as int, k as int, lex)
    via comb_chain_decreases
{
    match next_lex(n as int, k as int, lex) {
        Option::Some(l2) => seq![lex] + comb_chain(n, k, l2),
        Option::None => seq![lex],
    }
}

#[via_fn]
proof fn comb_chain_decreases(n: usize, k: usize, lex: Seq<usize>) {
    lemma_next_lex_increases(n as int, k as int, lex);
    if next_lex(n as int, k as int, lex) is Some {
        let l2 = next_lex(n as int, k as int, lex)->Some_0;
        assert(k >= 1 && n >= 1);
        assert forall|i: int| 0 <= i < l2.len() implies (#[trigger] l2[i] as int) < n by {
            assert((l2[i] as int) <= n - k + i);
        }
        assert forall|i: int| 0 <= i < lex.len() implies (#[trigger] lex[i] as int) < n by {
            assert((lex[i] as int) <= n - k + i);
        }
        lemma_lex_val_bounds(n as int, l2);
        lemma_lex_val_bounds(n as int, lex);
    }
}

/// The printed form of one determinant line: the sign of the phase, the
/// display form of the coefficient fraction, and the determinant string
/// between vertical bars.
pub open spec fn det_line_str(phase: int, nom: int, denom: int, det: Seq<char>) -> Seq<char> {
    (if phase > 0 {
        seq!['+']
    } else {
        seq!['-']
    }) + seq![' '] + frac_str(nom, denom) + seq![' ', '|'] + det + seq!['|']
}

/// The determinant lines contributed by a chain of combinations: one line
/// per combination whose coefficient numerator is nonzero, in order.
pub open spec fn chain_lines(s: Seq<char>, chain: Seq<Seq<usize>>) -> Seq<Seq<char>>
    decreases chain.len(),
{
    if chain.len() == 0 {
        Seq::<Seq<char>>::empty()
    } else {
        let w = walk(s, comb_eigv(chain[0], somo_count(s, s.len())), s.len());
        let rest = chain_lines(s, chain.drop_first());
        if w.nom != 0 {
            seq![det_line_str(w.phase, w.nom, w.denom, w.det)] + rest
        } else {
            rest
        }
    }
}

/// Spin feasibility: the projection must not exceed the total spin in
/// magnitude, and must share its parity.
pub open spec fn feasible(s: Seq<char>, twoms: int) -> bool {
    let spin = tab_b(s, s.len());
    abs(twoms) <= spin && (spin + twoms) % 2 == 0
}

/// How many singly occupied orbitals carry alpha spin in any determinant.
pub open spec fn spec_n_alpha(s: Seq<char>, twoms: int) -> int {
    (somo_count(s, s.len()) + twoms) / 2
}

/// Every determinant line of a feasible expansion, in enumeration order.
pub open spec fn det_lines(s: Seq<char>, twoms: int) -> Seq<Seq<char>> {
    let m = somo_count(s, s.len());
    let k = spec_n_alpha(s, twoms);
    chain_lines(s, comb_chain(m as usize, k as usize, init_lex(k)))
}

/// The echo line restating the step vector and the simplified projection.
pub open spec fn echo_str(s: Seq<char>, twoms: int) -> Seq<char> {
    "CSF: "@ + s + ", Ms: "@ + frac_str(simp(twoms, 2).0, simp(twoms, 2).1)
}

/// The header line with the electron and orbital counts.
pub open spec fn header_str(n_e: int, n_mo: int) -> Seq<char> {
    "Determinants for "@ + int_str(n_e) + " electrons in "@ + int_str(n_mo) + " orbitals:"@
}

pub open spec fn views_of(q: Seq<String>) -> Seq<Seq<char>> {
    q.map_values(|x: String| x@)
}

fn det_line(phase: i32, frac: &Fraction, det: &String) -> (s: String)
    requires
        frac.nom != i128::MIN,
        frac.denom != i128::MIN,
    ensures
        s@ == det_line_str(phase as int, frac.nom as int, frac.denom as int, det@),
{
    let mut s = String::from_str(
        if phase > 0 {
            "+"
        } else {
            "-"
        },
    );
    s.append(" ");
    let f = frac.render();
    s.append(f.as_str());
    s.append(" |");
    s.append(det.as_str());
    s.append("|");
    proof {
        reveal_strlit("+");
        reveal_strlit("-");
        reveal_strlit(" ");
        reveal_strlit(" |");
        reveal_strlit("|");
        assert(s@ =~= det_line_str(phase as int, frac.nom as int, frac.denom as int, det@));
    }
    s
}

/// Build the sign vector of one combination: +1 at its indices.
fn eigv_for(comb: &Combination, m: usize) -> (e: Vec<i8>)
    requires
        comb.well_formed(),
        comb.n == m,
    ensures
        e@.len() == m,
        eigv_view(e@) == comb_eigv(comb.lex@, m as int),
{
    let mut e: Vec<i8> = Vec::new();
    let mut i: usize = 0;
    while i < m
        invariant
            e@.len() == i,
            i <= m,
            forall|j: int| 0 <= j < i ==> e@[j] == -1i8,
        decreases m - i,
    {
        e.push(-1);
        i = i + 1;
    }
    let mut idx: usize = 0;
    while idx < comb.k
        invariant
            comb.well_formed(),
            comb.n == m,
            e@.len() == m,
            idx <= comb.k,
            forall|j: int| 0 <= j < m ==> (e@[j] == 1i8 || e@[j] == -1i8),
            forall|j: int|
                0 <= j < m ==> ((e@[j] == 1i8) <==> exists|q: int|
                    0 <= q < idx && (#[trigger] comb.lex@[q] as int) == j),
        decreases comb.k - idx,
    {
        let pos = comb.lex[idx];
        proof {
            assert((comb.lex@[idx as int] as int) <= comb.n - comb.k + idx);
        }
        e.set(pos, 1);
        idx = idx + 1;
    }
    proof {
        assert forall|j: int|
            0 <= j < m implies eigv_view(e@)[j] == comb_eigv(comb.lex@, m as int)[j] by {
            if e@[j] == 1i8 {
                let q = choose|q: int| 0 <= q < comb.k && (comb.lex@[q] as int) == j;
                assert(comb.lex@[q] == j as usize);
                assert(comb.lex@.contains(j as usize));
            } else {
                if comb.lex@.contains(j as usize) {
                    let q = choose|q: int|
                        0 <= q < comb.lex@.len() && comb.lex@[q] == j as usize;
                    assert((comb.lex@[q] as int) == j);
                    assert(e@[j] == 1i8);
                }
            }
        }
        assert(eigv_view(e@) =~= comb_eigv(comb.lex@, m as int));
    }
    e
}

/// The full contract of the expansion: the echo line always comes first;
/// each failure is returned exactly on the inputs that provoke it; on
/// success the header line and then every determinant line of the model
/// follow, so the whole output is a function of the inputs alone.
pub open spec fn csf2det_post(
    s: Seq<char>,
    twoms: i32,
    lines: Seq<String>,
    res: Result<String, CsfError>,
) -> bool {
    &&& lines.len() >= 1
    &&& lines[0]@ == echo_str(s, twoms as int)
    &&& if !all_steps_ok(s) {
        &&& res == Result::<String, CsfError>::Err(
            CsfError::InvalidStep(s[first_bad_from(s, 0) as int]),
        )
        &&& lines.len() == 1
    } else if !feasible(s, twoms as int) {
        &&& res == Result::<String, CsfError>::Err(
            CsfError::InfeasibleMs { twoms, spin: tab_b(s, s.len()) as i32 },
        )
        &&& lines.len() == 1
    } else {
        &&& res matches Result::Ok(msg) && msg@ == "done!"@
        &&& lines.len() == 2 + det_lines(s, twoms as int).len()
        &&& lines[1]@ == header_str(2 * tab_a(s, s.len()) + tab_b(s, s.len()), s.len() as int)
        &&& forall|j: int|
            0 <= j < det_lines(s, twoms as int).len() ==> lines[j + 2]@ == det_lines(
                s,
                twoms as int,
            )[j]
    }
}

/// Expand a configuration state function, given as a step vector and twice
/// the spin projection, into its Slater determinants.
///
/// Returns the output lines (the echo line; on success also the header line
/// and one line per nonzero-coefficient determinant) together with the
/// outcome: the completion message, or the descriptive failure.
#[verifier::rlimit(100)]
pub fn csf2det(stepvec: &str, twoms: i32) -> (r: (Vec<String>, Result<String, CsfError>))
    requires
        1 <= stepvec@.len() <= MAX_ORBITALS,
        twoms != i32::MIN,
    ensures
        csf2det_post(stepvec@, twoms, r.0@, r.1),
{
    let ghost s = stepvec@;
    let n = stepvec.unicode_len();
    proof {
        crate::frac::lemma_simp_shrinks(twoms as int, 2);
    }
    let msf = Fraction { nom: twoms as i128, denom: 2 }.simplify();
    let mut echo = String::from_str("CSF: ");
    echo.append(stepvec);
    echo.append(", Ms: ");
    let msr = msf.render();
    echo.append(msr.as_str());
    proof {
        reveal_strlit("CSF: ");
        reveal_strlit(", Ms: ");
        assert(echo@ =~= echo_str(s, twoms as int));
    }
    let mut lines: Vec<String> = Vec::new();
    lines.push(echo);
    let t = match pauling_tableau(stepvec) {
        Ok(t) => t,
        Err(ch) => {
            return (lines, Err(CsfError::InvalidStep(ch)));
        },
    };
    proof {
        crate::tableau::lemma_tab_bounds(s, s.len() as nat);
        crate::tableau::lemma_electron_count(s, s.len() as nat);
        crate::tableau::lemma_b_somo_parity(s, s.len() as nat);
    }
    let spin: i32 = t.b[n - 1];
    let n_e: i32 = 2 * t.a[n - 1] + spin;
    let tm_abs: i32 = if twoms < 0 {
        -twoms
    } else {
        twoms
    };
    if tm_abs > spin {
        return (lines, Err(CsfError::InfeasibleMs { twoms, spin }));
    }
    let sodd = is_odd_i32(spin + twoms);
    if sodd {
        return (lines, Err(CsfError::InfeasibleMs { twoms, spin }));
    }
    assert(feasible(s, twoms as int));
    let mut header = String::from_str("Determinants for ");
    let t1 = int_to_string(n_e as i128);
    header.append(t1.as_str());
    header.append(" electrons in ");
    let t2 = int_to_string(n as i128);
    header.append(t2.as_str());
    header.append(" orbitals:");
    proof {
        reveal_strlit("Determinants for ");
        reveal_strlit(" electrons in ");
        reveal_strlit(" orbitals:");
        assert(header@ =~= header_str(2 * tab_a(s, s.len()) + tab_b(s, s.len()), s.len() as int));
    }
    lines.push(header);
    let m: usize = t.n_somo;
    let num: i32 = m as i32 + twoms;
    let k: usize = ((num as u32) / 2) as usize;
    proof {
        lemma_div_is_ordered(num as int, 2 * (m as int), 2);
        lemma_div_multiples_vanish(m as int, 2);
        assert(k as int == spec_n_alpha(s, twoms as int));
        assert(k <= m);
    }
    let mut lex: Vec<usize> = Vec::new();
    let mut j: usize = 0;
    while j < k
        invariant
            j <= k,
            lex@.len() == j,
            forall|q: int| 0 <= q < j ==> (#[trigger] lex@[q] as int) == q,
        decreases k - j,
    {
        lex.push(j);
        j = j + 1;
    }
    let mut comb = Combination { n: m, k, lex };
    proof {
        assert(comb.well_formed());
        assert(comb.lex@ =~= init_lex(k as int));
    }
    let ghost full = det_lines(s, twoms as int);
    proof {
        assert(m as int == somo_count(s, s.len()));
        assert(full == chain_lines(s, comb_chain(m, k, comb.lex@)));
        if k >= 1 {
            assert forall|q: int|
                0 <= q < comb.lex@.len() implies (#[trigger] comb.lex@[q] as int) < m by {
                assert((comb.lex@[q] as int) <= m - k + q);
            }
            lemma_lex_val_bounds(m as int, comb.lex@);
        } else {
            vstd::arithmetic::power::lemma_pow0(m as int);
        }
    }
    let mut more = true;
    while more
        invariant
            s == stepvec@,
            n == s.len(),
            1 <= s.len() <= MAX_ORBITALS,
            all_steps_ok(s),
            tableau_matches(t, s),
            m as int == somo_count(s, s.len()),
            comb.well_formed(),
            comb.n == m,
            comb.k == k,
            lines@.len() >= 2,
            lines@[0]@ == echo_str(s, twoms as int),
            lines@[1]@ == header_str(2 * tab_a(s, s.len()) + tab_b(s, s.len()), s.len() as int),
            full == det_lines(s, twoms as int),
            0 <= lex_val(m as int, comb.lex@) < pow(m as int, k as nat),
            more ==> views_of(lines@.skip(2)) + chain_lines(s, comb_chain(m, k, comb.lex@))
                == full,
            !more ==> views_of(lines@.skip(2)) == full,
        decreases pow(m as int, k as nat) - lex_val(m as int, comb.lex@), (if more {
            1int
        } else {
            0int
        }),
    {
        let ghost cur = comb.lex@;
        let ghost lv0 = views_of(lines@.skip(2));
        let eigv = eigv_for(&comb, m);
        let (ph, fr, det) = determinant_for(stepvec, &t, &eigv);
        let ghost w = walk(s, comb_eigv(cur, m as int), s.len());
        proof {
            lemma_walk_magnitude(s, comb_eigv(cur, m as int), s.len());
            lemma2_to64();
            lemma2_to64_rest();
            lemma_pow2_adds(60, 60);
            assert(pow2(60) * pow2(60) == 0x1000000000000000000000000000000) by (nonlinear_arith)
                requires
                    pow2(60) == 0x1000000000000000,
            ;
            if 6 * s.len() < 120 {
                lemma_pow2_strictly_increases(6 * s.len(), 120);
            }
            assert(abs(w.nom) <= pow2(120));
            assert(abs(w.denom) <= pow2(120));
        }
        if fr.nom != 0 {
            let line = det_line(ph, &fr, &det);
            lines.push(line);
        }
        proof {
            let chain = comb_chain(m, k, cur);
            assert(chain[0] == cur);
            let mline = if w.nom != 0 {
                seq![det_line_str(w.phase, w.nom, w.denom, w.det)]
            } else {
                Seq::<Seq<char>>::empty()
            };
            assert(chain_lines(s, chain) == mline + chain_lines(s, chain.drop_first()));
            assert(views_of(lines@.skip(2)) =~= lv0 + mline);
        }
        more = next_combination(&mut comb);
        proof {
            lemma_next_lex_increases(m as int, k as int, cur);
            let chain = comb_chain(m, k, cur);
            if more {
                assert(comb.lex@ == next_lex(m as int, k as int, cur)->Some_0);
                assert(chain.drop_first() =~= comb_chain(m, k, comb.lex@));
                assert forall|q: int|
                    0 <= q < comb.lex@.len() implies (#[trigger] comb.lex@[q] as int) < m by {
                    assert((comb.lex@[q] as int) <= m - k + q);
                }
                lemma_lex_val_bounds(m as int, comb.lex@);
                assert(views_of(lines@.skip(2)) + chain_lines(s, comb_chain(m, k, comb.lex@))
                    =~= full);
            } else {
                assert(next_lex(m as int, k as int, cur) is None);
                assert(chain =~= seq![cur]);
                assert(chain.drop_first() =~= Seq::<Seq<usize>>::empty());
                assert(chain_lines(s, chain.drop_first()) == Seq::<Seq<char>>::empty());
                assert(views_of(lines@.skip(2)) =~= full);
            }
        }
    }
    let done = String::from_str("done!");
    proof {
        reveal_strlit("done!");
        assert(lines@.len() == 2 + full.len());
        assert forall|q: int| 0 <= q < full.len() implies lines@[q + 2]@ == full[q] by {
            assert(views_of(lines@.skip(2))[q] == lines@.skip(2)[q]@);
            assert(lines@.skip(2)[q] == lines@[q + 2]);
        }
    }
    (lines, Ok(done))
}

/// Occurrences of one character in a string.
pub open spec fn count_char(q: Seq<char>, c: char) -> int
    decreases q.len(),
{
    if q.len() == 0 {
        0
    } else {
        count_char(q.drop_last(), c) + if q.last() == c {
            1int
        } else {
            0int
        }
    }
}

/// Shape of every determinant string the walk builds: one symbol per
/// orbital scanned, each of them 0, 2, a or b; as many 2 symbols as the
/// step vector has doubly occupied orbitals; and as many a plus b symbols
/// as it has singly occupied ones.
pub proof fn lemma_determinant_shape(s: Seq<char>, eigv: Seq<int>, n: nat)
    requires
        n <= s.len(),
        all_steps_ok(s),
    ensures
        ({
            let w = walk(s, eigv, n);
            &&& w.det.len() == n
            &&& forall|i: int|
                0 <= i < n ==> (#[trigger] w.det[i] == '0' || w.det[i] == '2' || w.det[i] == 'a'
                    || w.det[i] == 'b')
            &&& count_char(w.det, '2') == count2(s, n)
            &&& count_char(w.det, 'a') + count_char(w.det, 'b') == somo_count(s, n)
        }),
    decreases n,
{
    if n > 0 {
        lemma_determinant_shape(s, eigv, (n - 1) as nat);
        let w0 = walk(s, eigv, (n - 1) as nat);
        let w1 = walk(s, eigv, n);
        let ch = s[n - 1];
        let pushed = if ch == '0' {
            '0'
        } else if ch == '2' {
            '2'
        } else if eigv[w0.i_somo] == 1 {
            'a'
        } else {
            'b'
        };
        assert(w1.det == w0.det.push(pushed));
        assert(w0.det.push(pushed).drop_last() =~= w0.det);
        assert(w0.det.push(pushed).last() == pushed);
        assert forall|i: int|
            0 <= i < n implies (#[trigger] w1.det[i] == '0' || w1.det[i] == '2' || w1.det[i]
                == 'a' || w1.det[i] == 'b') by {
            if i < n - 1 {
                assert(w1.det[i] == w0.det[i]);
            }
        }
    }
}

/// Along a stretch with no singly occupied orbital the walk keeps phase +1
/// and the coefficient fraction one over one.
proof fn lemma_walk_no_somo(s: Seq<char>, eigv: Seq<int>, n: nat)
    requires
        n <= s.len(),
        all_steps_ok(s),
        somo_count(s, n) == 0,
    ensures
        walk(s, eigv, n).phase == 1,
        walk(s, eigv, n).nom == 1,
        walk(s, eigv, n).denom == 1,
    decreases n,
{
    if n > 0 {
        crate::tableau::lemma_tab_bounds(s, (n - 1) as nat);
        crate::tableau::lemma_tab_bounds(s, n);
        lemma_walk_no_somo(s, eigv, (n - 1) as nat);
        crate::frac::lemma_simp_unit();
    }
}

/// A step vector with no singly occupied orbital, at projection zero,
/// yields exactly one determinant, with coefficient plus one.
pub proof fn lemma_closed_shell(s: Seq<char>)
    requires
        all_steps_ok(s),
        somo_count(s, s.len()) == 0,
    ensures
        spec_n_alpha(s, 0) == 0,
        det_lines(s, 0).len() == 1,
        det_lines(s, 0)[0] == det_line_str(
            1,
            1,
            1,
            walk(s, comb_eigv(init_lex(0), 0), s.len()).det,
        ),
{
    assert(spec_n_alpha(s, 0) == 0) by {
        assert((0int + 0) / 2 == 0);
    }
    let lex0 = init_lex(0);
    assert(lex0 =~= Seq::<usize>::empty());
    assert(wf_lex(0, 0, lex0));
    assert(next_lex(0, 0, lex0) is None);
    let chain = comb_chain(0, 0, lex0);
    assert(chain == seq![lex0]);
    let w = walk(s, comb_eigv(lex0, 0), s.len());
    lemma_walk_no_somo(s, comb_eigv(lex0, 0), s.len());
    assert(chain.drop_first() =~= Seq::<Seq<usize>>::empty());
    assert(chain_lines(s, chain.drop_first()) == Seq::<Seq<char>>::empty());
    assert(chain_lines(s, chain) =~= seq![det_line_str(w.phase, w.nom, w.denom, w.det)]);
    assert(det_lines(s, 0) == chain_lines(s, chain));
}

/// Along an enumeration every combination is well formed and the base-n
/// values strictly increase, so no combination is ever visited twice.
pub proof fn lemma_chain_distinct(n: usize, k: usize, lex: Seq<usize>)
    requires
        wf_lex(n as int, k as int, lex),
    ensures
        ({
            let ch = comb_chain(n, k, lex);
            &&& ch.len() >= 1
            &&& ch[0] == lex
            &&& forall|i: int|
                0 <= i < ch.len() ==> wf_lex(n as int, k as int, #[trigger] ch[i])
            &&& forall|i: int, j: int|
                0 <= i < j < ch.len() ==> lex_val(n as int, ch[i]) < lex_val(n as int, ch[j])
        }),
    decreases pow(n as int, k as nat) - lex_val(n as int, lex),
{
    lemma_next_lex_increases(n as int, k as int, lex);
    if next_lex(n as int, k as int, lex) is Some {
        let l2 = next_lex(n as int, k as int, lex)->Some_0;
        assert(k >= 1 && n >= 1);
        assert forall|i: int| 0 <= i < l2.len() implies (#[trigger] l2[i] as int) < n by {
            assert((l2[i] as int) <= n - k + i);
        }
        assert forall|i: int| 0 <= i < lex.len() implies (#[trigger] lex[i] as int) < n by {
            assert((lex[i] as int) <= n - k + i);
        }
        lemma_lex_val_bounds(n as int, l2);
        lemma_lex_val_bounds(n as int, lex);
        lemma_chain_distinct(n, k, l2);
        let ch = comb_chain(n, k, lex);
        let tail = comb_chain(n, k, l2);
        assert(ch == seq![lex] + tail);
        assert(tail[0] == l2);
        assert forall|i: int|
            0 <= i < ch.len() implies wf_lex(n as int, k as int, #[trigger] ch[i]) by {
            if i > 0 {
                assert(ch[i] == tail[i - 1]);
            }
        }
        assert forall|i: int, j: int|
            0 <= i < j < ch.len() implies lex_val(n as int, ch[i]) < lex_val(
            n as int,
            ch[j],
        ) by {
            assert(ch[j] == tail[j - 1]);
            if i == 0 {
                if j > 1 {
                    assert(lex_val(n as int, tail[0]) < lex_val(n as int, tail[j - 1]));
                }
            } else {
                assert(ch[i] == tail[i - 1]);
            }
        }
    }
}

/// Every well-formed combination at or beyond the given one appears in the
/// enumeration from it.
proof fn lemma_chain_complete(n: usize, k: usize, lex: Seq<usize>, l: Seq<usize>)
    requires
        wf_lex(n as int, k as int, lex),
        wf_lex(n as int, k as int, l),
        lex_val(n as int, lex) <= lex_val(n as int, l),
    ensures
        comb_chain(n, k, lex).contains(l),
    decreases pow(n as int, k as nat) - lex_val(n as int, lex),
{
    let gn = n as int;
    let gk = k as int;
    let ch = comb_chain(n, k, lex);
    assert(ch[0] == lex);
    if l =~= lex {
        assert(ch.contains(l));
    } else {
        assert(lex_val(gn, lex) < lex_val(gn, l)) by {
            crate::comb::lemma_first_diff_strict(n, k, lex, l);
        }
        if next_lex(gn, gk, lex) is None {
            crate::comb::lemma_exhausted_is_max(n, k, lex, l);
            assert(false);
        }
        let l2 = next_lex(gn, gk, lex)->Some_0;
        lemma_next_lex_increases(gn, gk, lex);
        assert(k >= 1 && n >= 1);
        assert forall|i: int| 0 <= i < l2.len() implies (#[trigger] l2[i] as int) < gn by {
            assert((l2[i] as int) <= gn - gk + i);
        }
        assert forall|i: int| 0 <= i < lex.len() implies (#[trigger] lex[i] as int) < gn by {
            assert((lex[i] as int) <= gn - gk + i);
        }
        lemma_lex_val_bounds(gn, l2);
        lemma_lex_val_bounds(gn, lex);
        crate::comb::lemma_next_is_immediate(n, k, lex, l);
        lemma_chain_complete(n, k, l2, l);
        let tail = comb_chain(n, k, l2);
        assert(ch == seq![lex] + tail);
        let q = choose|q: int| 0 <= q < tail.len() && tail[q] == l;
        assert(ch[q + 1] == l);
        assert(ch.contains(l));
    }
}

/// The enumeration, started from the first combination, visits every
/// well-formed combination; by the strict increase of values along the
/// chain, each of them exactly once.
pub proof fn lemma_enumeration_visits_all(n: usize, k: usize, l: Seq<usize>)
    requires
        wf_lex(n as int, k as int, l),
    ensures
        comb_chain(n, k, init_lex(k as int)).contains(l),
{
    let gn = n as int;
    let gk = k as int;
    let ini = init_lex(k as int);
    assert(wf_lex(gn, gk, ini));
    assert forall|i: int| 0 <= i < l.len() implies ini[i] <= l[i] by {
        crate::comb::lemma_wf_entry_min(gn, gk, l, i);
    }
    if k == 0 {
        assert(l =~= ini);
        lemma_chain_complete(n, k, ini, l);
    } else {
        assert forall|i: int| 0 <= i < l.len() implies (#[trigger] l[i] as int) < gn by {
            assert((l[i] as int) <= gn - gk + i);
        }
        assert forall|i: int| 0 <= i < ini.len() implies (#[trigger] ini[i] as int) < gn by {
            assert((ini[i] as int) <= gn - gk + i);
        }
        crate::comb::lemma_lex_val_pointwise_le(gn, ini, l);
        lemma_chain_complete(n, k, ini, l);
    }
}

/// Combinations whose coefficient numerator simplifies to zero: their
/// determinants are physically forbidden and produce no line.
pub open spec fn forbidden_count(s: Seq<char>, chain: Seq<Seq<usize>>) -> int
    decreases chain.len(),
{
    if chain.len() == 0 {
        0
    } else {
        (if walk(s, comb_eigv(chain[0], somo_count(s, s.len())), s.len()).nom == 0 {
            1int
        } else {
            0int
        }) + forbidden_count(s, chain.drop_first())
    }
}

/// One determinant line per enumerated combination, less the forbidden ones.
pub proof fn lemma_line_count(s: Seq<char>, chain: Seq<Seq<usize>>)
    ensures
        chain_lines(s, chain).len() == chain.len() - forbidden_count(s, chain),
    decreases chain.len(),
{
    if chain.len() > 0 {
        lemma_line_count(s, chain.drop_first());
    }
}

} // verus!
