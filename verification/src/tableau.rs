use vstd::prelude::*;

verus! {

use vstd::arithmetic::div_mod::lemma_mod_add_multiples_vanish;
use vstd::math::abs;
use vstd::string::StrSliceExecFns;

/// The step-vector alphabet: empty orbital, up-coupled, down-coupled,
/// doubly occupied.
pub open spec fn step_ok(ch: char) -> bool {
    ch == '0' || ch == 'u' || ch == 'd' || ch == '2'
}

pub open spec fn all_steps_ok(s: Seq<char>) -> bool {
    forall|i: int| 0 <= i < s.len() ==> step_ok(#[trigger] s[i])
}

/// Per-symbol increment of the doubly-occupied counter.
pub open spec fn delta_a(ch: char) -> int {
    if ch == 'd' || ch == '2' {
        1
    } else {
        0
    }
}

/// Per-symbol increment of the running coupled-spin quantum number (times two).
pub open spec fn delta_b(ch: char) -> int {
    if ch == 'u' {
        1
    } else if ch == 'd' {
        -1
    } else {
        0
    }
}

/// Per-symbol increment of the empty-orbital counter.
pub open spec fn delta_c(ch: char) -> int {
    if ch == '0' || ch == 'd' {
        1
    } else {
        0
    }
}

/// Cumulative doubly-occupied contributions over the first n symbols.
pub open spec fn tab_a(s: Seq<char>, n: nat) -> int
    decreases n,
{
    if n == 0 {
        0
    } else {
        tab_a(s, (n - 1) as nat) + delta_a(s[n - 1])
    }
}

/// Running coupled-spin quantum number (times two) over the first n symbols.
pub open spec fn tab_b(s: Seq<char>, n: nat) -> int
    decreases n,
{
    if n == 0 {
        0
    } else {
        tab_b(s, (n - 1) as nat) + delta_b(s[n - 1])
    }
}

/// Cumulative empty-orbital contributions over the first n symbols.
pub open spec fn tab_c(s: Seq<char>, n: nat) -> int
    decreases n,
{
    if n == 0 {
        0
    } else {
        tab_c(s, (n - 1) as nat) + delta_c(s[n - 1])
    }
}

/// Number of singly occupied orbitals (u or d) among the first n symbols.
pub open spec fn somo_count(s: Seq<char>, n: nat) -> int
    decreases n,
{
    if n == 0 {
        0
    } else {
        somo_count(s, (n - 1) as nat) + if s[n - 1] == 'u' || s[n - 1] == 'd' {
            1int
        } else {
            0int
        }
    }
}

/// Number of doubly occupied symbols among the first n.
pub open spec fn count2(s: Seq<char>, n: nat) -> int
    decreases n,
{
    if n == 0 {
        0
    } else {
        count2(s, (n - 1) as nat) + if s[n - 1] == '2' {
            1int
        } else {
            0int
        }
    }
}

/// Index of the first symbol outside the alphabet, or the length if none.
pub open spec fn first_bad_from(s: Seq<char>, i: nat) -> nat
    decreases s.len() - i,
    when i <= s.len()
{
    if i >= s.len() {
        i
    } else if !step_ok(s[i as int]) {
        i
    } else {
        first_bad_from(s, i + 1)
    }
}

/// All tableau counters stay within the number of symbols scanned, and the
/// spin counter within the number of singly occupied orbitals.
pub proof fn lemma_tab_bounds(s: Seq<char>, n: nat)
    ensures
        0 <= tab_a(s, n) <= n,
        -(n as int) <= tab_b(s, n) <= n,
        0 <= tab_c(s, n) <= n,
        0 <= somo_count(s, n) <= n,
        0 <= count2(s, n) <= n,
        abs(tab_b(s, n)) <= somo_count(s, n),
    decreases n,
{
    if n > 0 {
        lemma_tab_bounds(s, (n - 1) as nat);
    }
}

/// The running spin counter has the parity of the number of singly
/// occupied orbitals scanned so far.
pub proof fn lemma_b_somo_parity(s: Seq<char>, n: nat)
    ensures
        tab_b(s, n) % 2 == somo_count(s, n) % 2,
    decreases n,
{
    if n > 0 {
        lemma_b_somo_parity(s, (n - 1) as nat);
        let b0 = tab_b(s, (n - 1) as nat);
        let m0 = somo_count(s, (n - 1) as nat);
        lemma_mod_add_multiples_vanish(b0 - 1, 2);
        lemma_mod_add_multiples_vanish(b0, 2);
        lemma_mod_add_multiples_vanish(m0, 2);
    }
}

/// The electron count read off the final tableau entries equals twice the
/// number of doubly occupied orbitals plus the number of singly occupied
/// ones, independent of which orbitals are u versus d.
pub proof fn lemma_electron_count(s: Seq<char>, n: nat)
    ensures
        2 * tab_a(s, n) + tab_b(s, n) == 2 * count2(s, n) + somo_count(s, n),
    decreases n,
{
    if n > 0 {
        lemma_electron_count(s, (n - 1) as nat);
    }
}

proof fn lemma_first_bad_steps(s: Seq<char>, j: nat, i: nat)
    requires
        j <= i < s.len(),
        forall|m: int| j <= m < i ==> step_ok(#[trigger] s[m]),
        !step_ok(s[i as int]),
    ensures
        first_bad_from(s, j) == i,
    decreases i - j,
{
    if j < i {
        lemma_first_bad_steps(s, j + 1, i);
    }
}

/// The cumulative quantum-number arrays of a step vector, plus the count
/// of singly occupied orbitals.
pub struct Tableau {
    pub a: Vec<i32>,
    pub b: Vec<i32>,
    pub c: Vec<i32>,
    pub n_somo: usize,
}

/// The tableau holds exactly the cumulative counters of the step vector.
pub open spec fn tableau_matches(t: Tableau, s: Seq<char>) -> bool {
    &&& t.a@.len() == s.len()
    &&& t.b@.len() == s.len()
    &&& t.c@.len() == s.len()
    &&& forall|i: int|
        0 <= i < s.len() ==> #[trigger] t.a@[i] as int == tab_a(s, (i + 1) as nat)
    &&& forall|i: int|
        0 <= i < s.len() ==> #[trigger] t.b@[i] as int == tab_b(s, (i + 1) as nat)
    &&& forall|i: int|
        0 <= i < s.len() ==> #[trigger] t.c@[i] as int == tab_c(s, (i + 1) as nat)
    &&& t.n_somo as int == somo_count(s, s.len())
}

/// Build the Pauling tableau of a step vector by a left-to-right cumulative
/// scan; fail on the first symbol outside the alphabet, reporting it.
pub fn pauling_tableau(stepvec: &str) -> (r: Result<Tableau, char>)
    requires
        stepvec@.len() <= 0x7fff_ffff,
    ensures
        match r {
            Ok(t) => all_steps_ok(stepvec@) && tableau_matches(t, stepvec@),
            Err(ch) => !all_steps_ok(stepvec@) && ch == stepvec@[first_bad_from(
                stepvec@,
                0,
            ) as int],
        },
{
    let ghost s = stepvec@;
    let n = stepvec.unicode_len();
    let mut a: Vec<i32> = Vec::new();
    let mut b: Vec<i32> = Vec::new();
    let mut c: Vec<i32> = Vec::new();
    let mut n_somo: usize = 0;
    let mut i: usize = 0;
    while i < n
        invariant
            n == s.len(),
            s == stepvec@,
            s.len() <= 0x7fff_ffff,
            i <= n,
            a@.len() == i,
            b@.len() == i,
            c@.len() == i,
            forall|j: int| 0 <= j < i ==> #[trigger] a@[j] as int == tab_a(s, (j + 1) as nat),
            forall|j: int| 0 <= j < i ==> #[trigger] b@[j] as int == tab_b(s, (j + 1) as nat),
            forall|j: int| 0 <= j < i ==> #[trigger] c@[j] as int == tab_c(s, (j + 1) as nat),
            n_somo as int == somo_count(s, i as nat),
            forall|j: int| 0 <= j < i ==> step_ok(#[trigger] s[j]),
        decreases n - i,
    {
        let ch = stepvec.get_char(i);
        proof {
            lemma_tab_bounds(s, i as nat);
            lemma_tab_bounds(s, (i + 1) as nat);
        }
        let pa: i32 = if i == 0 {
            0
        } else {
            a[i - 1]
        };
        let pb: i32 = if i == 0 {
            0
        } else {
            b[i - 1]
        };
        let pc: i32 = if i == 0 {
            0
        } else {
            c[i - 1]
        };
        if ch == '0' {
            a.push(pa);
            b.push(pb);
            c.push(pc + 1);
        } else if ch == 'u' {
            n_somo = n_somo + 1;
            a.push(pa);
            b.push(pb + 1);
            c.push(pc);
        } else if ch == 'd' {
            n_somo = n_somo + 1;
            a.push(pa + 1);
            b.push(pb - 1);
            c.push(pc + 1);
        } else if ch == '2' {
            a.push(pa + 1);
            b.push(pb);
            c.push(pc);
        } else {
            proof {
                lemma_first_bad_steps(s, 0, i as nat);
            }
            return Err(ch);
        }
        i = i + 1;
    }
    Ok(Tableau { a, b, c, n_somo })
}

} // verus!
