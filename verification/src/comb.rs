use vstd::prelude::*;

verus! {

use vstd::arithmetic::power::{lemma_pow_positive, pow};

/// Enumeration state for the fixed-size subsets of {0, …, n-1}, visited in
/// lexicographic order of their increasing index sequences.
pub struct Combination {
    pub n: usize,
    pub k: usize,
    pub lex: Vec<usize>,
}

/// A well-formed k-subset of {0, …, n-1}: strictly increasing indices, each
/// below its largest admissible value.
pub open spec fn wf_lex(n: int, k: int, lex: Seq<usize>) -> bool {
    &&& lex.len() == k
    &&& 0 <= k <= n
    &&& forall|i: int| 0 <= i < k ==> (#[trigger] lex[i] as int) <= n - k + i
    &&& forall|i: int| 0 < i < k ==> lex[i - 1] < #[trigger] lex[i]
}

impl Combination {
    pub open spec fn well_formed(&self) -> bool {
        wf_lex(self.n as int, self.k as int, self.lex@)
    }
}

/// The rightmost position at or below p whose entry is still below its
/// maximum admissible value; -1 if there is none.
pub open spec fn pivot_from(n: int, k: int, lex: Seq<usize>, p: int) -> int
    decreases p + 1,
    when p < lex.len()
{
    if p < 0 {
        -1
    } else if (lex[p] as int) < n - k + p {
        p
    } else {
        pivot_from(n, k, lex, p - 1)
    }
}

/// The lexicographic successor of a combination; None when the enumeration
/// is finished.
pub open spec fn next_lex(n: int, k: int, lex: Seq<usize>) -> Option<Seq<usize>> {
    let p = pivot_from(n, k, lex, k - 1);
    if k == 0 || p < 0 {
        None
    } else {
        Some(
            Seq::new(
                k as nat,
                |i: int|
                    if i < p {
                        lex[i]
                    } else {
                        (lex[p] + 1 + (i - p)) as usize
                    },
            ),
        )
    }
}

/// The entries read as the digits of a base-n number. This value strictly
/// increases along the lexicographic enumeration, so it serves as the
/// termination measure for loops driven by the successor operation.
pub open spec fn lex_val(n: int, lex: Seq<usize>) -> int
    decreases lex.len(),
{
    if lex.len() == 0 {
        0
    } else {
        (lex[0] as int) * pow(n, (lex.len() - 1) as nat) + lex_val(n, lex.drop_first())
    }
}

/// A digit string below base n has a value in [0, n^len).
pub proof fn lemma_lex_val_bounds(n: int, lex: Seq<usize>)
    requires
        n >= 1,
        forall|i: int| 0 <= i < lex.len() ==> (#[trigger] lex[i] as int) < n,
    ensures
        0 <= lex_val(n, lex) < pow(n, lex.len()),
    decreases lex.len(),
{
    reveal(pow);
    if lex.len() == 0 {
        assert(pow(n, 0) == 1);
    } else {
        let tail = lex.drop_first();
        assert(forall|i: int|
            0 <= i < tail.len() ==> (#[trigger] tail[i] as int) < n) by {
            assert(forall|i: int|
                0 <= i < tail.len() ==> tail[i] == lex[i + 1]);
        }
        lemma_lex_val_bounds(n, tail);
        lemma_pow_positive(n, (lex.len() - 1) as nat);
        let p = pow(n, (lex.len() - 1) as nat);
        let d = lex[0] as int;
        let rest = lex_val(n, tail);
        assert(0 <= d * p && d * p + rest < n * p) by (nonlinear_arith)
            requires
                0 <= d,
                d <= n - 1,
                0 <= rest < p,
                p >= 1,
        ;
        assert(pow(n, lex.len()) == n * p);
    }
}

/// If two digit strings of the same length first differ at a position where
/// the second is larger, the second has the larger value.
proof fn lemma_lex_val_compare(n: int, l1: Seq<usize>, l2: Seq<usize>, p: int)
    requires
        n >= 1,
        l1.len() == l2.len(),
        0 <= p < l1.len(),
        forall|i: int| 0 <= i < l1.len() ==> (#[trigger] l1[i] as int) < n,
        forall|i: int| 0 <= i < l2.len() ==> (#[trigger] l2[i] as int) < n,
        forall|i: int| 0 <= i < p ==> l1[i] == l2[i],
        (l1[p] as int) < l2[p] as int,
    ensures
        lex_val(n, l1) < lex_val(n, l2),
    decreases p,
{
    let t1 = l1.drop_first();
    let t2 = l2.drop_first();
    assert(forall|i: int| 0 <= i < t1.len() ==> t1[i] == l1[i + 1]);
    assert(forall|i: int| 0 <= i < t2.len() ==> t2[i] == l2[i + 1]);
    let pw = pow(n, (l1.len() - 1) as nat);
    lemma_pow_positive(n, (l1.len() - 1) as nat);
    if p == 0 {
        lemma_lex_val_bounds(n, t1);
        lemma_lex_val_bounds(n, t2);
        let d1 = l1[0] as int;
        let d2 = l2[0] as int;
        assert(d1 * pw + pw <= d2 * pw) by (nonlinear_arith)
            requires
                d1 + 1 <= d2,
                pw >= 0,
        ;
    } else {
        lemma_lex_val_compare(n, t1, t2, p - 1);
    }
}

/// Everything above the pivot position stands at its maximum.
proof fn lemma_pivot_from(n: int, k: int, lex: Seq<usize>, p: int)
    requires
        wf_lex(n, k, lex),
        -1 <= p < k,
    ensures
        ({
            let r = pivot_from(n, k, lex, p);
            &&& -1 <= r <= p
            &&& (r >= 0 ==> (lex[r] as int) < n - k + r)
            &&& forall|j: int| r < j <= p ==> (#[trigger] lex[j] as int) == n - k + j
        }),
    decreases p + 1,
{
    if p >= 0 && !((lex[p] as int) < n - k + p) {
        lemma_pivot_from(n, k, lex, p - 1);
    }
}

/// The successor of a well-formed combination is well formed and has a
/// strictly larger base-n value.
#[verifier::rlimit(40)]
pub proof fn lemma_next_lex_increases(n: int, k: int, lex: Seq<usize>)
    requires
        wf_lex(n, k, lex),
        n <= usize::MAX,
    ensures
        next_lex(n, k, lex) matches Some(l2) ==> wf_lex(n, k, l2) && lex_val(n, lex) < lex_val(
            n,
            l2,
        ),
{
    if next_lex(n, k, lex) is Some {
        let p = pivot_from(n, k, lex, k - 1);
        lemma_pivot_from(n, k, lex, k - 1);
        let l2 = next_lex(n, k, lex)->Some_0;
        assert(wf_lex(n, k, l2)) by {
            assert forall|i: int| 0 <= i < k implies (#[trigger] l2[i] as int) <= n - k + i by {
                if i >= p {
                    assert((lex[p] as int) < n - k + p);
                    assert(0 <= (lex[p] as int) + 1 + (i - p) <= n);
                }
            }
            assert forall|i: int| 0 < i < k implies l2[i - 1] < #[trigger] l2[i] by {
                if i - 1 >= p {
                    assert((lex[p] as int) < n - k + p);
                    assert(0 <= (lex[p] as int) + 1 + (i - 1 - p));
                    assert((lex[p] as int) + 1 + (i - p) <= n);
                } else if i == p {
                    assert(lex[i - 1] < lex[i]);
                    assert(0 <= (lex[p] as int) + 1 <= n);
                }
            }
        }
        assert(forall|i: int| 0 <= i < k ==> (#[trigger] lex[i] as int) < n);
        assert(forall|i: int| 0 <= i < k ==> (#[trigger] l2[i] as int) < n);
        lemma_lex_val_compare(n, lex, l2, p);
    }
}

/// Advance to the next combination in lexicographic order, in place; report
/// whether there was one. Exactly the successor operation of `next_lex`:
/// scan from the right for the first position below its maximum, increment
/// it, and reset every later position to consecutive following values.
#[verifier::rlimit(100)]
pub fn next_combination(c: &mut Combination) -> (more: bool)
    requires
        old(c).well_formed(),
    ensures
        final(c).n == old(c).n,
        final(c).k == old(c).k,
        final(c).well_formed(),
        match next_lex(old(c).n as int, old(c).k as int, old(c).lex@) {
            Some(l2) => more && final(c).lex@ == l2,
            None => !more && final(c).lex@ == old(c).lex@,
        },
{
    let ghost gn = c.n as int;
    let ghost gk = c.k as int;
    let ghost glex = c.lex@;
    proof {
        lemma_next_lex_increases(gn, gk, glex);
    }
    if c.k == 0 {
        return false;
    }
    let mut ptr: usize = c.k - 1;
    while c.lex[ptr] == c.n - c.k + ptr
        invariant
            c.n == old(c).n,
            c.k == old(c).k,
            c.lex@ == old(c).lex@,
            c.well_formed(),
            0 < c.k,
            ptr < c.k,
            pivot_from(gn, gk, glex, gk - 1) == pivot_from(gn, gk, glex, ptr as int),
            gn == c.n as int,
            gk == c.k as int,
            glex == c.lex@,
        decreases ptr,
    {
        if ptr == 0 {
            proof {
                assert((glex[0] as int) == gn - gk);
                assert(pivot_from(gn, gk, glex, -1) == -1);
                assert(pivot_from(gn, gk, glex, 0) == -1);
            }
            return false;
        }
        ptr = ptr - 1;
    }
    proof {
        assert(pivot_from(gn, gk, glex, ptr as int) == ptr as int);
    }
    let p = ptr;
    let base = c.lex[p] + 1;
    c.lex.set(p, base);
    let mut i: usize = 1;
    while i < c.k - p
        invariant
            c.n == old(c).n,
            c.k == old(c).k,
            gn == c.n as int,
            gk == c.k as int,
            wf_lex(gn, gk, glex),
            glex == old(c).lex@,
            p < c.k,
            base as int == glex[p as int] + 1,
            base as int <= gn - gk + p + 1,
            1 <= i <= c.k - p,
            c.lex@.len() == c.k,
            forall|j: int| 0 <= j < p ==> c.lex@[j] == glex[j],
            c.lex@[p as int] == base,
            forall|j: int| p < j < p + i ==> (#[trigger] c.lex@[j] as int) == base + (j - p),
            forall|j: int| p + i <= j < c.k ==> c.lex@[j] == glex[j],
        decreases c.k - p - i,
    {
        c.lex.set(p + i, base + i);
        i = i + 1;
    }
    proof {
        let l2 = next_lex(gn, gk, glex)->Some_0;
        let gp = p as int;
        assert forall|j: int| 0 <= j < gk implies c.lex@[j] == l2[j] by {
            if j > gp {
                assert((c.lex@[j] as int) == base + (j - gp));
            }
        }
        assert(c.lex@ =~= l2);
    }
    true
}

/// Pointwise dominance of digit strings carries over to their values,
/// strictly so where some digit is strictly larger.
proof fn lemma_lex_val_pointwise(n: int, l1: Seq<usize>, l2: Seq<usize>)
    requires
        n >= 1,
        l1.len() == l2.len(),
        forall|i: int| 0 <= i < l1.len() ==> (#[trigger] l1[i] as int) < n,
        forall|i: int| 0 <= i < l2.len() ==> (#[trigger] l2[i] as int) < n,
        forall|i: int| 0 <= i < l1.len() ==> (#[trigger] l1[i]) <= l2[i],
    ensures
        lex_val(n, l1) <= lex_val(n, l2),
        (exists|j: int| 0 <= j < l1.len() && (#[trigger] l1[j]) < l2[j]) ==> lex_val(n, l1)
            < lex_val(n, l2),
    decreases l1.len(),
{
    if l1.len() > 0 {
        let t1 = l1.drop_first();
        let t2 = l2.drop_first();
        assert(forall|i: int| 0 <= i < t1.len() ==> t1[i] == l1[i + 1]);
        assert(forall|i: int| 0 <= i < t2.len() ==> t2[i] == l2[i + 1]);
        lemma_lex_val_pointwise(n, t1, t2);
        lemma_lex_val_bounds(n, t1);
        lemma_lex_val_bounds(n, t2);
        let pw = pow(n, (l1.len() - 1) as nat);
        lemma_pow_positive(n, (l1.len() - 1) as nat);
        let d1 = l1[0] as int;
        let d2 = l2[0] as int;
        assert(d1 * pw <= d2 * pw) by (nonlinear_arith)
            requires
                d1 <= d2,
                pw >= 0,
        ;
        if d1 < d2 {
            assert(d1 * pw + pw <= d2 * pw) by (nonlinear_arith)
                requires
                    d1 + 1 <= d2,
                    pw >= 0,
            ;
        }
        if exists|j: int| 0 <= j < l1.len() && (#[trigger] l1[j]) < l2[j] {
            let j = choose|j: int| 0 <= j < l1.len() && (#[trigger] l1[j]) < l2[j];
            if j > 0 {
                assert(t1[j - 1] < t2[j - 1]);
            }
        }
    }
}

/// The position of the first difference between two equally long strings.
pub open spec fn first_diff(l1: Seq<usize>, l2: Seq<usize>, i: int) -> int
    decreases l1.len() - i,
    when 0 <= i <= l1.len()
{
    if i >= l1.len() {
        i
    } else if l1[i] != l2[i] {
        i
    } else {
        first_diff(l1, l2, i + 1)
    }
}

proof fn lemma_first_diff(l1: Seq<usize>, l2: Seq<usize>, i: int)
    requires
        l1.len() == l2.len(),
        0 <= i <= l1.len(),
    ensures
        ({
            let q = first_diff(l1, l2, i);
            &&& i <= q <= l1.len()
            &&& (q < l1.len() ==> l1[q] != l2[q])
            &&& forall|j: int| i <= j < q ==> l1[j] == l2[j]
            &&& ((exists|j: int| i <= j < l1.len() && l1[j] != l2[j]) ==> q < l1.len())
        }),
    decreases l1.len() - i,
{
    if i < l1.len() && l1[i] == l2[i] {
        lemma_first_diff(l1, l2, i + 1);
    }
}

/// In a strictly increasing sequence, later entries exceed earlier ones by
/// at least the distance between the positions.
proof fn lemma_wf_suffix_min(n: int, k: int, lex: Seq<usize>, p: int, j: int)
    requires
        wf_lex(n, k, lex),
        0 <= p <= j < k,
    ensures
        (lex[j] as int) >= lex[p] + (j - p),
    decreases j - p,
{
    if p < j {
        lemma_wf_suffix_min(n, k, lex, p, j - 1);
        assert(lex[j - 1] < lex[j]);
    }
}

/// When the successor operation reports exhaustion, the current combination
/// has the largest value of any well-formed one.
pub proof fn lemma_exhausted_is_max(n: usize, k: usize, lex: Seq<usize>, l: Seq<usize>)
    requires
        wf_lex(n as int, k as int, lex),
        wf_lex(n as int, k as int, l),
        next_lex(n as int, k as int, lex) is None,
    ensures
        lex_val(n as int, l) <= lex_val(n as int, lex),
{
    let gn = n as int;
    let gk = k as int;
    if k == 0 {
        assert(l =~= lex);
    } else {
        lemma_pivot_from(gn, gk, lex, gk - 1);
        assert(forall|j: int| 0 <= j < gk ==> (#[trigger] lex[j] as int) == gn - gk + j);
        assert forall|i: int| 0 <= i < l.len() implies (#[trigger] l[i]) <= lex[i] by {
            assert((l[i] as int) <= gn - gk + i);
        }
        assert forall|i: int| 0 <= i < l.len() implies (#[trigger] l[i] as int) < gn by {
            assert((l[i] as int) <= gn - gk + i);
        }
        assert(forall|i: int| 0 <= i < lex.len() ==> (#[trigger] lex[i] as int) < gn);
        lemma_lex_val_pointwise(gn, l, lex);
    }
}

/// The entries of the successor, position by position: unchanged below the
/// pivot, consecutive values from the incremented pivot onward.
proof fn lemma_next_lex_entries(n: int, k: int, lex: Seq<usize>)
    requires
        wf_lex(n, k, lex),
        n <= usize::MAX,
        next_lex(n, k, lex) is Some,
    ensures
        ({
            let p = pivot_from(n, k, lex, k - 1);
            let l2 = next_lex(n, k, lex)->Some_0;
            &&& 0 <= p < k
            &&& (lex[p] as int) < n - k + p
            &&& forall|j: int| p < j < k ==> (#[trigger] lex[j] as int) == n - k + j
            &&& l2.len() == k
            &&& forall|j: int| 0 <= j < p ==> l2[j] == lex[j]
            &&& forall|j: int| p <= j < k ==> (#[trigger] l2[j] as int) == lex[p] + 1 + (j - p)
            &&& wf_lex(n, k, l2)
        }),
{
    let p = pivot_from(n, k, lex, k - 1);
    let l2 = next_lex(n, k, lex)->Some_0;
    lemma_pivot_from(n, k, lex, k - 1);
    lemma_next_lex_increases(n, k, lex);
    assert forall|j: int| p <= j < k implies (#[trigger] l2[j] as int) == lex[p] + 1 + (j
        - p) by {
        assert(0 <= (lex[p] as int) + 1 + (j - p) <= n);
    }
}

/// The successor is the immediate one: any well-formed combination beyond
/// the current one is the successor itself or lies beyond it.
#[verifier::rlimit(100)]
#[verifier::spinoff_prover]
pub proof fn lemma_next_is_immediate(n: usize, k: usize, lex: Seq<usize>, l: Seq<usize>)
    requires
        wf_lex(n as int, k as int, lex),
        wf_lex(n as int, k as int, l),
        next_lex(n as int, k as int, lex) is Some,
        lex_val(n as int, lex) < lex_val(n as int, l),
    ensures
        ({
            let l2 = next_lex(n as int, k as int, lex)->Some_0;
            l == l2 || lex_val(n as int, l2) < lex_val(n as int, l)
        }),
{
    let gn = n as int;
    let gk = k as int;
    let p = pivot_from(gn, gk, lex, gk - 1);
    lemma_next_lex_entries(gn, gk, lex);
    let l2 = next_lex(gn, gk, lex)->Some_0;
    assert(forall|i: int| 0 <= i < gk ==> (#[trigger] lex[i] as int) < gn);
    assert(forall|i: int| 0 <= i < gk ==> (#[trigger] l[i] as int) < gn);
    assert(forall|i: int| 0 <= i < gk ==> (#[trigger] l2[i] as int) < gn);
    lemma_first_diff(lex, l, 0);
    let q = first_diff(lex, l, 0);
    if q >= l.len() {
        assert(lex =~= l);
        assert(false);
    }
    if (l[q] as int) < lex[q] as int {
        lemma_lex_val_compare(gn, l, lex, q);
        assert(false);
    }
    if q < p {
        assert(l2[q] == lex[q]);
        lemma_lex_val_compare(gn, l2, l, q);
    } else if q > p {
        assert((lex[q] as int) == gn - gk + q);
        assert((l[q] as int) <= gn - gk + q);
        assert(false);
    } else {
        if (l2[p] as int) < l[p] as int {
            lemma_lex_val_compare(gn, l2, l, p);
        } else {
            assert(l2[p] as int == lex[p] + 1);
            assert(l2[p] == l[p]);
            assert forall|j: int| 0 <= j < gk implies (#[trigger] l2[j]) <= l[j] by {
                if j < p {
                    assert(l[j] == lex[j]);
                } else if j > p {
                    lemma_wf_suffix_min(gn, gk, l, p, j);
                    assert((l2[j] as int) == lex[p] + 1 + (j - p));
                }
            }
            if forall|j: int| 0 <= j < gk ==> (#[trigger] l2[j]) == l[j] {
                assert(l2 =~= l);
            } else {
                lemma_first_diff(l2, l, 0);
                let w = first_diff(l2, l, 0);
                assert(w < gk);
                assert(l2[w] < l[w]);
                lemma_lex_val_pointwise(gn, l2, l);
            }
        }
    }
}

/// Pointwise dominance alone, for callers that need only the weak bound.
pub proof fn lemma_lex_val_pointwise_le(n: int, l1: Seq<usize>, l2: Seq<usize>)
    requires
        n >= 1,
        l1.len() == l2.len(),
        forall|i: int| 0 <= i < l1.len() ==> (#[trigger] l1[i] as int) < n,
        forall|i: int| 0 <= i < l2.len() ==> (#[trigger] l2[i] as int) < n,
        forall|i: int| 0 <= i < l1.len() ==> (#[trigger] l1[i]) <= l2[i],
    ensures
        lex_val(n, l1) <= lex_val(n, l2),
{
    lemma_lex_val_pointwise(n, l1, l2);
}

/// Every entry of a well-formed combination is at least its position.
pub proof fn lemma_wf_entry_min(n: int, k: int, lex: Seq<usize>, i: int)
    requires
        wf_lex(n, k, lex),
        0 <= i < k,
    ensures
        (lex[i] as int) >= i,
    decreases i,
{
    if i > 0 {
        lemma_wf_entry_min(n, k, lex, i - 1);
        assert(lex[i - 1] < lex[i]);
    }
}

/// Two equally long strings that differ somewhere have different values:
/// the one that is larger at the first difference has the larger value.
pub proof fn lemma_first_diff_strict(n: usize, k: usize, l1: Seq<usize>, l2: Seq<usize>)
    requires
        wf_lex(n as int, k as int, l1),
        wf_lex(n as int, k as int, l2),
        !(l1 =~= l2),
        lex_val(n as int, l1) <= lex_val(n as int, l2),
    ensures
        lex_val(n as int, l1) < lex_val(n as int, l2),
{
    let gn = n as int;
    let gk = k as int;
    assert(k >= 1);
    assert forall|i: int| 0 <= i < l1.len() implies (#[trigger] l1[i] as int) < gn by {
        assert((l1[i] as int) <= gn - gk + i);
    }
    assert forall|i: int| 0 <= i < l2.len() implies (#[trigger] l2[i] as int) < gn by {
        assert((l2[i] as int) <= gn - gk + i);
    }
    lemma_first_diff(l1, l2, 0);
    let q = first_diff(l1, l2, 0);
    if q >= l1.len() {
        assert(l1 =~= l2);
    } else {
        if (l2[q] as int) < l1[q] as int {
            lemma_lex_val_compare(gn, l2, l1, q);
            assert(false);
        } else {
            lemma_lex_val_compare(gn, l1, l2, q);
        }
    }
}

} // verus!
