//! Sums over index ranges and over permutations of them.
use vstd::prelude::*;
use vstd::set_lib::{lemma_int_range, lemma_len_subset, set_int_range};

verus! {

/// `f(0) + ... + f(n - 1)`.
pub open spec fn sum_range(f: spec_fn(int) -> nat, n: nat) -> nat
    decreases n,
{
    if n == 0 {
        0
    } else {
        sum_range(f, (n - 1) as nat) + f(n - 1)
    }
}

/// `f(s[0]) + ... + f(s[len - 1])`.
pub open spec fn sum_seq(f: spec_fn(int) -> nat, s: Seq<int>) -> nat
    decreases s.len(),
{
    if s.len() == 0 {
        0
    } else {
        sum_seq(f, s.drop_last()) + f(s.last())
    }
}

/// `s` lists every index below `n` exactly once.
pub open spec fn is_perm(s: Seq<int>, n: nat) -> bool {
    &&& s.len() == n
    &&& s.no_duplicates()
    &&& forall|k: int| 0 <= k < s.len() ==> 0 <= #[trigger] s[k] < n
}

/// Removing one element takes its term out of the sum.
pub proof fn lemma_sum_seq_remove(f: spec_fn(int) -> nat, s: Seq<int>, k: int)
    requires
        0 <= k < s.len(),
    ensures
        sum_seq(f, s) == sum_seq(f, s.remove(k)) + f(s[k]),
    decreases s.len(),
{
    if k == s.len() - 1 {
        assert(s.remove(k) =~= s.drop_last());
    } else {
        let dl = s.drop_last();
        lemma_sum_seq_remove(f, dl, k);
        assert(dl.remove(k) =~= s.remove(k).drop_last());
        assert(s.remove(k).last() == s.last());
    }
}

/// A prefix sums to at most the whole; one more element adds its term.
pub proof fn lemma_sum_seq_take(f: spec_fn(int) -> nat, s: Seq<int>, k: int)
    requires
        0 <= k < s.len(),
    ensures
        sum_seq(f, s.take(k + 1)) == sum_seq(f, s.take(k)) + f(s[k]),
        sum_seq(f, s.take(k + 1)) <= sum_seq(f, s),
    decreases s.len(),
{
    assert(s.take(k + 1).drop_last() =~= s.take(k));
    if k + 1 < s.len() {
        lemma_sum_seq_take(f, s.drop_last(), k);
        assert(s.drop_last().take(k + 1) =~= s.take(k + 1));
    } else {
        assert(s.take(k + 1) =~= s);
    }
}

/// A permutation of `0..n` contains `n - 1`.
proof fn lemma_perm_has_top(s: Seq<int>, n: nat) -> (k: int)
    requires
        n > 0,
        is_perm(s, n),
    ensures
        0 <= k < s.len(),
        s[k] == n - 1,
{
    if forall|k: int| 0 <= k < s.len() ==> s[k] != n - 1 {
        s.unique_seq_to_set();
        lemma_int_range(0, n - 1);
        assert(s.to_set().subset_of(set_int_range(0, n - 1))) by {
            assert forall|v: int| #[trigger] s.to_set().contains(v) implies set_int_range(
                0,
                n - 1,
            ).contains(v) by {
                let i = choose|i: int| 0 <= i < s.len() && s[i] == v;
                assert(s[i] != n - 1);
            }
        }
        lemma_len_subset(s.to_set(), set_int_range(0, n - 1));
        assert(false);
    }
    choose|k: int| 0 <= k < s.len() && s[k] == n - 1
}

/// Summing over a permutation of `0..n` gives the plain range sum.
pub proof fn lemma_sum_perm(f: spec_fn(int) -> nat, s: Seq<int>, n: nat)
    requires
        is_perm(s, n),
    ensures
        sum_seq(f, s) == sum_range(f, n),
    decreases n,
{
    if n > 0 {
        let k = lemma_perm_has_top(s, n);
        let r = s.remove(k);
        assert forall|i: int| 0 <= i < r.len() implies 0 <= #[trigger] r[i] < n - 1 by {
            if i < k {
                assert(r[i] == s[i]);
            } else {
                assert(r[i] == s[i + 1]);
            }
        }
        assert(r.no_duplicates()) by {
            assert forall|i: int, j: int|
                0 <= i < r.len() && 0 <= j < r.len() && i != j implies r[i] != r[j] by {
                let si = if i < k {
                    i
                } else {
                    i + 1
                };
                let sj = if j < k {
                    j
                } else {
                    j + 1
                };
                assert(r[i] == s[si]);
                assert(r[j] == s[sj]);
            }
        }
        lemma_sum_seq_remove(f, s, k);
        lemma_sum_perm(f, r, (n - 1) as nat);
    }
}

} // verus!
