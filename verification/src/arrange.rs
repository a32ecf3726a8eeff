use vstd::prelude::*;

verus! {

/// `p` lists each index below `n` exactly once.
pub open spec fn is_index_permutation(p: Seq<int>, n: nat) -> bool {
    &&& p.len() == n
    &&& forall|k: int| 0 <= k < n ==> 0 <= #[trigger] p[k] < n
    &&& forall|k1: int, k2: int|
        0 <= k1 < n && 0 <= k2 < n && k1 != k2 ==> #[trigger] p[k1] != #[trigger] p[k2]
    &&& forall|t: int| 0 <= t < n ==> #[trigger] lists_index(p, t)
}

/// Some position of `p` holds `t`.
pub open spec fn lists_index(p: Seq<int>, t: int) -> bool {
    exists|k: int| 0 <= k < p.len() && p[k] == t
}

/// `r` holds the elements of `s`, each as often as `s` does, in some order.
pub open spec fn rearranges<T>(r: Seq<T>, s: Seq<T>) -> bool {
    &&& r.len() == s.len()
    &&& exists|p: Seq<int>|
        is_index_permutation(p, s.len()) && forall|k: int| 0 <= k < r.len() ==> #[trigger] r[k] == s[p[k]]
}

/// `p` keeps in their first order the positions of `r` whose items have
/// equal keys.
pub open spec fn keeps_ties_in_order<T, K>(r: Seq<T>, p: Seq<int>, key: spec_fn(T) -> K) -> bool {
    forall|k1: int, k2: int|
        0 <= k1 < k2 < r.len() && key(r[k1]) == key(r[k2]) ==> #[trigger] p[k1] < #[trigger] p[k2]
}

/// `r` holds the elements of `s`, each as often as `s` does, and those
/// with equal keys come in the order they have in `s`.
pub open spec fn stably_rearranges<T, K>(r: Seq<T>, s: Seq<T>, key: spec_fn(T) -> K) -> bool {
    &&& r.len() == s.len()
    &&& exists|p: Seq<int>|
        is_index_permutation(p, s.len()) && (forall|k: int|
            0 <= k < r.len() ==> #[trigger] r[k] == s[p[k]]) && keeps_ties_in_order(r, p, key)
}

/// Inserting `x`, which came after everything else, at position `at`
/// keeps tied items in their first order, where no item from `at` on has
/// the key of `x`.
pub proof fn lemma_insert_keeps_ties<T, K>(
    r: Seq<T>,
    p: Seq<int>,
    key: spec_fn(T) -> K,
    x: T,
    at: int,
    n: int,
)
    requires
        keeps_ties_in_order(r, p, key),
        p.len() == r.len(),
        0 <= at <= r.len(),
        forall|q: int| 0 <= q < p.len() ==> #[trigger] p[q] < n,
        forall|q: int| at <= q < r.len() ==> key(#[trigger] r[q]) != key(x),
    ensures
        keeps_ties_in_order(r.insert(at, x), p.insert(at, n), key),
{
    let r2 = r.insert(at, x);
    let p2 = p.insert(at, n);
    assert forall|k1: int, k2: int|
        0 <= k1 < k2 < r2.len() && key(r2[k1]) == key(r2[k2]) implies #[trigger] p2[k1]
            < #[trigger] p2[k2] by {
        if k2 == at {
            assert(p2[k1] == p[k1]);
        } else if k1 == at {
            assert(r2[k2] == r[k2 - 1]);
        } else {
            let j1 = if k1 < at {
                k1
            } else {
                k1 - 1
            };
            let j2 = if k2 < at {
                k2
            } else {
                k2 - 1
            };
            assert(r2[k1] == r[j1]);
            assert(r2[k2] == r[j2]);
            assert(p2[k1] == p[j1]);
            assert(p2[k2] == p[j2]);
        }
    }
}

/// A rearrangement maps each of its positions to a position of the
/// rearranged sequence, as the witness `p` of `rearranges` does.
pub proof fn lemma_rearranged_witness<T>(r: Seq<T>, s: Seq<T>) -> (p: Seq<int>)
    requires
        rearranges(r, s),
    ensures
        is_index_permutation(p, s.len()),
        forall|k: int| 0 <= k < r.len() ==> #[trigger] r[k] == s[p[k]],
{
    choose|p: Seq<int>|
        is_index_permutation(p, s.len()) && forall|k: int| 0 <= k < r.len() ==> #[trigger] r[k] == s[p[k]]
}

/// Inserting the next index `n` at position `at` of a permutation of the
/// indices below `n` gives a permutation of the indices below `n + 1`.
pub proof fn lemma_permutation_insert(p: Seq<int>, n: nat, at: int)
    requires
        is_index_permutation(p, n),
        0 <= at <= n,
    ensures
        is_index_permutation(p.insert(at, n as int), n + 1),
{
    let q = p.insert(at, n as int);
    assert forall|k: int| 0 <= k < n + 1 implies 0 <= #[trigger] q[k] < n + 1 by {
        if k < at {
            assert(q[k] == p[k]);
        } else if k > at {
            assert(q[k] == p[k - 1]);
        }
    }
    assert forall|t: int| 0 <= t < n + 1 implies #[trigger] lists_index(q, t) by {
        if t == n {
            assert(q[at] == t);
        } else {
            assert(lists_index(p, t));
            let k = choose|k: int| 0 <= k < p.len() && p[k] == t;
            if k < at {
                assert(q[k] == t);
            } else {
                assert(q[k + 1] == t);
            }
        }
    }
    assert forall|k1: int, k2: int|
        0 <= k1 < n + 1 && 0 <= k2 < n + 1 && k1 != k2 implies #[trigger] q[k1] != #[trigger] q[k2] by {
        let j1 = if k1 < at { k1 } else { k1 - 1 };
        let j2 = if k2 < at { k2 } else { k2 - 1 };
        if k1 != at && k2 != at {
            assert(q[k1] == p[j1]);
            assert(q[k2] == p[j2]);
        } else if k1 == at {
            assert(q[k2] == p[j2]);
        } else {
            assert(q[k1] == p[j1]);
        }
    }
}

} // verus!
