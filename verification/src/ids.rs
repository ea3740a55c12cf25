//! Ordered cell identifiers and sums of stalk dimensions over them.
//!
//! Cells are kept in hash maps keyed by their id; everything that walks the
//! cells does so in ascending id order. This module gives that order a
//! mathematical meaning (`sorted_ids`) and proves the facts the rest of the
//! crate relies on.
use std::collections::HashMap;
use vstd::prelude::*;

verus! {

broadcast use vstd::std_specs::hash::group_hash_axioms;

/// Every id strictly below this bound is a valid `usize`.
pub open spec fn id_bound() -> nat {
    usize::MAX as nat + 1
}

/// `s` is sorted in strictly increasing order (so it has no duplicates).
pub open spec fn strictly_increasing(s: Seq<usize>) -> bool {
    forall|i: int, j: int| 0 <= i < j < s.len() ==> s[i] < s[j]
}

/// The members of `keys` that are smaller than `n`, in ascending order.
pub open spec fn ids_below(keys: Set<usize>, n: nat) -> Seq<usize>
    decreases n,
{
    if n == 0 {
        Seq::empty()
    } else {
        let prev = ids_below(keys, (n - 1) as nat);
        if keys.contains((n - 1) as usize) {
            prev.push((n - 1) as usize)
        } else {
            prev
        }
    }
}

/// All members of `keys`, in ascending order.
pub open spec fn sorted_ids(keys: Set<usize>) -> Seq<usize> {
    ids_below(keys, id_bound())
}

/// The dimension `dims` gives to `id`, or zero where it gives none.
pub open spec fn dim_or_zero(dims: Map<usize, usize>, id: usize) -> nat {
    if dims.contains_key(id) {
        dims[id] as nat
    } else {
        0
    }
}

/// Sum of the dimensions of the ids in `ids`.
pub open spec fn dims_total(dims: Map<usize, usize>, ids: Seq<usize>) -> nat
    decreases ids.len(),
{
    if ids.len() == 0 {
        0
    } else {
        dims_total(dims, ids.drop_last()) + dim_or_zero(dims, ids.last())
    }
}

/// Sum of the dimensions of the members of `keys` below `id`: where the block
/// of `id` starts in a vector that lays the blocks of `keys` out in id order.
pub open spec fn offset_of(dims: Map<usize, usize>, keys: Set<usize>, id: usize) -> nat {
    dims_total(dims, ids_below(keys, id as nat))
}

/// Membership and order of `ids_below`.
pub proof fn lemma_ids_below(keys: Set<usize>, n: nat)
    requires
        n <= id_bound(),
    ensures
        strictly_increasing(ids_below(keys, n)),
        forall|i: int| 0 <= i < ids_below(keys, n).len() ==> (#[trigger] ids_below(keys, n)[i]) < n,
        forall|x: usize| #[trigger] ids_below(keys, n).contains(x) <==> (keys.contains(x) && x < n),
    decreases n,
{
    if n > 0 {
        lemma_ids_below(keys, (n - 1) as nat);
        let prev = ids_below(keys, (n - 1) as nat);
        let x = (n - 1) as usize;
        let cur = ids_below(keys, n);
        if keys.contains(x) {
            assert(cur == prev.push(x));
            assert forall|y: usize| #[trigger] cur.contains(y) <==> (keys.contains(y) && y < n) by {
                if cur.contains(y) {
                    let k = choose|k: int| 0 <= k < cur.len() && cur[k] == y;
                    if k < prev.len() {
                        assert(prev[k] == y);
                        assert(prev.contains(y));
                    }
                }
                if keys.contains(y) && y < n {
                    if y == x {
                        assert(cur[prev.len() as int] == y);
                    } else {
                        assert(prev.contains(y));
                        let k = choose|k: int| 0 <= k < prev.len() && prev[k] == y;
                        assert(cur[k] == y);
                    }
                }
            }
        } else {
            assert(cur == prev);
            assert forall|y: usize| #[trigger] cur.contains(y) <==> (keys.contains(y) && y < n) by {
                if keys.contains(y) && y < n {
                    assert(y != x);
                    assert(prev.contains(y));
                }
            }
        }
    }
}

/// Two strictly increasing sequences with the same members are equal.
pub proof fn lemma_strictly_increasing_unique(s1: Seq<usize>, s2: Seq<usize>)
    requires
        strictly_increasing(s1),
        strictly_increasing(s2),
        forall|x: usize| s1.contains(x) <==> s2.contains(x),
    ensures
        s1 == s2,
{
    let n = if s1.len() < s2.len() { s1.len() as int } else { s2.len() as int };
    if n > 0 {
        lemma_agree_upto(s1, s2, n - 1);
    }
    if s1.len() < s2.len() {
        lemma_no_extra(s1, s2);
    }
    if s2.len() < s1.len() {
        lemma_no_extra(s2, s1);
    }
    assert(s1 =~= s2);
}

/// Strictly increasing sequences with the same members agree up to `k`.
proof fn lemma_agree_upto(s1: Seq<usize>, s2: Seq<usize>, k: int)
    requires
        strictly_increasing(s1),
        strictly_increasing(s2),
        forall|x: usize| s1.contains(x) <==> s2.contains(x),
        0 <= k < s1.len(),
        0 <= k < s2.len(),
    ensures
        forall|j: int| 0 <= j <= k ==> s1[j] == s2[j],
    decreases k,
{
    if k > 0 {
        lemma_agree_upto(s1, s2, k - 1);
    }
    if s1[k] < s2[k] {
        lemma_smaller_is_earlier(s1, s2, k);
    } else if s2[k] < s1[k] {
        lemma_smaller_is_earlier(s2, s1, k);
    }
}

/// Where two such sequences agree before `k`, `s1[k]` cannot be below `s2[k]`.
proof fn lemma_smaller_is_earlier(s1: Seq<usize>, s2: Seq<usize>, k: int)
    requires
        strictly_increasing(s1),
        strictly_increasing(s2),
        forall|x: usize| s1.contains(x) <==> s2.contains(x),
        0 <= k < s1.len(),
        0 <= k < s2.len(),
        forall|j: int| 0 <= j < k ==> s1[j] == s2[j],
    ensures
        s2[k] <= s1[k],
{
    if s1[k] < s2[k] {
        assert(s1.contains(s1[k]));
        let j = choose|j: int| 0 <= j < s2.len() && s2[j] == s1[k];
        if j < k {
            assert(s1[j] < s1[k]);
        } else if j > k {
            assert(s2[k] < s2[j]);
        }
    }
}

/// A strictly increasing sequence that agrees with another on all of its own
/// positions and has the same members is at least as long.
proof fn lemma_no_extra(s1: Seq<usize>, s2: Seq<usize>)
    requires
        strictly_increasing(s1),
        strictly_increasing(s2),
        forall|x: usize| s1.contains(x) <==> s2.contains(x),
        forall|j: int| 0 <= j < s1.len() && j < s2.len() ==> s1[j] == s2[j],
    ensures
        s2.len() <= s1.len(),
{
    if s1.len() < s2.len() {
        let n = s1.len() as int;
        assert(s2.contains(s2[n]));
        let j = choose|j: int| 0 <= j < s1.len() && s1[j] == s2[n];
        assert(s2[j] < s2[n]);
    }
}

/// `sorted_ids` is the one strictly increasing sequence with the members of `keys`.
pub proof fn lemma_sorted_ids(keys: Set<usize>)
    ensures
        strictly_increasing(sorted_ids(keys)),
        forall|x: usize| #[trigger] sorted_ids(keys).contains(x) <==> keys.contains(x),
        forall|s: Seq<usize>|
            strictly_increasing(s) && (forall|x: usize| s.contains(x) <==> keys.contains(x))
                ==> s == sorted_ids(keys),
{
    lemma_ids_below(keys, id_bound());
    assert forall|s: Seq<usize>|
        strictly_increasing(s) && (forall|x: usize| s.contains(x) <==> keys.contains(x)) implies s
        == sorted_ids(keys) by {
        lemma_strictly_increasing_unique(s, sorted_ids(keys));
    }
}

/// The ids of `keys` before position `i` of `sorted_ids(keys)` are exactly
/// the ids below `sorted_ids(keys)[i]`.
pub proof fn lemma_sorted_prefix(keys: Set<usize>, i: int)
    requires
        0 <= i < sorted_ids(keys).len(),
    ensures
        sorted_ids(keys).take(i) == ids_below(keys, sorted_ids(keys)[i] as nat),
{
    let s = sorted_ids(keys);
    let x = s[i];
    lemma_sorted_ids(keys);
    lemma_ids_below(keys, x as nat);
    let t = s.take(i);
    assert forall|y: usize| t.contains(y) <==> ids_below(keys, x as nat).contains(y) by {
        if t.contains(y) {
            let j = choose|j: int| 0 <= j < t.len() && t[j] == y;
            assert(s[j] == y);
            assert(s.contains(y));
        }
        if keys.contains(y) && y < x {
            assert(s.contains(y));
            let j = choose|j: int| 0 <= j < s.len() && s[j] == y;
            if j >= i {
                if j > i {
                    assert(s[i] < s[j]);
                }
            }
            assert(t[j] == y);
        }
    }
    lemma_strictly_increasing_unique(t, ids_below(keys, x as nat));
}

/// A prefix of `ids` never has a larger total than `ids`.
pub proof fn lemma_dims_total_prefix(dims: Map<usize, usize>, ids: Seq<usize>, i: int)
    requires
        0 <= i <= ids.len(),
    ensures
        dims_total(dims, ids.take(i)) <= dims_total(dims, ids),
    decreases ids.len(),
{
    if i < ids.len() {
        assert(ids.drop_last().take(i) == ids.take(i));
        lemma_dims_total_prefix(dims, ids.drop_last(), i);
    } else {
        assert(ids.take(i) == ids);
    }
}

/// Adding one more id to a prefix adds its dimension to the total.
pub proof fn lemma_dims_total_step(dims: Map<usize, usize>, ids: Seq<usize>, i: int)
    requires
        0 <= i < ids.len(),
    ensures
        dims_total(dims, ids.take(i + 1)) == dims_total(dims, ids.take(i)) + dim_or_zero(dims, ids[i]),
{
    assert(ids.take(i + 1).drop_last() == ids.take(i));
}

/// Where the ids are exactly `0..n`, each with dimension `d`, the ids below
/// `m` add up to `min(m, n) * d`.
proof fn lemma_uniform_total_below(dims: Map<usize, usize>, n: nat, d: nat, m: nat)
    requires
        m <= id_bound(),
        forall|x: usize| #[trigger] dims.contains_key(x) <==> x < n,
        forall|x: usize| x < n ==> #[trigger] dims[x] == d,
    ensures
        dims_total(dims, ids_below(dims.dom(), m)) == (if m <= n {
            m
        } else {
            n
        }) * d,
    decreases m,
{
    if m > 0 {
        let k = (m - 1) as nat;
        lemma_uniform_total_below(dims, n, d, k);
        let prev = ids_below(dims.dom(), k);
        assert(k as usize as nat == k);
        if dims.dom().contains(k as usize) {
            assert(ids_below(dims.dom(), m) == prev.push(k as usize));
            assert(ids_below(dims.dom(), m).drop_last() == prev);
            assert(k < n);
            assert(dim_or_zero(dims, k as usize) == d);
            assert(k * d + d == m * d) by (nonlinear_arith)
                requires
                    m == k + 1,
            ;
        } else {
            assert(ids_below(dims.dom(), m) == prev);
            assert(k >= n);
        }
    }
}

/// Where the ids are exactly `0..n`, each with dimension `d`, the total is `n * d`.
pub proof fn lemma_uniform_total(dims: Map<usize, usize>, n: nat, d: nat)
    requires
        n <= id_bound(),
        forall|x: usize| #[trigger] dims.contains_key(x) <==> x < n,
        forall|x: usize| x < n ==> #[trigger] dims[x] == d,
    ensures
        dims_total(dims, sorted_ids(dims.dom())) == n * d,
{
    lemma_uniform_total_below(dims, n, d, id_bound());
}

/// Summing over the ids of any set never gives more than summing over all
/// the ids that have a dimension.
pub proof fn lemma_total_over_subset(dims: Map<usize, usize>, keys: Set<usize>, n: nat)
    requires
        n <= id_bound(),
    ensures
        dims_total(dims, ids_below(keys, n)) <= dims_total(dims, ids_below(dims.dom(), n)),
    decreases n,
{
    if n > 0 {
        let k = (n - 1) as nat;
        lemma_total_over_subset(dims, keys, k);
        let x = k as usize;
        if keys.contains(x) {
            assert(ids_below(keys, n).drop_last() == ids_below(keys, k));
        }
        if dims.dom().contains(x) {
            assert(ids_below(dims.dom(), n).drop_last() == ids_below(dims.dom(), k));
        }
    }
}

/// The ids of a finite map, in ascending order.
pub fn sorted_keys<V>(m: &HashMap<usize, V>) -> (r: Vec<usize>)
    ensures
        r@ == sorted_ids(m@.dom()),
{
    let mut out: Vec<usize> = Vec::new();
    for k in it: m.keys()
        invariant
            it.seq().unref().to_set() == m@.dom(),
            it.seq().unref().no_duplicates(),
            strictly_increasing(out@),
            forall|x: usize|
                out@.contains(x) <==> it.seq().take(it.index()).unref().contains(x),
            it.index() == it.seq().len() ==> forall|x: usize|
                out@.contains(x) <==> m@.dom().contains(x),
        ensures
            strictly_increasing(out@),
            forall|x: usize| out@.contains(x) <==> m@.dom().contains(x),
    {
        let key: usize = *k;
        assert(key == it.seq()[it.index()]);
        let mut pos: usize = 0;
        while pos < out.len() && out[pos] < key
            invariant
                pos <= out.len(),
                strictly_increasing(out@),
                forall|j: int| 0 <= j < pos ==> out@[j] < key,
            decreases out.len() - pos,
        {
            pos = pos + 1;
        }
        let ghost before = out@;
        let ghost idx = it.index();
        proof {
            let u = it.seq().unref();
            assert(u[idx] == key);
            assert(it.seq().take(idx).unref() == u.take(idx));
            assert(it.seq().take(idx + 1).unref() == u.take(idx).push(key));
            if before.contains(key) {
                let j = choose|j: int| 0 <= j < idx && u.take(idx)[j] == key;
                assert(u[j] == u[idx]);
            }
            if pos < before.len() {
                assert(before[pos as int] != key);
            }
        }
        out.insert(pos, key);
        proof {
            let u = it.seq().unref();
            assert(out@ == before.insert(pos as int, key));
            assert forall|i: int, j: int| 0 <= i < j < out@.len() implies out@[i] < out@[j] by {
                if j < pos {
                    assert(out@[i] == before[i] && out@[j] == before[j]);
                } else if j == pos {
                    assert(out@[i] == before[i]);
                } else if i < pos {
                    assert(out@[i] == before[i] && out@[j] == before[j - 1]);
                    assert(before[pos as int] <= before[j - 1]);
                } else if i == pos {
                    assert(out@[j] == before[j - 1]);
                    assert(before[pos as int] <= before[j - 1]);
                } else {
                    assert(out@[i] == before[i - 1] && out@[j] == before[j - 1]);
                }
            }
            assert forall|x: usize| out@.contains(x) <==> u.take(idx).push(key).contains(x) by {
                if out@.contains(x) {
                    let j = choose|j: int| 0 <= j < out@.len() && out@[j] == x;
                    if j < pos {
                        assert(before[j] == x);
                    } else if j > pos {
                        assert(before[j - 1] == x);
                    }
                    if x != key {
                        assert(before.contains(x));
                        assert(u.take(idx).contains(x));
                        let k2 = choose|k2: int| 0 <= k2 < idx && u.take(idx)[k2] == x;
                        assert(u.take(idx).push(key)[k2] == x);
                    } else {
                        assert(u.take(idx).push(key)[idx] == x);
                    }
                }
                if u.take(idx).push(key).contains(x) {
                    let k2 = choose|k2: int| 0 <= k2 <= idx && u.take(idx).push(key)[k2] == x;
                    if x == key {
                        assert(out@[pos as int] == x);
                    } else {
                        assert(u.take(idx)[k2] == x);
                        assert(before.contains(x));
                        let j = choose|j: int| 0 <= j < before.len() && before[j] == x;
                        if j < pos {
                            assert(out@[j] == x);
                        } else {
                            assert(out@[j + 1] == x);
                        }
                    }
                }
            }
            assert(idx + 1 == u.len() ==> u.take(idx).push(key) =~= u);
            assert forall|x: usize| idx + 1 == u.len() implies (out@.contains(x) <==> m@.dom().contains(
                x,
            )) by {
                assert(u.to_set().contains(x) <==> u.contains(x));
            }
        }
    }
    proof {
        lemma_sorted_ids(m@.dom());
    }
    out
}

} // verus!
