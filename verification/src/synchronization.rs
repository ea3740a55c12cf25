//! Bookkeeping for synchronizing sheaf assignments across cells.
//!
//! Diffusion and consensus compute new data for the cells; this module
//! decides which cells receive which part of it, and fills in missing
//! assignments.
use crate::ids::{
    dims_total, lemma_dims_total_prefix, lemma_dims_total_step, lemma_sorted_ids,
    lemma_sorted_prefix, strictly_increasing,
};
use crate::laplacian::cell_offset;
use crate::sheaf::{from_byte, repeat, Assignment, Sheaf};
use vstd::prelude::*;

verus! {

broadcast use vstd::std_specs::hash::group_hash_axioms;

/// Every cell of `s` carries an assignment.
pub open spec fn fully_assigned<T>(s: &Sheaf<T>) -> bool {
    forall|k: usize| #[trigger] s.cells@.contains_key(k) ==> s.assignments@.contains_key(k)
}

/// Check if all cells have assignments.
pub fn is_fully_assigned<T>(s: &Sheaf<T>) -> (r: bool)
    ensures
        r == fully_assigned(s),
        r == forall|k: usize| #[trigger] s.cells@.contains_key(k) ==> s.assignments@.contains_key(k),
{
    let ids = s.cell_ids();
    for i in 0..ids.len()
        invariant
            forall|k: usize| #[trigger] ids@.contains(k) <==> s.cells@.contains_key(k),
            forall|j: int| 0 <= j < i ==> s.assignments@.contains_key(#[trigger] ids@[j]),
    {
        if !s.assignments.contains_key(&ids[i]) {
            assert(ids@.contains(ids@[i as int]));
            return false;
        }
    }
    assert forall|k: usize| #[trigger] s.cells@.contains_key(k) implies s.assignments@.contains_key(k) by {
        assert(ids@.contains(k));
    }
    true
}

/// A copy of `data`.
fn copy_of<T: Copy>(data: &[T]) -> (r: Vec<T>)
    ensures
        r@ == data@,
{
    let mut r: Vec<T> = Vec::new();
    for i in 0..data.len()
        invariant
            r@ == data@.take(i as int),
    {
        assert(data@.take(i + 1) == data@.take(i as int).push(data@[i as int]));
        r.push(data[i]);
    }
    assert(data@.take(data@.len() as int) == data@);
    r
}

/// `s1` is `s0` with every cell that had no assignment assigned `zero`
/// repeated over its stalk (nothing where it has no stalk); everything else
/// is as in `s0`.
pub open spec fn initialized_with<T>(s0: &Sheaf<T>, s1: &Sheaf<T>, zero: T) -> bool {
    &&& s1.cells@ == s0.cells@
    &&& s1.stalk_dimensions@ == s0.stalk_dimensions@
    &&& s1.restriction_maps@ == s0.restriction_maps@
    &&& forall|k: usize| #[trigger]
        s1.assignments@.contains_key(k) == (s0.assignments@.contains_key(k) || s0.cells@.contains_key(k))
    &&& forall|k: usize| #[trigger]
        s0.assignments@.contains_key(k) ==> s1.assignments@[k] == s0.assignments@[k]
    &&& forall|k: usize| #[trigger]
        s0.cells@.contains_key(k) && !s0.assignments@.contains_key(k) ==> {
            &&& s1.assignments@[k].cell_id == k
            &&& s1.assignments@[k].data@ == repeat(zero, s0.dim_of(k))
        }
}

/// Initialize missing assignments with zeros.
///
/// Every cell without an assignment receives zeros over its stalk (none
/// where it has no stalk); existing assignments are kept.
pub fn initialize_missing_assignments<T: Copy + From<u8>>(s: &mut Sheaf<T>)
    ensures
        exists|zero: T| from_byte(zero, 0u8) && initialized_with(old(s), final(s), zero),
        fully_assigned(final(s)),
        old(s).wf() ==> final(s).wf(),
{
    let zero = T::from(0u8);
    let ids = s.cell_ids();
    let ghost s0 = *s;
    assert(ids@.take(0) =~= Seq::<usize>::empty());
    for i in 0..ids.len()
        invariant
            forall|k: usize| #[trigger] ids@.contains(k) <==> s0.cells@.contains_key(k),
            strictly_increasing(ids@),
            s.cells@ == s0.cells@,
            s.stalk_dimensions@ == s0.stalk_dimensions@,
            s.restriction_maps@ == s0.restriction_maps@,
            s0.wf() ==> s.wf(),
            forall|k: usize| #[trigger]
                s.assignments@.contains_key(k) == (s0.assignments@.contains_key(k)
                    || ids@.take(i as int).contains(k)),
            forall|k: usize| #[trigger]
                s0.assignments@.contains_key(k) ==> s.assignments@[k] == s0.assignments@[k],
            forall|j: int|
                0 <= j < i && !s0.assignments@.contains_key(#[trigger] ids@[j]) ==> {
                    &&& s.assignments@[ids@[j]].cell_id == ids@[j]
                    &&& s.assignments@[ids@[j]].data@ == repeat(zero, s0.dim_of(ids@[j]))
                },
    {
        let id = ids[i];
        let ghost taken = ids@.take(i as int);
        assert(ids@.take(i + 1) == taken.push(id));
        assert(!taken.contains(id)) by {
            if taken.contains(id) {
                let j = choose|j: int| 0 <= j < i && taken[j] == id;
                assert(ids@[j] < ids@[i as int]);
            }
        }
        assert forall|k: usize| #[trigger] taken.push(id).contains(k) <==> (taken.contains(k) || k == id) by {
            if taken.push(id).contains(k) && k != id {
                let j = choose|j: int| 0 <= j < taken.len() + 1 && taken.push(id)[j] == k;
                assert(taken[j] == k);
            }
            if taken.contains(k) {
                let j = choose|j: int| 0 <= j < taken.len() && taken[j] == k;
                assert(taken.push(id)[j] == k);
            }
            if k == id {
                assert(taken.push(id)[taken.len() as int] == k);
            }
        }
        if !s.assignments.contains_key(&id) {
            let dim = match s.stalk_dimensions.get(&id) {
                Some(d) => *d,
                None => 0,
            };
            let mut data: Vec<T> = Vec::new();
            for j in 0..dim
                invariant
                    data@ == repeat(zero, j as nat),
            {
                assert(repeat(zero, (j + 1) as nat) == repeat(zero, j as nat).push(zero));
                data.push(zero);
            }
            s.assign(Assignment::new(id, data));
            assert(s.assignments@[id].data@ == repeat(zero, s0.dim_of(id)));
        }
    }
    assert(ids@.take(ids@.len() as int) == ids@);
    assert(from_byte(zero, 0u8));
    assert forall|k: usize| #[trigger] s0.cells@.contains_key(k) && !s0.assignments@.contains_key(k) implies {
        &&& s.assignments@[k].cell_id == k
        &&& s.assignments@[k].data@ == repeat(zero, s0.dim_of(k))
    } by {
        assert(ids@.contains(k));
    }
    assert(initialized_with(&s0, s, zero));
}

/// Give every cell of `s` the assignment `data`; other assignments are kept.
pub fn assign_to_all_cells<T: Copy>(s: &mut Sheaf<T>, data: &[T])
    ensures
        final(s).cells@ == old(s).cells@,
        final(s).stalk_dimensions@ == old(s).stalk_dimensions@,
        final(s).restriction_maps@ == old(s).restriction_maps@,
        forall|k: usize| #[trigger]
            final(s).assignments@.contains_key(k) == (old(s).assignments@.contains_key(k)
                || old(s).cells@.contains_key(k)),
        forall|k: usize| #[trigger]
            old(s).cells@.contains_key(k) ==> final(s).assignments@[k].cell_id == k
                && final(s).assignments@[k].data@ == data@,
        forall|k: usize| #[trigger]
            old(s).assignments@.contains_key(k) && !old(s).cells@.contains_key(k)
                ==> final(s).assignments@[k] == old(s).assignments@[k],
        fully_assigned(final(s)),
        old(s).wf() ==> final(s).wf(),
{
    let ids = s.cell_ids();
    let ghost s0 = *s;
    assert(ids@.take(0) =~= Seq::<usize>::empty());
    for i in 0..ids.len()
        invariant
            forall|k: usize| #[trigger] ids@.contains(k) <==> s0.cells@.contains_key(k),
            s.cells@ == s0.cells@,
            s.stalk_dimensions@ == s0.stalk_dimensions@,
            s.restriction_maps@ == s0.restriction_maps@,
            s0.wf() ==> s.wf(),
            forall|k: usize| #[trigger]
                s.assignments@.contains_key(k) == (s0.assignments@.contains_key(k)
                    || ids@.take(i as int).contains(k)),
            forall|j: int|
                0 <= j < i ==> s.assignments@[#[trigger] ids@[j]].cell_id == ids@[j]
                    && s.assignments@[ids@[j]].data@ == data@,
            forall|k: usize| #[trigger]
                s0.assignments@.contains_key(k) && !s0.cells@.contains_key(k)
                    ==> s.assignments@[k] == s0.assignments@[k],
    {
        let id = ids[i];
        let ghost taken = ids@.take(i as int);
        assert(ids@.take(i + 1) == taken.push(id));
        assert forall|k: usize| #[trigger] taken.push(id).contains(k) <==> (taken.contains(k) || k == id) by {
            if taken.push(id).contains(k) && k != id {
                let j = choose|j: int| 0 <= j < taken.len() + 1 && taken.push(id)[j] == k;
                assert(taken[j] == k);
            }
            if taken.contains(k) {
                let j = choose|j: int| 0 <= j < taken.len() && taken[j] == k;
                assert(taken.push(id)[j] == k);
            }
            if k == id {
                assert(taken.push(id)[taken.len() as int] == k);
            }
        }
        assert(ids@.contains(id));
        s.assign(Assignment::new(id, copy_of(data)));
    }
    assert(ids@.take(ids@.len() as int) == ids@);
    assert forall|k: usize| #[trigger] s0.cells@.contains_key(k) implies s.assignments@[k].cell_id == k
        && s.assignments@[k].data@ == data@ by {
        assert(ids@.contains(k));
    }
}

/// Cell `k` of `s` receives a block of a global vector: it is a cell with a
/// positive stalk dimension.
pub open spec fn receives_block<T>(s: &Sheaf<T>, k: usize) -> bool {
    s.cells@.contains_key(k) && s.dim_of(k) > 0
}

/// `s1` is `s0` with the global vector `v` written back into its cells:
/// every cell with a positive stalk dimension is assigned its block of `v`
/// (the `dim` entries starting at the cell's offset); everything else is as
/// in `s0`.
pub open spec fn written_back<T>(s0: &Sheaf<T>, s1: &Sheaf<T>, v: Seq<T>) -> bool {
    &&& s1.cells@ == s0.cells@
    &&& s1.stalk_dimensions@ == s0.stalk_dimensions@
    &&& s1.restriction_maps@ == s0.restriction_maps@
    &&& forall|k: usize| #[trigger]
        s1.assignments@.contains_key(k) == (s0.assignments@.contains_key(k) || receives_block(s0, k))
    &&& forall|k: usize| #[trigger]
        receives_block(s0, k) ==> {
            &&& s1.assignments@[k].cell_id == k
            &&& s1.assignments@[k].data@ == v.subrange(
                cell_offset(s0, k) as int,
                (cell_offset(s0, k) + s0.dim_of(k)) as int,
            )
        }
    &&& forall|k: usize| #[trigger]
        s0.assignments@.contains_key(k) && !receives_block(s0, k) ==> s1.assignments@[k]
            == s0.assignments@[k]
}

/// Whether the stalks of the cells of `s` add up to at most `limit`.
fn cells_dimension_within<T>(s: &Sheaf<T>, limit: usize) -> (r: bool)
    ensures
        r == (s.cells_dimension() <= limit),
{
    let ids = s.cell_ids();
    let ghost dims = s.stalk_dimensions@;
    let mut total: usize = 0;
    for i in 0..ids.len()
        invariant
            ids@ == s.ids(),
            dims == s.stalk_dimensions@,
            total == dims_total(dims, ids@.take(i as int)),
            total <= limit,
    {
        proof {
            lemma_dims_total_step(dims, ids@, i as int);
            lemma_dims_total_prefix(dims, ids@, i + 1);
        }
        let d = match s.stalk_dimensions.get(&ids[i]) {
            Some(d) => *d,
            None => 0,
        };
        if d > limit - total {
            return false;
        }
        total = total + d;
    }
    assert(ids@.take(ids@.len() as int) == ids@);
    true
}

/// Write a global vector back into the cells (see `written_back`).
///
/// Returns `false`, and leaves `s` as it was, when `v` is shorter than the
/// stalks of the cells together.
pub fn assign_global_vector<T: Copy>(s: &mut Sheaf<T>, v: &[T]) -> (written: bool)
    ensures
        written == (old(s).cells_dimension() <= v@.len()),
        written ==> written_back(old(s), final(s), v@),
        !written ==> *final(s) == *old(s),
        old(s).wf() ==> final(s).wf(),
{
    if !cells_dimension_within(s, v.len()) {
        return false;
    }
    write_blocks(s, v);
    true
}

/// Write `v` back into the cells of `s`, block by block.
fn write_blocks<T: Copy>(s: &mut Sheaf<T>, v: &[T])
    requires
        old(s).cells_dimension() <= v@.len(),
    ensures
        written_back(old(s), final(s), v@),
        old(s).wf() ==> final(s).wf(),
{
    let ids = s.cell_ids();
    let ghost s0 = *s;
    let ghost dims = s0.stalk_dimensions@;
    let ghost dom = s0.cells@.dom();
    assert(ids@.take(0) =~= Seq::<usize>::empty());
    let mut offset: usize = 0;
    for i in 0..ids.len()
        invariant
            ids@ == s0.ids(),
            dims == s0.stalk_dimensions@,
            dom == s0.cells@.dom(),
            forall|k: usize| #[trigger] ids@.contains(k) <==> s0.cells@.contains_key(k),
            strictly_increasing(ids@),
            s.cells@ == s0.cells@,
            s.stalk_dimensions@ == s0.stalk_dimensions@,
            s.restriction_maps@ == s0.restriction_maps@,
            s0.wf() ==> s.wf(),
            dims_total(dims, ids@) <= v@.len(),
            offset == dims_total(dims, ids@.take(i as int)),
            forall|k: usize| #[trigger]
                s.assignments@.contains_key(k) == (s0.assignments@.contains_key(k) || (ids@.take(
                    i as int,
                ).contains(k) && s0.dim_of(k) > 0)),
            forall|j: int|
                0 <= j < i && s0.dim_of(#[trigger] ids@[j]) > 0 ==> {
                    &&& s.assignments@[ids@[j]].cell_id == ids@[j]
                    &&& s.assignments@[ids@[j]].data@ == v@.subrange(
                        cell_offset(&s0, ids@[j]) as int,
                        (cell_offset(&s0, ids@[j]) + s0.dim_of(ids@[j])) as int,
                    )
                },
            forall|j: int|
                0 <= j < ids@.len() && (i <= j || s0.dim_of(ids@[j]) == 0)
                    && s0.assignments@.contains_key(#[trigger] ids@[j])
                    ==> s.assignments@[ids@[j]] == s0.assignments@[ids@[j]],
            forall|k: usize| #[trigger]
                s0.assignments@.contains_key(k) && !s0.cells@.contains_key(k)
                    ==> s.assignments@[k] == s0.assignments@[k],
    {
        let id = ids[i];
        let ghost taken = ids@.take(i as int);
        proof {
            lemma_sorted_ids(dom);
            lemma_sorted_prefix(dom, i as int);
            lemma_dims_total_step(dims, ids@, i as int);
            lemma_dims_total_prefix(dims, ids@, i + 1);
            assert(ids@.take(i + 1) == taken.push(id));
            assert(ids@.contains(id));
            assert forall|k: usize| #[trigger] taken.push(id).contains(k) <==> (taken.contains(k) || k == id) by {
                if taken.push(id).contains(k) && k != id {
                    let j = choose|j: int| 0 <= j < taken.len() + 1 && taken.push(id)[j] == k;
                    assert(taken[j] == k);
                }
                if taken.contains(k) {
                    let j = choose|j: int| 0 <= j < taken.len() && taken[j] == k;
                    assert(taken.push(id)[j] == k);
                }
                if k == id {
                    assert(taken.push(id)[taken.len() as int] == k);
                }
            }
            assert(cell_offset(&s0, id) == offset);
        }
        let dim = match s.stalk_dimensions.get(&id) {
            Some(d) => *d,
            None => 0,
        };
        assert(dim == s0.dim_of(id));
        assert(dims_total(dims, ids@.take(i + 1)) == offset + dim);
        assert(offset + dim <= v.len());
        if dim > 0 {
            let mut data: Vec<T> = Vec::new();
            for k in 0..dim
                invariant
                    offset + dim <= v.len(),
                    data@ == v@.subrange(offset as int, offset + k),
            {
                assert(v@.subrange(offset as int, offset + k + 1) == v@.subrange(offset as int, offset + k).push(v@[offset + k]));
                data.push(v[offset + k]);
            }
            s.assign(Assignment::new(id, data));
        }
        offset = offset + dim;
    }
    assert(ids@.take(ids@.len() as int) == ids@);
    assert forall|k: usize| #[trigger] receives_block(&s0, k) implies {
        &&& s.assignments@[k].cell_id == k
        &&& s.assignments@[k].data@ == v@.subrange(
            cell_offset(&s0, k) as int,
            (cell_offset(&s0, k) + s0.dim_of(k)) as int,
        )
    } by {
        assert(ids@.contains(k));
    }
    assert forall|k: usize| #[trigger] s0.assignments@.contains_key(k) && !receives_block(&s0, k)
        implies s.assignments@[k] == s0.assignments@[k] by {
        if s0.cells@.contains_key(k) {
            assert(ids@.contains(k));
            let j = choose|j: int| 0 <= j < ids@.len() && ids@[j] == k;
            assert(s0.dim_of(ids@[j]) == 0);
        }
    }
}

} // verus!
