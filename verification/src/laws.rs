//! Properties that relate several operations of the library.
use crate::ids::{
    dims_total, lemma_dims_total_prefix, lemma_dims_total_step, lemma_sorted_ids,
    lemma_sorted_prefix,
};
use crate::coherence::{evaluable_in, evaluable_maps, goes_between, incidences_of, maps_between};
use crate::laplacian::{cell_offset, contributes_to, contributing, layout_of};
use crate::sheaf::{
    is_transpose, maps_with_source, maps_with_target, rows_cover_first, source_is, target_is,
    RestrictionMap, Sheaf,
};
use crate::synchronization::{fully_assigned, initialized_with, receives_block, written_back};
use vstd::prelude::*;

verus! {

/// The cell ids list every cell exactly once: there are as many of them as
/// there are cells.
pub proof fn law_cell_ids_count<T>(s: &Sheaf<T>)
    ensures
        s.ids().len() == s.cells@.dom().len(),
        s.ids().no_duplicates(),
{
    let ids = s.ids();
    lemma_sorted_ids(s.cells@.dom());
    assert(ids.no_duplicates()) by {
        assert forall|i: int, j: int| 0 <= i < ids.len() && 0 <= j < ids.len() && i != j implies ids[i]
            != ids[j] by {
            if i < j {
                assert(ids[i] < ids[j]);
            } else {
                assert(ids[j] < ids[i]);
            }
        }
    }
    ids.unique_seq_to_set();
    assert forall|x: usize| ids.to_set().contains(x) <==> s.cells@.dom().contains(x) by {
        assert(ids.to_set().contains(x) <==> ids.contains(x));
    }
    assert(ids.to_set() =~= s.cells@.dom());
}

/// The blocks of the first `i` cells are as long as their stalks together.
proof fn lemma_blocks_len<T>(s: &Sheaf<T>, fill: T, i: int)
    requires
        s.wf(),
        s.assignments_fit(),
        0 <= i <= s.ids().len(),
    ensures
        s.blocks(s.ids().take(i), fill).len() == dims_total(s.stalk_dimensions@, s.ids().take(i)),
    decreases i,
{
    if i > 0 {
        let ids = s.ids();
        lemma_blocks_len(s, fill, i - 1);
        lemma_dims_total_step(s.stalk_dimensions@, ids, i - 1);
        lemma_sorted_ids(s.cells@.dom());
        assert(ids.take(i).drop_last() == ids.take(i - 1));
        assert(ids.contains(ids[i - 1]));
    }
}

/// For a well-formed sheaf whose assignments fit their stalks, the global
/// vector is exactly as long as the global dimension: the total of the stalk
/// dimensions.
pub proof fn law_global_vector_length<T>(s: &Sheaf<T>, fill: T)
    requires
        s.wf(),
        s.assignments_fit(),
    ensures
        s.global_vector(fill).len() == s.total_dimension(),
        s.cells_dimension() == s.total_dimension(),
{
    lemma_blocks_len(s, fill, s.ids().len() as int);
    assert(s.ids().take(s.ids().len() as int) == s.ids());
}

/// Every cell's block lies inside the global vector, and the blocks of two
/// cells follow each other in id order without overlapping.
pub proof fn law_cell_blocks_tile<T>(s: &Sheaf<T>, a: usize, b: usize)
    requires
        s.cells@.contains_key(a),
    ensures
        cell_offset(s, a) + s.dim_of(a) <= s.cells_dimension(),
        s.cells@.contains_key(b) && a < b ==> cell_offset(s, a) + s.dim_of(a) <= cell_offset(s, b),
{
    let dom = s.cells@.dom();
    let ids = s.ids();
    let dims = s.stalk_dimensions@;
    lemma_sorted_ids(dom);
    assert(ids.contains(a));
    let i = choose|i: int| 0 <= i < ids.len() && ids[i] == a;
    lemma_sorted_prefix(dom, i);
    lemma_dims_total_step(dims, ids, i);
    lemma_dims_total_prefix(dims, ids, i + 1);
    if s.cells@.contains_key(b) && a < b {
        assert(ids.contains(b));
        let j = choose|j: int| 0 <= j < ids.len() && ids[j] == b;
        if j <= i {
            if j < i {
                assert(ids[j] < ids[i]);
            }
        }
        lemma_sorted_prefix(dom, j);
        assert(ids.take(j).take(i + 1) == ids.take(i + 1));
        lemma_dims_total_prefix(dims, ids.take(j), i + 1);
    }
}

/// After writing `v` back, the blocks of the first `i` cells are the
/// matching prefix of `v`.
proof fn lemma_round_trip_prefix<T>(s0: &Sheaf<T>, s1: &Sheaf<T>, v: Seq<T>, fill: T, i: int)
    requires
        s0.wf(),
        s0.assignments_fit(),
        v.len() == s0.cells_dimension(),
        written_back(s0, s1, v),
        0 <= i <= s0.ids().len(),
    ensures
        s1.blocks(s0.ids().take(i), fill) == v.subrange(
            0,
            dims_total(s0.stalk_dimensions@, s0.ids().take(i)) as int,
        ),
    decreases i,
{
    let ids = s0.ids();
    let dims = s0.stalk_dimensions@;
    if i == 0 {
        assert(ids.take(0) =~= Seq::<usize>::empty());
        assert(v.subrange(0, 0) =~= Seq::<T>::empty());
    } else {
        let k = ids[i - 1];
        lemma_round_trip_prefix(s0, s1, v, fill, i - 1);
        lemma_sorted_ids(s0.cells@.dom());
        lemma_sorted_prefix(s0.cells@.dom(), i - 1);
        lemma_dims_total_step(dims, ids, i - 1);
        lemma_dims_total_prefix(dims, ids, i);
        assert(ids.take(i).drop_last() == ids.take(i - 1));
        assert(ids.take(i).last() == k);
        assert(ids.contains(k));
        let off = dims_total(dims, ids.take(i - 1));
        let end = dims_total(dims, ids.take(i));
        assert(cell_offset(s0, k) == off);
        if receives_block(s0, k) {
            assert(s1.block(k, fill) == v.subrange(off as int, end as int));
        } else {
            assert(s1.block(k, fill) =~= Seq::<T>::empty());
        }
        assert(v.subrange(0, off as int) + v.subrange(off as int, end as int) =~= v.subrange(
            0,
            end as int,
        ));
    }
}

/// Writing a global vector of the right length back into a well-formed sheaf
/// whose assignments fit their stalks, then reading the global vector, gives
/// the written vector back, whatever the fill value for missing cells.
pub proof fn law_write_back_round_trip<T>(s0: &Sheaf<T>, s1: &Sheaf<T>, v: Seq<T>, fill: T)
    requires
        s0.wf(),
        s0.assignments_fit(),
        v.len() == s0.cells_dimension(),
        written_back(s0, s1, v),
    ensures
        s1.global_vector(fill) == v,
        s1.assignments_fit(),
{
    lemma_round_trip_prefix(s0, s1, v, fill, s0.ids().len() as int);
    assert(s0.ids().take(s0.ids().len() as int) == s0.ids());
    assert(v.subrange(0, v.len() as int) == v);
    assert forall|k: usize| #[trigger]
        s1.cells@.contains_key(k) && s1.assignments@.contains_key(k) implies s1.assignments@[k].data@.len()
        == s1.dim_of(k) by {
        if receives_block(s0, k) {
            law_cell_blocks_tile(s0, k, k);
        }
    }
}

/// Two sheaves whose blocks agree on every id of `ids` agree on the blocks of `ids`.
proof fn lemma_blocks_agree<T>(s0: &Sheaf<T>, s1: &Sheaf<T>, ids: Seq<usize>, fill: T)
    requires
        forall|i: int| 0 <= i < ids.len() ==> s1.block(#[trigger] ids[i], fill) == s0.block(ids[i], fill),
    ensures
        s1.blocks(ids, fill) == s0.blocks(ids, fill),
    decreases ids.len(),
{
    if ids.len() > 0 {
        lemma_blocks_agree(s0, s1, ids.drop_last(), fill);
        assert(s1.block(ids[ids.len() - 1], fill) == s0.block(ids[ids.len() - 1], fill));
    }
}

/// Initializing the missing assignments with zeros leaves the global vector
/// (which already reads missing cells as zeros) unchanged, and leaves every
/// cell assigned.
pub proof fn law_initialize_keeps_global_vector<T>(s0: &Sheaf<T>, s1: &Sheaf<T>, zero: T)
    requires
        initialized_with(s0, s1, zero),
    ensures
        s1.global_vector(zero) == s0.global_vector(zero),
        fully_assigned(s1),
{
    let ids = s0.ids();
    lemma_sorted_ids(s0.cells@.dom());
    assert forall|i: int| 0 <= i < ids.len() implies s1.block(#[trigger] ids[i], zero) == s0.block(ids[i], zero) by {
        let k = ids[i];
        assert(ids.contains(k));
        if !s0.assignments@.contains_key(k) {
            assert(s1.block(k, zero) =~= s0.block(k, zero));
        }
    }
    lemma_blocks_agree(s0, s1, ids, zero);
}

/// Transposing twice gives the matrix back, for a matrix whose rows all have
/// the same, positive length (or no rows at all); the transpose itself has
/// rows of equal length, so it can be transposed again.
pub proof fn law_transpose_involution<T>(m: Seq<Seq<T>>, t: Seq<Seq<T>>, u: Seq<Seq<T>>)
    requires
        forall|i: int| 0 <= i < m.len() ==> #[trigger] m[i].len() == m[0].len(),
        m.len() > 0 ==> m[0].len() > 0,
        is_transpose(m, t),
        is_transpose(t, u),
    ensures
        rows_cover_first(t),
        u == m,
{
    if m.len() > 0 {
        assert(u.len() == m.len());
        assert forall|i: int| 0 <= i < m.len() implies #[trigger] u[i] =~= m[i] by {
            assert(u[i].len() == t.len());
            assert forall|j: int| 0 <= j < t.len() implies u[i][j] == m[i][j] by {
                assert(u[i][j] == t[j][i]);
            }
        }
        assert(u =~= m);
    }
}

/// The positions `filter` keeps: `xs.filter(p)` is `xs` at a strictly
/// increasing sequence of positions, which are exactly those where `p` holds.
proof fn lemma_filter_positions<A>(xs: Seq<A>, p: spec_fn(A) -> bool) -> (idx: Seq<int>)
    ensures
        idx.len() == xs.filter(p).len(),
        forall|j: int| 0 <= j < idx.len() ==> 0 <= #[trigger] idx[j] < xs.len(),
        forall|j: int| 0 <= j < idx.len() ==> #[trigger] xs.filter(p)[j] == xs[idx[j]],
        forall|j: int, k: int| 0 <= j < k < idx.len() ==> idx[j] < idx[k],
        forall|i: int| 0 <= i < xs.len() ==> (p(#[trigger] xs[i]) <==> idx.contains(i)),
    decreases xs.len(),
{
    reveal(Seq::filter);
    if xs.len() == 0 {
        Seq::empty()
    } else {
        let init = xs.drop_last();
        let prev = lemma_filter_positions(init, p);
        let n = xs.len() - 1;
        assert forall|i: int| 0 <= i < n implies #[trigger] xs[i] == init[i] by {}
        if p(xs.last()) {
            let idx = prev.push(n);
            assert(xs.filter(p) == init.filter(p).push(xs.last()));
            assert forall|i: int| 0 <= i < xs.len() implies (p(#[trigger] xs[i]) <==> idx.contains(i)) by {
                if i < n {
                    assert(xs[i] == init[i]);
                    if prev.contains(i) {
                        let j = choose|j: int| 0 <= j < prev.len() && prev[j] == i;
                        assert(idx[j] == i);
                    }
                    if idx.contains(i) {
                        let j = choose|j: int| 0 <= j < idx.len() && idx[j] == i;
                        assert(j < prev.len());
                        assert(prev[j] == i);
                    }
                } else {
                    assert(idx[prev.len() as int] == n);
                }
            }
            assert forall|j: int| 0 <= j < idx.len() implies #[trigger] xs.filter(p)[j] == xs[idx[j]] by {
                if j < prev.len() {
                    assert(init.filter(p)[j] == init[prev[j]]);
                }
            }
            idx
        } else {
            assert(xs.filter(p) == init.filter(p));
            assert forall|i: int| 0 <= i < xs.len() implies (p(#[trigger] xs[i]) <==> prev.contains(i)) by {
                if i < n {
                    assert(xs[i] == init[i]);
                } else if prev.contains(i) {
                    let j = choose|j: int| 0 <= j < prev.len() && prev[j] == i;
                    assert(prev[j] < init.len());
                }
            }
            assert forall|j: int| 0 <= j < prev.len() implies #[trigger] xs.filter(p)[j] == xs[prev[j]] by {
                assert(init.filter(p)[j] == init[prev[j]]);
            }
            prev
        }
    }
}

/// `maps_from(id)` lists, in order and once each, exactly the restriction
/// maps whose source is `id`, whatever their target: the maps at a strictly
/// increasing sequence of positions `idx`, which are the positions whose map
/// has source `id`.
pub proof fn law_maps_from_selects_source<T>(maps: Seq<RestrictionMap<T>>, id: usize) -> (idx: Seq<int>)
    ensures
        idx.len() == maps_with_source(maps, id).len(),
        forall|j: int| 0 <= j < idx.len() ==> 0 <= #[trigger] idx[j] < maps.len(),
        forall|j: int| 0 <= j < idx.len() ==> #[trigger] maps_with_source(maps, id)[j] == maps[idx[j]],
        forall|j: int, k: int| 0 <= j < k < idx.len() ==> idx[j] < idx[k],
        forall|i: int| 0 <= i < maps.len() ==> ((#[trigger] maps[i]).source == id <==> idx.contains(i)),
{
    let idx = lemma_filter_positions(maps, source_is::<T>(id));
    assert forall|i: int| 0 <= i < maps.len() implies ((#[trigger] maps[i]).source == id <==> idx.contains(i)) by {
        assert(source_is::<T>(id)(maps[i]) == (maps[i].source == id));
    }
    idx
}

/// `maps_to(id)` lists, in order and once each, exactly the restriction maps
/// whose target is `id`, whatever their source.
pub proof fn law_maps_to_selects_target<T>(maps: Seq<RestrictionMap<T>>, id: usize) -> (idx: Seq<int>)
    ensures
        idx.len() == maps_with_target(maps, id).len(),
        forall|j: int| 0 <= j < idx.len() ==> 0 <= #[trigger] idx[j] < maps.len(),
        forall|j: int| 0 <= j < idx.len() ==> #[trigger] maps_with_target(maps, id)[j] == maps[idx[j]],
        forall|j: int, k: int| 0 <= j < k < idx.len() ==> idx[j] < idx[k],
        forall|i: int| 0 <= i < maps.len() ==> ((#[trigger] maps[i]).target == id <==> idx.contains(i)),
{
    let idx = lemma_filter_positions(maps, target_is::<T>(id));
    assert forall|i: int| 0 <= i < maps.len() implies ((#[trigger] maps[i]).target == id <==> idx.contains(i)) by {
        assert(target_is::<T>(id)(maps[i]) == (maps[i].target == id));
    }
    idx
}

/// The Laplacian blocks are, in order and once each, the restriction maps
/// whose source and target are both cells of the sheaf and whose matrix has
/// an entry, whatever the order of their cell ids; each one is placed at the
/// offsets of its source and its target.
pub proof fn law_laplacian_blocks_cover_maps<T>(s: &Sheaf<T>) -> (idx: Seq<int>)
    ensures
        ({
            let maps = s.restriction_maps@;
            let blocks = layout_of(s, maps);
            &&& idx.len() == blocks.len()
            &&& forall|j: int| 0 <= j < idx.len() ==> 0 <= #[trigger] idx[j] < maps.len()
            &&& forall|j: int|
                0 <= j < idx.len() ==> #[trigger] blocks[j] == (
                    cell_offset(s, maps[idx[j]].source),
                    cell_offset(s, maps[idx[j]].target),
                    maps[idx[j]],
                )
            &&& forall|j: int, k: int| 0 <= j < k < idx.len() ==> idx[j] < idx[k]
            &&& forall|i: int|
                0 <= i < maps.len() ==> ((s.cells@.contains_key((#[trigger] maps[i]).source)
                    && s.cells@.contains_key(maps[i].target) && maps[i].matrix@.len() > 0
                    && maps[i].matrix@[0]@.len() > 0) <==> idx.contains(i))
        }),
{
    let maps = s.restriction_maps@;
    let idx = lemma_filter_positions(maps, contributes_to(s));
    assert(contributing(s, maps) == maps.filter(contributes_to(s)));
    assert forall|i: int| 0 <= i < maps.len() implies ((s.cells@.contains_key((#[trigger] maps[i]).source)
        && s.cells@.contains_key(maps[i].target) && maps[i].matrix@.len() > 0
        && maps[i].matrix@[0]@.len() > 0) <==> idx.contains(i)) by {
        assert(contributes_to(s)(maps[i]) == crate::laplacian::contributes(s, maps[i]));
    }
    assert forall|j: int| 0 <= j < idx.len() implies #[trigger] layout_of(s, maps)[j] == (
        cell_offset(s, maps[idx[j]].source),
        cell_offset(s, maps[idx[j]].target),
        maps[idx[j]],
    ) by {
        assert(contributing(s, maps)[j] == maps[idx[j]]);
    }
    idx
}

/// The incidences a coherence measure evaluates are, in order and once each,
/// the restriction maps whose source and target both carry an assignment
/// (whatever the lengths of their data), each with the source's and the
/// target's assignment.
pub proof fn law_assigned_incidences_cover_maps<T>(s: &Sheaf<T>) -> (idx: Seq<int>)
    ensures
        ({
            let maps = s.restriction_maps@;
            let inc = incidences_of(s, maps);
            &&& idx.len() == inc.len()
            &&& forall|j: int| 0 <= j < idx.len() ==> 0 <= #[trigger] idx[j] < maps.len()
            &&& forall|j: int|
                0 <= j < idx.len() ==> #[trigger] inc[j] == (
                    maps[idx[j]],
                    s.assignments@[maps[idx[j]].source],
                    s.assignments@[maps[idx[j]].target],
                )
            &&& forall|j: int, k: int| 0 <= j < k < idx.len() ==> idx[j] < idx[k]
            &&& forall|i: int|
                0 <= i < maps.len() ==> ((s.assignments@.contains_key((#[trigger] maps[i]).source)
                    && s.assignments@.contains_key(maps[i].target)) <==> idx.contains(i))
        }),
{
    let maps = s.restriction_maps@;
    let idx = lemma_filter_positions(maps, evaluable_in(s));
    assert(evaluable_maps(s, maps) == maps.filter(evaluable_in(s)));
    assert forall|i: int| 0 <= i < maps.len() implies ((s.assignments@.contains_key(
        (#[trigger] maps[i]).source,
    ) && s.assignments@.contains_key(maps[i].target)) <==> idx.contains(i)) by {
        assert(evaluable_in(s)(maps[i]) == crate::coherence::evaluable(s, maps[i]));
    }
    assert forall|j: int| 0 <= j < idx.len() implies #[trigger] incidences_of(s, maps)[j] == (
        maps[idx[j]],
        s.assignments@[maps[idx[j]].source],
        s.assignments@[maps[idx[j]].target],
    ) by {
        assert(evaluable_maps(s, maps)[j] == maps[idx[j]]);
    }
    idx
}

/// The maps a pairwise disagreement looks at are, in order and once each,
/// exactly the restriction maps that go from `source_id` to `target_id`; a
/// map in the other direction is never one of them.
pub proof fn law_maps_between_direction<T>(maps: Seq<RestrictionMap<T>>, source_id: usize, target_id: usize) -> (idx: Seq<int>)
    ensures
        idx.len() == maps_between(maps, source_id, target_id).len(),
        forall|j: int| 0 <= j < idx.len() ==> 0 <= #[trigger] idx[j] < maps.len(),
        forall|j: int|
            0 <= j < idx.len() ==> #[trigger] maps_between(maps, source_id, target_id)[j] == maps[idx[j]],
        forall|j: int, k: int| 0 <= j < k < idx.len() ==> idx[j] < idx[k],
        forall|i: int|
            0 <= i < maps.len() ==> (((#[trigger] maps[i]).source == source_id && maps[i].target
                == target_id) <==> idx.contains(i)),
        forall|j: int|
            0 <= j < idx.len() ==> (#[trigger] maps_between(maps, source_id, target_id)[j]).source
                == source_id && maps_between(maps, source_id, target_id)[j].target == target_id,
{
    let idx = lemma_filter_positions(maps, goes_between::<T>(source_id, target_id));
    assert forall|i: int| 0 <= i < maps.len() implies (((#[trigger] maps[i]).source == source_id
        && maps[i].target == target_id) <==> idx.contains(i)) by {
        assert(goes_between::<T>(source_id, target_id)(maps[i]) == (maps[i].source == source_id
            && maps[i].target == target_id));
    }
    assert forall|j: int| 0 <= j < idx.len() implies (#[trigger] maps_between(maps, source_id, target_id)[j]).source
        == source_id && maps_between(maps, source_id, target_id)[j].target == target_id by {
        assert(maps_between(maps, source_id, target_id)[j] == maps[idx[j]]);
        assert(idx.contains(idx[j]));
    }
    idx
}

/// A sheaf with a cell that has no assignment, of whatever complex
/// dimension, is not fully assigned.
pub proof fn law_unassigned_cell_not_fully_assigned<T>(s: &Sheaf<T>, k: usize)
    requires
        s.cells@.contains_key(k),
        !s.assignments@.contains_key(k),
    ensures
        !fully_assigned(s),
{
}

/// A sheaf whose every cell has an assignment is fully assigned.
pub proof fn law_all_cells_assigned_fully_assigned<T>(s: &Sheaf<T>)
    requires
        forall|k: usize| s.cells@.contains_key(k) ==> s.assignments@.contains_key(k),
    ensures
        fully_assigned(s),
{
}

} // verus!
