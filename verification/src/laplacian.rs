//! Layout of the sheaf Laplacian.
//!
//! The Laplacian of a sheaf is a square matrix over the global vector, in
//! which every cell owns a block of rows and columns. This module decides
//! where each cell's block starts and which restriction maps contribute
//! blocks; the arithmetic that fills the blocks is done by the caller.
use crate::ids::{
    dims_total, lemma_dims_total_prefix, lemma_dims_total_step, lemma_sorted_ids,
    lemma_sorted_prefix, lemma_total_over_subset, id_bound, offset_of, sorted_ids,
};
use crate::sheaf::{RestrictionMap, Sheaf};
use std::collections::HashMap;
use vstd::prelude::*;

verus! {

broadcast use vstd::std_specs::hash::group_hash_axioms;

/// Where the block of cell `id` starts in the global vector of `s`.
pub open spec fn cell_offset<T>(s: &Sheaf<T>, id: usize) -> nat {
    offset_of(s.stalk_dimensions@, s.cells@.dom(), id)
}

/// The sum of stalk dimensions over the cells alone is bounded by the total
/// stalk dimension.
pub proof fn lemma_cells_total_bounded<T>(s: &Sheaf<T>)
    ensures
        dims_total(s.stalk_dimensions@, s.ids()) <= s.total_dimension(),
{
    lemma_total_over_subset(s.stalk_dimensions@, s.cells@.dom(), id_bound());
}

/// The offset of every cell in the global vector: the sum of the stalk
/// dimensions of the cells with smaller ids.
pub fn cell_offsets<T>(s: &Sheaf<T>) -> (offsets: HashMap<usize, usize>)
    requires
        s.total_dimension() <= usize::MAX,
    ensures
        offsets@.dom() == s.cells@.dom(),
        forall|id: usize| #[trigger]
            offsets@.contains_key(id) ==> offsets@[id] as nat == cell_offset(s, id),
{
    let ids = s.cell_ids();
    let ghost dims = s.stalk_dimensions@;
    let ghost dom = s.cells@.dom();
    proof {
        lemma_cells_total_bounded(s);
        lemma_sorted_ids(dom);
    }
    let mut offsets: HashMap<usize, usize> = HashMap::new();
    let mut offset: usize = 0;
    for i in 0..ids.len()
        invariant
            dims == s.stalk_dimensions@,
            dom == s.cells@.dom(),
            ids@ == sorted_ids(dom),
            crate::ids::strictly_increasing(ids@),
            forall|k: usize| #[trigger] ids@.contains(k) <==> dom.contains(k),
            dims_total(dims, ids@) <= usize::MAX,
            offset == dims_total(dims, ids@.take(i as int)),
            offsets@.dom() == ids@.take(i as int).to_set(),
            forall|id: usize| #[trigger]
                offsets@.contains_key(id) ==> offsets@[id] as nat == offset_of(dims, dom, id),
    {
        let id = ids[i];
        proof {
            lemma_sorted_prefix(dom, i as int);
            lemma_dims_total_step(dims, ids@, i as int);
            lemma_dims_total_prefix(dims, ids@, i + 1);
            assert(ids@.take(i + 1).to_set() == ids@.take(i as int).to_set().insert(id)) by {
                assert(ids@.take(i + 1) == ids@.take(i as int).push(id));
            }
        }
        offsets.insert(id, offset);
        let d = match s.stalk_dimensions.get(&id) {
            Some(d) => *d,
            None => 0,
        };
        offset = offset + d;
    }
    proof {
        assert(ids@.take(ids@.len() as int) == ids@);
        assert forall|k: usize| offsets@.dom().contains(k) <==> dom.contains(k) by {
            assert(ids@.to_set().contains(k) <==> ids@.contains(k));
        }
        assert(offsets@.dom() =~= dom);
    }
    offsets
}

/// A restriction map adds a block to the Laplacian of `s` when both of its
/// cells are cells of `s` and its matrix has at least one entry.
pub open spec fn contributes<T>(s: &Sheaf<T>, m: RestrictionMap<T>) -> bool {
    &&& s.cells@.contains_key(m.source)
    &&& s.cells@.contains_key(m.target)
    &&& m.matrix@.len() > 0
    &&& m.matrix@[0]@.len() > 0
}

/// Where a contributing map's blocks go: the offsets of its source and
/// target cells, with the map itself.
pub open spec fn placement<T>(s: &Sheaf<T>, m: RestrictionMap<T>) -> (nat, nat, RestrictionMap<T>) {
    (cell_offset(s, m.source), cell_offset(s, m.target), m)
}

/// The maps that add a block to the Laplacian of `s`.
pub open spec fn contributes_to<T>(s: &Sheaf<T>) -> spec_fn(RestrictionMap<T>) -> bool {
    |m: RestrictionMap<T>| contributes(s, m)
}

/// The contributing maps among `maps`, in their order.
pub open spec fn contributing<T>(s: &Sheaf<T>, maps: Seq<RestrictionMap<T>>) -> Seq<RestrictionMap<T>> {
    maps.filter(contributes_to(s))
}

/// The placements of the contributing maps among `maps`, in their order.
pub open spec fn layout_of<T>(s: &Sheaf<T>, maps: Seq<RestrictionMap<T>>) -> Seq<(nat, nat, RestrictionMap<T>)> {
    contributing(s, maps).map_values(|m: RestrictionMap<T>| placement(s, m))
}

/// The placements as plain values.
pub open spec fn placed<T>(r: Seq<(usize, usize, &RestrictionMap<T>)>) -> Seq<(nat, nat, RestrictionMap<T>)> {
    r.map_values(|e: (usize, usize, &RestrictionMap<T>)| (e.0 as nat, e.1 as nat, *e.2))
}

/// The blocks of the sheaf Laplacian, in the order of the restriction maps:
/// for each map `F: C_i -> C_j` that contributes, the offset of `C_i`, the
/// offset of `C_j` and `F`. The Laplacian receives `F^T F` at `(i, i)`,
/// `F F^T` at `(j, j)`, `-F^T` at `(i, j)` and `-F` at `(j, i)`.
pub fn laplacian_blocks<T>(s: &Sheaf<T>) -> (blocks: Vec<(usize, usize, &RestrictionMap<T>)>)
    requires
        s.total_dimension() <= usize::MAX,
    ensures
        placed(blocks@) == layout_of(s, s.restriction_maps@),
        forall|i: int|
            0 <= i < s.restriction_maps@.len() && s.cells@.contains_key(
                (#[trigger] s.restriction_maps@[i]).source,
            ) && s.cells@.contains_key(s.restriction_maps@[i].target)
                && s.restriction_maps@[i].matrix@.len() > 0
                && s.restriction_maps@[i].matrix@[0]@.len() > 0 ==> placed(blocks@).contains(
                (
                    cell_offset(s, s.restriction_maps@[i].source),
                    cell_offset(s, s.restriction_maps@[i].target),
                    s.restriction_maps@[i],
                ),
            ),
        forall|j: int|
            0 <= j < blocks@.len() ==> {
                let m = *(#[trigger] blocks@[j]).2;
                &&& s.restriction_maps@.contains(m)
                &&& s.cells@.contains_key(m.source)
                &&& s.cells@.contains_key(m.target)
                &&& m.matrix@.len() > 0
                &&& m.matrix@[0]@.len() > 0
                &&& blocks@[j].0 as nat == cell_offset(s, m.source)
                &&& blocks@[j].1 as nat == cell_offset(s, m.target)
            },
{
    let offsets = cell_offsets(s);
    let mut blocks: Vec<(usize, usize, &RestrictionMap<T>)> = Vec::new();
    for i in 0..s.restriction_maps.len()
        invariant
            offsets@.dom() == s.cells@.dom(),
            forall|id: usize| #[trigger]
                offsets@.contains_key(id) ==> offsets@[id] as nat == cell_offset(s, id),
            placed(blocks@) == layout_of(s, s.restriction_maps@.take(i as int)),
    {
        let ghost before = blocks@;
        let ghost prefix = s.restriction_maps@.take(i + 1);
        assert(prefix.drop_last() == s.restriction_maps@.take(i as int));
        assert(prefix.last() == s.restriction_maps@[i as int]);
        let map = &s.restriction_maps[i];
        proof {
            reveal(Seq::filter);
            let last = prefix.last();
            let c0 = contributing(s, prefix.drop_last());
            if contributes(s, last) {
                assert(contributing(s, prefix) == c0.push(last));
                assert(layout_of(s, prefix) =~= layout_of(s, prefix.drop_last()).push(placement(s, last)));
            } else {
                assert(contributing(s, prefix) == c0);
            }
        }
        match (offsets.get(&map.source), offsets.get(&map.target)) {
            (Some(src_offset), Some(tgt_offset)) => {
                if map.matrix.len() > 0 && map.matrix[0].len() > 0 {
                    blocks.push((*src_offset, *tgt_offset, map));
                    assert(placed(blocks@) =~= placed(before).push(placement(s, *map)));
                }
            },
            _ => {},
        }
    }
    assert(s.restriction_maps@.take(s.restriction_maps@.len() as int) == s.restriction_maps@);
    proof {
        let ms = s.restriction_maps@;
        let idx = crate::laws::law_laplacian_blocks_cover_maps(s);
        assert forall|i: int|
            0 <= i < ms.len() && s.cells@.contains_key((#[trigger] ms[i]).source) && s.cells@.contains_key(
                ms[i].target,
            ) && ms[i].matrix@.len() > 0 && ms[i].matrix@[0]@.len() > 0 implies placed(blocks@).contains(
            (cell_offset(s, ms[i].source), cell_offset(s, ms[i].target), ms[i]),
        ) by {
            assert(idx.contains(i));
            let j = choose|j: int| 0 <= j < idx.len() && idx[j] == i;
            assert(placed(blocks@)[j] == layout_of(s, ms)[j]);
        }
        assert forall|j: int| 0 <= j < blocks@.len() implies {
            let m = *(#[trigger] blocks@[j]).2;
            &&& ms.contains(m)
            &&& s.cells@.contains_key(m.source)
            &&& s.cells@.contains_key(m.target)
            &&& m.matrix@.len() > 0
            &&& m.matrix@[0]@.len() > 0
            &&& blocks@[j].0 as nat == cell_offset(s, m.source)
            &&& blocks@[j].1 as nat == cell_offset(s, m.target)
        } by {
            assert(placed(blocks@)[j] == layout_of(s, ms)[j]);
            assert(idx.contains(idx[j]));
            assert(ms[idx[j]] == *blocks@[j].2);
        }
    }
    blocks
}

} // verus!
