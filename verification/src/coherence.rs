//! Which restriction maps a coherence measure evaluates.
//!
//! A restriction map `F: C_i -> C_j` measures disagreement only where both
//! of its cells carry data; this module picks those maps out, together
//! with the two assignments each one compares. The disagreement itself,
//! `||F(x_i) - x_j||^2`, is computed by the caller.
use crate::sheaf::{Assignment, RestrictionMap, Sheaf};
use vstd::prelude::*;

verus! {

broadcast use vstd::std_specs::hash::group_hash_axioms;

/// Both cells of `m` carry an assignment in `s`.
pub open spec fn evaluable<T>(s: &Sheaf<T>, m: RestrictionMap<T>) -> bool {
    s.assignments@.contains_key(m.source) && s.assignments@.contains_key(m.target)
}

/// The maps evaluable in `s`.
pub open spec fn evaluable_in<T>(s: &Sheaf<T>) -> spec_fn(RestrictionMap<T>) -> bool {
    |m: RestrictionMap<T>| evaluable(s, m)
}

/// The evaluable maps among `maps`, in their order.
pub open spec fn evaluable_maps<T>(s: &Sheaf<T>, maps: Seq<RestrictionMap<T>>) -> Seq<RestrictionMap<T>> {
    maps.filter(evaluable_in(s))
}

/// A map with the assignments of its source and target.
pub open spec fn incidence<T>(s: &Sheaf<T>, m: RestrictionMap<T>) -> (RestrictionMap<T>, Assignment<T>, Assignment<T>) {
    (m, s.assignments@[m.source], s.assignments@[m.target])
}

/// The incidences of the evaluable maps among `maps`, in their order.
pub open spec fn incidences_of<T>(s: &Sheaf<T>, maps: Seq<RestrictionMap<T>>) -> Seq<(RestrictionMap<T>, Assignment<T>, Assignment<T>)> {
    evaluable_maps(s, maps).map_values(|m: RestrictionMap<T>| incidence(s, m))
}

/// A reference triple as plain values.
pub open spec fn deref_incidence<T>(e: (&RestrictionMap<T>, &Assignment<T>, &Assignment<T>)) -> (RestrictionMap<T>, Assignment<T>, Assignment<T>) {
    (*e.0, *e.1, *e.2)
}

/// A sequence of reference triples as plain values.
pub open spec fn deref_incidences<T>(r: Seq<(&RestrictionMap<T>, &Assignment<T>, &Assignment<T>)>) -> Seq<(RestrictionMap<T>, Assignment<T>, Assignment<T>)> {
    r.map_values(|e: (&RestrictionMap<T>, &Assignment<T>, &Assignment<T>)| deref_incidence(e))
}

/// Every restriction map whose source and target both carry data, in the
/// order of the maps, with the source's and the target's assignment.
///
/// The coherence energy is the sum of the disagreements of these maps, its
/// normalized form divides by their number, and a cell's incoherence sums
/// the disagreements of those among them that touch the cell.
pub fn assigned_incidences<T>(s: &Sheaf<T>) -> (r: Vec<(&RestrictionMap<T>, &Assignment<T>, &Assignment<T>)>)
    ensures
        deref_incidences(r@) == incidences_of(s, s.restriction_maps@),
        forall|i: int|
            0 <= i < s.restriction_maps@.len() && s.assignments@.contains_key(
                (#[trigger] s.restriction_maps@[i]).source,
            ) && s.assignments@.contains_key(s.restriction_maps@[i].target)
                ==> deref_incidences(r@).contains(
                (
                    s.restriction_maps@[i],
                    s.assignments@[s.restriction_maps@[i].source],
                    s.assignments@[s.restriction_maps@[i].target],
                ),
            ),
        forall|j: int|
            0 <= j < r@.len() ==> {
                let m = *(#[trigger] r@[j]).0;
                &&& s.restriction_maps@.contains(m)
                &&& s.assignments@.contains_key(m.source)
                &&& s.assignments@.contains_key(m.target)
                &&& *r@[j].1 == s.assignments@[m.source]
                &&& *r@[j].2 == s.assignments@[m.target]
            },
{
    let mut r: Vec<(&RestrictionMap<T>, &Assignment<T>, &Assignment<T>)> = Vec::new();
    for i in 0..s.restriction_maps.len()
        invariant
            deref_incidences(r@) == incidences_of(s, s.restriction_maps@.take(i as int)),
    {
        let ghost before = r@;
        let ghost prefix = s.restriction_maps@.take(i + 1);
        assert(prefix.drop_last() == s.restriction_maps@.take(i as int));
        assert(prefix.last() == s.restriction_maps@[i as int]);
        let map = &s.restriction_maps[i];
        proof {
            reveal(Seq::filter);
            let last = prefix.last();
            let e0 = evaluable_maps(s, prefix.drop_last());
            if evaluable(s, last) {
                assert(evaluable_maps(s, prefix) == e0.push(last));
                assert(incidences_of(s, prefix) =~= incidences_of(s, prefix.drop_last()).push(
                    incidence(s, last),
                ));
            } else {
                assert(evaluable_maps(s, prefix) == e0);
            }
        }
        match (s.assignments.get(&map.source), s.assignments.get(&map.target)) {
            (Some(src), Some(tgt)) => {
                r.push((map, src, tgt));
                assert(deref_incidences(r@) =~= deref_incidences(before).push(incidence(s, *map)));
            },
            _ => {},
        }
    }
    assert(s.restriction_maps@.take(s.restriction_maps@.len() as int) == s.restriction_maps@);
    proof {
        let ms = s.restriction_maps@;
        let idx = crate::laws::law_assigned_incidences_cover_maps(s);
        assert forall|i: int|
            0 <= i < ms.len() && s.assignments@.contains_key((#[trigger] ms[i]).source)
                && s.assignments@.contains_key(ms[i].target) implies deref_incidences(r@).contains(
            (ms[i], s.assignments@[ms[i].source], s.assignments@[ms[i].target]),
        ) by {
            assert(idx.contains(i));
            let j = choose|j: int| 0 <= j < idx.len() && idx[j] == i;
            assert(deref_incidences(r@)[j] == incidences_of(s, ms)[j]);
        }
        assert forall|j: int| 0 <= j < r@.len() implies {
            let m = *(#[trigger] r@[j]).0;
            &&& ms.contains(m)
            &&& s.assignments@.contains_key(m.source)
            &&& s.assignments@.contains_key(m.target)
            &&& *r@[j].1 == s.assignments@[m.source]
            &&& *r@[j].2 == s.assignments@[m.target]
        } by {
            assert(deref_incidences(r@)[j] == deref_incidence(r@[j]));
            assert(deref_incidences(r@)[j] == incidences_of(s, ms)[j]);
            assert(idx.contains(idx[j]));
            assert(ms[idx[j]] == *r@[j].0);
        }
    }
    r
}

/// The maps from `source_id` to `target_id`.
pub open spec fn goes_between<T>(source_id: usize, target_id: usize) -> spec_fn(RestrictionMap<T>) -> bool {
    |m: RestrictionMap<T>| m.source == source_id && m.target == target_id
}

/// The maps of `maps` from `source_id` to `target_id`, in their order.
pub open spec fn maps_between<T>(maps: Seq<RestrictionMap<T>>, source_id: usize, target_id: usize) -> Seq<RestrictionMap<T>> {
    maps.filter(goes_between(source_id, target_id))
}

/// The incidence that the pairwise disagreement of `source_id` and
/// `target_id` measures: the first restriction map from `source_id` to
/// `target_id`, with both cells' assignments. `None` when there is no such
/// map or either cell has no assignment.
pub fn pairwise_incidence<T>(s: &Sheaf<T>, source_id: usize, target_id: usize) -> (r: Option<(&RestrictionMap<T>, &Assignment<T>, &Assignment<T>)>)
    ensures
        ({
            let between = maps_between(s.restriction_maps@, source_id, target_id);
            match r {
                Some(e) => {
                    &&& between.len() > 0
                    &&& s.assignments@.contains_key(source_id)
                    &&& s.assignments@.contains_key(target_id)
                    &&& deref_incidence(e) == incidence(s, between[0])
                },
                None => between.len() == 0 || !s.assignments@.contains_key(source_id)
                    || !s.assignments@.contains_key(target_id),
            }
        }),
        ({
            let maps = s.restriction_maps@;
            match r {
                Some(e) => {
                    &&& (*e.0).source == source_id
                    &&& (*e.0).target == target_id
                    &&& *e.1 == s.assignments@[source_id]
                    &&& *e.2 == s.assignments@[target_id]
                    &&& exists|i: int|
                        0 <= i < maps.len() && maps[i] == *e.0 && forall|j: int|
                            0 <= j < i ==> !((#[trigger] maps[j]).source == source_id
                                && maps[j].target == target_id)
                },
                None => (forall|i: int|
                    0 <= i < maps.len() ==> !((#[trigger] maps[i]).source == source_id
                        && maps[i].target == target_id)) || !s.assignments@.contains_key(source_id)
                    || !s.assignments@.contains_key(target_id),
            }
        }),
{
    for i in 0..s.restriction_maps.len()
        invariant
            maps_between(s.restriction_maps@.take(i as int), source_id, target_id).len() == 0,
    {
        let ghost prefix = s.restriction_maps@.take(i + 1);
        assert(prefix.drop_last() == s.restriction_maps@.take(i as int));
        assert(prefix.last() == s.restriction_maps@[i as int]);
        proof {
            reveal(Seq::filter);
        }
        let map = &s.restriction_maps[i];
        if map.source == source_id && map.target == target_id {
            proof {
                let ms = s.restriction_maps@;
                lemma_first_between(ms, source_id, target_id, i as int);
                let idx = crate::laws::law_maps_between_direction(ms.take(i as int), source_id, target_id);
                assert forall|j: int| 0 <= j < i implies !((#[trigger] ms[j]).source == source_id
                    && ms[j].target == target_id) by {
                    assert(ms.take(i as int)[j] == ms[j]);
                    if ms[j].source == source_id && ms[j].target == target_id {
                        assert(idx.contains(j));
                    }
                }
                assert(ms[i as int] == *map);
            }
            match (s.assignments.get(&source_id), s.assignments.get(&target_id)) {
                (Some(src), Some(tgt)) => {
                    return Some((map, src, tgt));
                },
                _ => {
                    return None;
                },
            }
        }
    }
    assert(s.restriction_maps@.take(s.restriction_maps@.len() as int) == s.restriction_maps@);
    proof {
        let ms = s.restriction_maps@;
        let idx = crate::laws::law_maps_between_direction(ms, source_id, target_id);
        assert forall|i: int| 0 <= i < ms.len() implies !((#[trigger] ms[i]).source == source_id
            && ms[i].target == target_id) by {
            if ms[i].source == source_id && ms[i].target == target_id {
                assert(idx.contains(i));
            }
        }
    }
    None
}

/// If no map before position `i` goes from `source_id` to `target_id` and
/// the one at `i` does, it is the first such map.
proof fn lemma_first_between<T>(maps: Seq<RestrictionMap<T>>, source_id: usize, target_id: usize, i: int)
    requires
        0 <= i < maps.len(),
        maps_between(maps.take(i), source_id, target_id).len() == 0,
        maps[i].source == source_id && maps[i].target == target_id,
    ensures
        maps_between(maps, source_id, target_id).len() > 0,
        maps_between(maps, source_id, target_id)[0] == maps[i],
    decreases maps.len(),
{
    reveal(Seq::filter);
    if i == maps.len() - 1 {
        assert(maps.drop_last() == maps.take(i));
    } else {
        assert(maps.drop_last().take(i) == maps.take(i));
        lemma_first_between(maps.drop_last(), source_id, target_id, i);
        let b0 = maps_between(maps.drop_last(), source_id, target_id);
        let last = maps.last();
        if last.source == source_id && last.target == target_id {
            assert(maps_between(maps, source_id, target_id) == b0.push(last));
        } else {
            assert(maps_between(maps, source_id, target_id) == b0);
        }
    }
}

} // verus!
