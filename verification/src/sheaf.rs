//! Cellular sheaf data structure with assignments and restriction maps.
//!
//! The scalar type `T` of stalk data and of restriction-map entries is a
//! parameter: everything here moves, copies and lays out scalars but never
//! computes with them.
use crate::ids::{
    dim_or_zero, dims_total, lemma_dims_total_prefix, lemma_dims_total_step, lemma_sorted_ids,
    lemma_uniform_total, sorted_ids, sorted_keys, strictly_increasing,
};
use std::collections::HashMap;
use vstd::prelude::*;
use vstd::std_specs::convert::FromSpec;

verus! {

broadcast use vstd::std_specs::hash::group_hash_axioms;

/// `x` is what converting the byte `n` into `T` gives, as far as `T`'s
/// conversion has a specification.
pub open spec fn from_byte<T: From<u8>>(x: T, n: u8) -> bool {
    <T as FromSpec<u8>>::obeys_from_spec() ==> x == <T as FromSpec<u8>>::from_spec(n)
}

/// `n` copies of `x`.
pub open spec fn repeat<T>(x: T, n: nat) -> Seq<T> {
    Seq::new(n, |_i: int| x)
}

/// The maps a sequence of references points to.
pub open spec fn derefs<T>(r: Seq<&RestrictionMap<T>>) -> Seq<RestrictionMap<T>> {
    r.map_values(|m: &RestrictionMap<T>| *m)
}

/// The maps with source `id`.
pub open spec fn source_is<T>(id: usize) -> spec_fn(RestrictionMap<T>) -> bool {
    |m: RestrictionMap<T>| m.source == id
}

/// The maps with target `id`.
pub open spec fn target_is<T>(id: usize) -> spec_fn(RestrictionMap<T>) -> bool {
    |m: RestrictionMap<T>| m.target == id
}

/// The maps of `maps` whose source is `id`, in their order.
pub open spec fn maps_with_source<T>(maps: Seq<RestrictionMap<T>>, id: usize) -> Seq<RestrictionMap<T>> {
    maps.filter(source_is(id))
}

/// The maps of `maps` whose target is `id`, in their order.
pub open spec fn maps_with_target<T>(maps: Seq<RestrictionMap<T>>, id: usize) -> Seq<RestrictionMap<T>> {
    maps.filter(target_is(id))
}

/// A cell in the cellular complex, identified by an index and dimension.
#[derive(Debug, Clone, PartialEq, Eq, Structural)]
pub struct Cell {
    pub id: usize,
    pub dimension: usize,
}

impl Cell {
    pub fn new(id: usize, dimension: usize) -> (c: Self)
        ensures
            c.id == id,
            c.dimension == dimension,
    {
        Cell { id, dimension }
    }
}

/// A restriction map between two cells, represented as a matrix (row-major).
#[derive(Debug, Clone)]
pub struct RestrictionMap<T> {
    pub source: usize,
    pub target: usize,
    pub matrix: Vec<Vec<T>>,
}

/// The entries of a matrix, row by row.
pub open spec fn entries<T>(matrix: Seq<Vec<T>>) -> Seq<Seq<T>> {
    matrix.map_values(|row: Vec<T>| row@)
}

/// Every row is at least as long as the first one (the rows `transpose`
/// reads from are all there).
pub open spec fn rows_cover_first<T>(m: Seq<Seq<T>>) -> bool {
    m.len() > 0 ==> forall|i: int| 0 <= i < m.len() ==> #[trigger] m[i].len() >= m[0].len()
}

/// `t` is the transpose of `m`, reading `m`'s width off its first row.
pub open spec fn is_transpose<T>(m: Seq<Seq<T>>, t: Seq<Seq<T>>) -> bool {
    if m.len() == 0 {
        t.len() == 0
    } else {
        &&& t.len() == m[0].len()
        &&& forall|j: int| 0 <= j < t.len() ==> #[trigger] t[j].len() == m.len()
        &&& forall|i: int, j: int|
            0 <= i < m.len() && 0 <= j < t.len() ==> #[trigger] t[j][i] == m[i][j]
    }
}

impl<T> RestrictionMap<T> {
    /// The matrix entries, row by row.
    pub open spec fn rows(&self) -> Seq<Seq<T>> {
        entries(self.matrix@)
    }

    pub fn new(source: usize, target: usize, matrix: Vec<Vec<T>>) -> (m: Self)
        ensures
            m.source == source,
            m.target == target,
            m.matrix == matrix,
    {
        RestrictionMap { source, target, matrix }
    }

    /// Transpose of the restriction map.
    pub fn transpose(&self) -> (t: RestrictionMap<T>)
        where
            T: Copy,
        requires
            rows_cover_first(self.rows()),
        ensures
            t.source == self.target,
            t.target == self.source,
            is_transpose(self.rows(), t.rows()),
    {
        if self.matrix.len() == 0 {
            return RestrictionMap::new(self.target, self.source, Vec::new());
        }
        let rows = self.matrix.len();
        let cols = self.matrix[0].len();
        let ghost m = self.rows();
        let mut t: Vec<Vec<T>> = Vec::new();
        for j in 0..cols
            invariant
                rows == m.len(),
                m == self.rows(),
                cols == m[0].len(),
                rows_cover_first(m),
                t@.len() == j,
                forall|jj: int| 0 <= jj < j ==> #[trigger] t@[jj]@.len() == rows,
                forall|i: int, jj: int| 0 <= i < rows && 0 <= jj < j ==> #[trigger] t@[jj]@[i] == m[i][jj],
        {
            let mut column: Vec<T> = Vec::new();
            for i in 0..rows
                invariant
                    rows == m.len(),
                    m == self.rows(),
                    cols == m[0].len(),
                    rows_cover_first(m),
                    j < cols,
                    column@.len() == i,
                    forall|ii: int| 0 <= ii < i ==> #[trigger] column@[ii] == m[ii][j as int],
            {
                assert(m[i as int].len() >= cols);
                assert(self.matrix@[i as int]@ == m[i as int]);
                column.push(self.matrix[i][j]);
            }
            t.push(column);
        }
        let r = RestrictionMap::new(self.target, self.source, t);
        assert(is_transpose(self.rows(), r.rows()));
        r
    }

    /// Number of output dimensions (rows).
    pub fn output_dim(&self) -> (n: usize)
        ensures
            n == self.matrix@.len(),
    {
        self.matrix.len()
    }

    /// Number of input dimensions (columns).
    pub fn input_dim(&self) -> (n: usize)
        ensures
            n == (if self.matrix@.len() == 0 {
                0
            } else {
                self.matrix@[0]@.len()
            }),
    {
        if self.matrix.len() == 0 {
            0
        } else {
            self.matrix[0].len()
        }
    }
}

/// Assignment of data to a cell.
#[derive(Debug, Clone)]
pub struct Assignment<T> {
    pub cell_id: usize,
    pub data: Vec<T>,
}

impl<T> Assignment<T> {
    pub fn new(cell_id: usize, data: Vec<T>) -> (a: Self)
        ensures
            a.cell_id == cell_id,
            a.data == data,
    {
        Assignment { cell_id, data }
    }

    /// Dimension of the assigned data.
    pub fn dimension(&self) -> (n: usize)
        ensures
            n == self.data@.len(),
    {
        self.data.len()
    }
}

/// A cellular sheaf: assigns vector spaces to cells and linear maps to incidences.
#[derive(Debug, Clone)]
pub struct Sheaf<T> {
    pub cells: HashMap<usize, Cell>,
    pub stalk_dimensions: HashMap<usize, usize>,
    pub restriction_maps: Vec<RestrictionMap<T>>,
    pub assignments: HashMap<usize, Assignment<T>>,
}

impl<T> Sheaf<T> {
    /// The cells and stalks describe the same ids, each cell and each
    /// assignment is stored under its own id.
    pub open spec fn wf(&self) -> bool {
        &&& self.stalk_dimensions@.dom() == self.cells@.dom()
        &&& forall|k: usize| #[trigger] self.cells@.contains_key(k) ==> self.cells@[k].id == k
        &&& forall|k: usize| #[trigger] self.assignments@.contains_key(k) ==> self.assignments@[k].cell_id == k
    }

    /// Every assignment of a cell holds as many entries as the cell's stalk
    /// dimension.
    pub open spec fn assignments_fit(&self) -> bool {
        forall|k: usize| #[trigger]
            self.cells@.contains_key(k) && self.assignments@.contains_key(k)
                ==> self.assignments@[k].data@.len() == self.dim_of(k)
    }

    /// Cell ids in ascending order.
    pub open spec fn ids(&self) -> Seq<usize> {
        sorted_ids(self.cells@.dom())
    }

    /// The stalk dimension of a cell, zero where it has none.
    pub open spec fn dim_of(&self, id: usize) -> nat {
        dim_or_zero(self.stalk_dimensions@, id)
    }

    /// Sum of all stalk dimensions.
    pub open spec fn total_dimension(&self) -> nat {
        dims_total(self.stalk_dimensions@, sorted_ids(self.stalk_dimensions@.dom()))
    }

    /// Sum of the stalk dimensions of the cells.
    pub open spec fn cells_dimension(&self) -> nat {
        dims_total(self.stalk_dimensions@, self.ids())
    }

    /// The data a cell contributes to the global vector: its assignment, or
    /// `fill` repeated over its stalk where it has none.
    pub open spec fn block(&self, id: usize, fill: T) -> Seq<T> {
        if self.assignments@.contains_key(id) {
            self.assignments@[id].data@
        } else if self.stalk_dimensions@.contains_key(id) {
            repeat(fill, self.stalk_dimensions@[id] as nat)
        } else {
            Seq::empty()
        }
    }

    /// The blocks of `ids`, one after the other.
    pub open spec fn blocks(&self, ids: Seq<usize>, fill: T) -> Seq<T>
        decreases ids.len(),
    {
        if ids.len() == 0 {
            Seq::empty()
        } else {
            self.blocks(ids.drop_last(), fill) + self.block(ids.last(), fill)
        }
    }

    /// The global vector: the blocks of all cells in ascending id order.
    pub open spec fn global_vector(&self, fill: T) -> Seq<T> {
        self.blocks(self.ids(), fill)
    }

    pub fn new() -> (s: Self)
        ensures
            s.cells@ == Map::<usize, Cell>::empty(),
            s.stalk_dimensions@ == Map::<usize, usize>::empty(),
            s.restriction_maps@ == Seq::<RestrictionMap<T>>::empty(),
            s.assignments@ == Map::<usize, Assignment<T>>::empty(),
            s.wf(),
    {
        let s = Sheaf {
            cells: HashMap::new(),
            stalk_dimensions: HashMap::new(),
            restriction_maps: Vec::new(),
            assignments: HashMap::new(),
        };
        assert(s.stalk_dimensions@.dom() =~= s.cells@.dom());
        s
    }

    /// Add a cell to the sheaf.
    pub fn add_cell(&mut self, cell: Cell, stalk_dimension: usize)
        ensures
            final(self).cells@ == old(self).cells@.insert(cell.id, cell),
            final(self).stalk_dimensions@ == old(self).stalk_dimensions@.insert(cell.id, stalk_dimension),
            final(self).restriction_maps@ == old(self).restriction_maps@,
            final(self).assignments@ == old(self).assignments@,
            old(self).wf() ==> final(self).wf(),
    {
        let id = cell.id;
        self.stalk_dimensions.insert(id, stalk_dimension);
        self.cells.insert(id, cell);
    }

    /// Add a restriction map between two cells.
    pub fn add_restriction_map(&mut self, map: RestrictionMap<T>)
        ensures
            final(self).cells@ == old(self).cells@,
            final(self).stalk_dimensions@ == old(self).stalk_dimensions@,
            final(self).restriction_maps@ == old(self).restriction_maps@.push(map),
            final(self).assignments@ == old(self).assignments@,
            old(self).wf() ==> final(self).wf(),
    {
        self.restriction_maps.push(map);
    }

    /// Assign data to a cell.
    pub fn assign(&mut self, assignment: Assignment<T>)
        ensures
            final(self).cells@ == old(self).cells@,
            final(self).stalk_dimensions@ == old(self).stalk_dimensions@,
            final(self).restriction_maps@ == old(self).restriction_maps@,
            final(self).assignments@ == old(self).assignments@.insert(assignment.cell_id, assignment),
            old(self).wf() ==> final(self).wf(),
    {
        let id = assignment.cell_id;
        self.assignments.insert(id, assignment);
    }

    /// Get the stalk dimension for a cell.
    pub fn stalk_dim(&self, cell_id: usize) -> (r: Option<usize>)
        ensures
            r == (if self.stalk_dimensions@.contains_key(cell_id) {
                Some(self.stalk_dimensions@[cell_id])
            } else {
                None
            }),
    {
        match self.stalk_dimensions.get(&cell_id) {
            Some(d) => Some(*d),
            None => None,
        }
    }

    /// Get all cell IDs.
    pub fn cell_ids(&self) -> (ids: Vec<usize>)
        ensures
            ids@ == self.ids(),
            strictly_increasing(ids@),
            forall|k: usize| #[trigger] ids@.contains(k) <==> self.cells@.contains_key(k),
    {
        proof {
            lemma_sorted_ids(self.cells@.dom());
        }
        sorted_keys(&self.cells)
    }

    /// Total dimension of the global section space.
    pub fn global_dimension(&self) -> (n: usize)
        requires
            self.total_dimension() <= usize::MAX,
        ensures
            n == self.total_dimension(),
    {
        let keys = sorted_keys(&self.stalk_dimensions);
        let ghost dims = self.stalk_dimensions@;
        proof {
            lemma_sorted_ids(dims.dom());
        }
        let mut total: usize = 0;
        for i in 0..keys.len()
            invariant
                dims == self.stalk_dimensions@,
                keys@ == sorted_ids(dims.dom()),
                forall|k: usize| #[trigger] keys@.contains(k) <==> dims.contains_key(k),
                self.total_dimension() <= usize::MAX,
                total == dims_total(dims, keys@.take(i as int)),
        {
            let id = keys[i];
            assert(keys@.contains(id));
            proof {
                lemma_dims_total_step(dims, keys@, i as int);
                lemma_dims_total_prefix(dims, keys@, i + 1);
            }
            let d = *self.stalk_dimensions.get(&id).unwrap();
            total = total + d;
        }
        assert(keys@.take(keys@.len() as int) == keys@);
        total
    }

    /// Whether the total stalk dimension fits in a `usize`.
    pub fn dimension_fits(&self) -> (r: bool)
        ensures
            r == (self.total_dimension() <= usize::MAX),
    {
        let keys = sorted_keys(&self.stalk_dimensions);
        let ghost dims = self.stalk_dimensions@;
        proof {
            lemma_sorted_ids(dims.dom());
        }
        let mut total: usize = 0;
        for i in 0..keys.len()
            invariant
                dims == self.stalk_dimensions@,
                keys@ == sorted_ids(dims.dom()),
                forall|k: usize| #[trigger] keys@.contains(k) <==> dims.contains_key(k),
                total == dims_total(dims, keys@.take(i as int)),
        {
            let id = keys[i];
            assert(keys@.contains(id));
            proof {
                lemma_dims_total_step(dims, keys@, i as int);
                lemma_dims_total_prefix(dims, keys@, i + 1);
            }
            let d = *self.stalk_dimensions.get(&id).unwrap();
            match total.checked_add(d) {
                Some(t) => total = t,
                None => return false,
            }
        }
        assert(keys@.take(keys@.len() as int) == keys@);
        true
    }

    /// Get restriction maps involving a specific cell as source.
    pub fn maps_from(&self, cell_id: usize) -> (r: Vec<&RestrictionMap<T>>)
        ensures
            derefs(r@) == maps_with_source(self.restriction_maps@, cell_id),
            forall|i: int|
                0 <= i < self.restriction_maps@.len() && (#[trigger] self.restriction_maps@[i]).source
                    == cell_id ==> derefs(r@).contains(self.restriction_maps@[i]),
            forall|j: int| 0 <= j < r@.len() ==> (#[trigger] r@[j]).source == cell_id,
    {
        let mut r: Vec<&RestrictionMap<T>> = Vec::new();
        proof {
            reveal(Seq::filter);
        }
        for i in 0..self.restriction_maps.len()
            invariant
                derefs(r@) == maps_with_source(self.restriction_maps@.take(i as int), cell_id),
        {
            let ghost before = r@;
            let ghost s = self.restriction_maps@.take(i + 1);
            proof {
                reveal(Seq::filter);
            }
            assert(s.drop_last() == self.restriction_maps@.take(i as int));
            assert(s.last() == self.restriction_maps@[i as int]);
            if self.restriction_maps[i].source == cell_id {
                r.push(&self.restriction_maps[i]);
                assert(derefs(r@) =~= derefs(before).push(self.restriction_maps@[i as int]));
            }
        }
        assert(self.restriction_maps@.take(self.restriction_maps@.len() as int) == self.restriction_maps@);
        proof {
            let ms = self.restriction_maps@;
            let idx = crate::laws::law_maps_from_selects_source(ms, cell_id);
            assert forall|i: int| 0 <= i < ms.len() && (#[trigger] ms[i]).source == cell_id implies derefs(
                r@,
            ).contains(ms[i]) by {
                assert(idx.contains(i));
                let j = choose|j: int| 0 <= j < idx.len() && idx[j] == i;
                assert(derefs(r@)[j] == ms[i]);
            }
            assert forall|j: int| 0 <= j < r@.len() implies (#[trigger] r@[j]).source == cell_id by {
                assert(derefs(r@)[j] == *r@[j]);
                assert(derefs(r@)[j] == ms[idx[j]]);
                assert(idx.contains(idx[j]));
            }
        }
        r
    }

    /// Get restriction maps involving a specific cell as target.
    pub fn maps_to(&self, cell_id: usize) -> (r: Vec<&RestrictionMap<T>>)
        ensures
            derefs(r@) == maps_with_target(self.restriction_maps@, cell_id),
            forall|i: int|
                0 <= i < self.restriction_maps@.len() && (#[trigger] self.restriction_maps@[i]).target
                    == cell_id ==> derefs(r@).contains(self.restriction_maps@[i]),
            forall|j: int| 0 <= j < r@.len() ==> (#[trigger] r@[j]).target == cell_id,
    {
        let mut r: Vec<&RestrictionMap<T>> = Vec::new();
        proof {
            reveal(Seq::filter);
        }
        for i in 0..self.restriction_maps.len()
            invariant
                derefs(r@) == maps_with_target(self.restriction_maps@.take(i as int), cell_id),
        {
            let ghost before = r@;
            let ghost s = self.restriction_maps@.take(i + 1);
            proof {
                reveal(Seq::filter);
            }
            assert(s.drop_last() == self.restriction_maps@.take(i as int));
            assert(s.last() == self.restriction_maps@[i as int]);
            if self.restriction_maps[i].target == cell_id {
                r.push(&self.restriction_maps[i]);
                assert(derefs(r@) =~= derefs(before).push(self.restriction_maps@[i as int]));
            }
        }
        assert(self.restriction_maps@.take(self.restriction_maps@.len() as int) == self.restriction_maps@);
        proof {
            let ms = self.restriction_maps@;
            let idx = crate::laws::law_maps_to_selects_target(ms, cell_id);
            assert forall|i: int| 0 <= i < ms.len() && (#[trigger] ms[i]).target == cell_id implies derefs(
                r@,
            ).contains(ms[i]) by {
                assert(idx.contains(i));
                let j = choose|j: int| 0 <= j < idx.len() && idx[j] == i;
                assert(derefs(r@)[j] == ms[i]);
            }
            assert forall|j: int| 0 <= j < r@.len() implies (#[trigger] r@[j]).target == cell_id by {
                assert(derefs(r@)[j] == *r@[j]);
                assert(derefs(r@)[j] == ms[idx[j]]);
                assert(idx.contains(idx[j]));
            }
        }
        r
    }

    /// Build the global assignment vector (concatenation of all cell assignments in order).
    ///
    /// A cell without an assignment contributes zeros over its stalk.
    pub fn global_assignment(&self) -> (v: Vec<T>)
        where
            T: Copy + From<u8>,
        ensures
            exists|zero: T| from_byte(zero, 0u8) && v@ == self.global_vector(zero),
    {
        let zero = T::from(0u8);
        let ids = self.cell_ids();
        let mut v: Vec<T> = Vec::new();
        for i in 0..ids.len()
            invariant
                ids@ == self.ids(),
                v@ == self.blocks(ids@.take(i as int), zero),
        {
            let id = ids[i];
            let ghost start = v@;
            assert(ids@.take(i + 1).drop_last() == ids@.take(i as int));
            match self.assignments.get(&id) {
                Some(a) => {
                    for k in 0..a.data.len()
                        invariant
                            v@ == start + a.data@.take(k as int),
                    {
                        assert(a.data@.take(k + 1) == a.data@.take(k as int).push(a.data@[k as int]));
                        v.push(a.data[k]);
                    }
                    assert(a.data@.take(a.data@.len() as int) == a.data@);
                },
                None => {
                    match self.stalk_dimensions.get(&id) {
                        Some(d) => {
                            let dim: usize = *d;
                            for k in 0..dim
                                invariant
                                    v@ == start + repeat(zero, k as nat),
                            {
                                assert(repeat(zero, (k + 1) as nat) == repeat(zero, k as nat).push(zero));
                                v.push(zero);
                            }
                        },
                        None => {
                            assert(v@ == start + Seq::<T>::empty());
                        },
                    }
                },
            }
        }
        assert(ids@.take(ids@.len() as int) == ids@);
        assert(from_byte(zero, 0u8) && v@ == self.global_vector(zero));
        v
    }

    /// Count restriction maps.
    pub fn num_maps(&self) -> (n: usize)
        ensures
            n == self.restriction_maps@.len(),
    {
        self.restriction_maps.len()
    }

    /// Count cells.
    pub fn num_cells(&self) -> (n: usize)
        ensures
            n == self.cells@.dom().len(),
    {
        self.cells.len()
    }
}

/// `m` is the `dim`-by-`dim` identity matrix written with `one` and `zero`.
pub open spec fn is_identity<T>(m: Seq<Seq<T>>, dim: nat, one: T, zero: T) -> bool {
    &&& m.len() == dim
    &&& forall|i: int| 0 <= i < dim ==> #[trigger] m[i].len() == dim
    &&& forall|i: int, j: int|
        0 <= i < dim && 0 <= j < dim ==> #[trigger] m[i][j] == if i == j {
            one
        } else {
            zero
        }
}

/// The (source, target) pairs of a sequence of restriction maps.
pub open spec fn incidences<T>(maps: Seq<RestrictionMap<T>>) -> Seq<(usize, usize)> {
    maps.map_values(|m: RestrictionMap<T>| (m.source, m.target))
}

/// The `dim`-by-`dim` identity matrix.
fn identity_matrix<T: Copy>(dim: usize, one: T, zero: T) -> (m: Vec<Vec<T>>)
    ensures
        is_identity(entries(m@), dim as nat, one, zero),
{
    let mut m: Vec<Vec<T>> = Vec::new();
    for i in 0..dim
        invariant
            m@.len() == i,
            forall|ii: int| 0 <= ii < i ==> #[trigger] m@[ii]@.len() == dim,
            forall|ii: int, j: int|
                0 <= ii < i && 0 <= j < dim ==> #[trigger] m@[ii]@[j] == if ii == j {
                    one
                } else {
                    zero
                },
    {
        let mut row: Vec<T> = Vec::new();
        for j in 0..dim
            invariant
                row@.len() == j,
                forall|jj: int| 0 <= jj < j ==> #[trigger] row@[jj] == if i == jj {
                    one
                } else {
                    zero
                },
        {
            if i == j {
                row.push(one);
            } else {
                row.push(zero);
            }
        }
        m.push(row);
    }
    m
}

/// Build a simple line sheaf: 3 cells (vertices + edge) with identity restriction maps.
pub fn line_sheaf<T: Copy + From<u8>>(dim: usize) -> (s: Sheaf<T>)
    ensures
        s.wf(),
        s.cells@ == map![
            0usize => (Cell { id: 0, dimension: 0 }),
            1usize => (Cell { id: 1, dimension: 0 }),
            2usize => (Cell { id: 2, dimension: 1 }),
        ],
        s.stalk_dimensions@ == map![0usize => dim, 1usize => dim, 2usize => dim],
        s.assignments@ == Map::<usize, Assignment<T>>::empty(),
        incidences(s.restriction_maps@) == seq![(2usize, 0usize), (2usize, 1usize)],
        exists|one: T, zero: T|
            from_byte(one, 1u8) && from_byte(zero, 0u8) && forall|k: int|
                0 <= k < s.restriction_maps@.len() ==> is_identity(
                    #[trigger] s.restriction_maps@[k].rows(),
                    dim as nat,
                    one,
                    zero,
                ),
        s.total_dimension() == 3 * dim,
{
    let one = T::from(1u8);
    let zero = T::from(0u8);
    let mut s = Sheaf::new();
    // Two vertices and one edge
    s.add_cell(Cell::new(0, 0), dim);
    s.add_cell(Cell::new(1, 0), dim);
    s.add_cell(Cell::new(2, 1), dim);
    s.add_restriction_map(RestrictionMap::new(2, 0, identity_matrix(dim, one, zero)));
    s.add_restriction_map(RestrictionMap::new(2, 1, identity_matrix(dim, one, zero)));
    proof {
        assert(incidences(s.restriction_maps@) =~= seq![(2usize, 0usize), (2usize, 1usize)]);
        lemma_uniform_total(s.stalk_dimensions@, 3, dim as nat);
        assert(from_byte(one, 1u8) && from_byte(zero, 0u8));
    }
    s
}

/// Build a triangle sheaf: 3 vertices + 3 edges + 1 face.
pub fn triangle_sheaf<T: Copy + From<u8>>(dim: usize) -> (s: Sheaf<T>)
    ensures
        s.wf(),
        s.cells@ == map![
            0usize => (Cell { id: 0, dimension: 0 }),
            1usize => (Cell { id: 1, dimension: 0 }),
            2usize => (Cell { id: 2, dimension: 0 }),
            3usize => (Cell { id: 3, dimension: 1 }),
            4usize => (Cell { id: 4, dimension: 1 }),
            5usize => (Cell { id: 5, dimension: 1 }),
            6usize => (Cell { id: 6, dimension: 2 }),
        ],
        s.stalk_dimensions@ == map![
            0usize => dim,
            1usize => dim,
            2usize => dim,
            3usize => dim,
            4usize => dim,
            5usize => dim,
            6usize => dim,
        ],
        s.assignments@ == Map::<usize, Assignment<T>>::empty(),
        incidences(s.restriction_maps@) == seq![
            (3usize, 0usize),
            (3usize, 1usize),
            (4usize, 1usize),
            (4usize, 2usize),
            (5usize, 0usize),
            (5usize, 2usize),
            (6usize, 3usize),
            (6usize, 4usize),
            (6usize, 5usize),
        ],
        exists|one: T, zero: T|
            from_byte(one, 1u8) && from_byte(zero, 0u8) && forall|k: int|
                0 <= k < s.restriction_maps@.len() ==> is_identity(
                    #[trigger] s.restriction_maps@[k].rows(),
                    dim as nat,
                    one,
                    zero,
                ),
        s.total_dimension() == 7 * dim,
{
    let one = T::from(1u8);
    let zero = T::from(0u8);
    let mut s = Sheaf::new();
    // Vertices 0,1,2 (dim 0); edges 3,4,5 (dim 1); face 6 (dim 2)
    s.add_cell(Cell::new(0, 0), dim);
    s.add_cell(Cell::new(1, 0), dim);
    s.add_cell(Cell::new(2, 0), dim);
    s.add_cell(Cell::new(3, 1), dim);
    s.add_cell(Cell::new(4, 1), dim);
    s.add_cell(Cell::new(5, 1), dim);
    s.add_cell(Cell::new(6, 2), dim);
    // Edge 3 -> vertices 0, 1; edge 4 -> vertices 1, 2; edge 5 -> vertices 0, 2
    s.add_restriction_map(RestrictionMap::new(3, 0, identity_matrix(dim, one, zero)));
    s.add_restriction_map(RestrictionMap::new(3, 1, identity_matrix(dim, one, zero)));
    s.add_restriction_map(RestrictionMap::new(4, 1, identity_matrix(dim, one, zero)));
    s.add_restriction_map(RestrictionMap::new(4, 2, identity_matrix(dim, one, zero)));
    s.add_restriction_map(RestrictionMap::new(5, 0, identity_matrix(dim, one, zero)));
    s.add_restriction_map(RestrictionMap::new(5, 2, identity_matrix(dim, one, zero)));
    // Face 6 -> edges 3, 4, 5
    s.add_restriction_map(RestrictionMap::new(6, 3, identity_matrix(dim, one, zero)));
    s.add_restriction_map(RestrictionMap::new(6, 4, identity_matrix(dim, one, zero)));
    s.add_restriction_map(RestrictionMap::new(6, 5, identity_matrix(dim, one, zero)));
    proof {
        assert(incidences(s.restriction_maps@) =~= seq![
            (3usize, 0usize),
            (3usize, 1usize),
            (4usize, 1usize),
            (4usize, 2usize),
            (5usize, 0usize),
            (5usize, 2usize),
            (6usize, 3usize),
            (6usize, 4usize),
            (6usize, 5usize),
        ]);
        lemma_uniform_total(s.stalk_dimensions@, 7, dim as nat);
        assert(from_byte(one, 1u8) && from_byte(zero, 0u8));
    }
    s
}

impl<T> Default for Sheaf<T> {
    fn default() -> (s: Self)
        ensures
            s.cells@ == Map::<usize, Cell>::empty(),
            s.stalk_dimensions@ == Map::<usize, usize>::empty(),
            s.restriction_maps@ == Seq::<RestrictionMap<T>>::empty(),
            s.assignments@ == Map::<usize, Assignment<T>>::empty(),
            s.wf(),
    {
        Self::new()
    }
}

} // verus!
