//! The lattice: a content-addressed, append-only collection of cells with
//! lazy frontier expansion.
//!
//! At most one cell exists per coordinate; a lookup compares full
//! coordinates, never just a hash. Pushing a cell upserts it by coordinate
//! and then expands the frontier: every offset-neighbour of every active
//! cell that is not yet present is materialised as a fresh inactive cell.
//! Only active cells seed growth, which bounds the lattice to the cells ever
//! reachable from an active one.

use vstd::prelude::*;
use crate::cell::Cell;
use crate::cell::CellModel;
use crate::cell::CellValue;
use crate::cell::as_ints;
use crate::delta::DeltaCoordinate;
use crate::delta::advance_delta;
use crate::delta::cursor_index;
use crate::delta::delta_of_index;
use crate::delta::delta_offset;
use crate::delta::lemma_cursor_index_bounds;
use crate::delta::lemma_cursor_index_zero;
use crate::delta::lemma_delta_of_cursor_index;
use crate::delta::pow3;
use crate::delta::pow3_exec;
use crate::rule::Rule;

verus! {

/// Some cell in `s` sits at coordinate `c`.
pub open spec fn has_coord(s: Seq<CellModel>, c: Seq<int>) -> bool {
    exists|i: int| 0 <= i < s.len() && #[trigger] s[i].coords == c
}

/// The index of the cell at coordinate `c` (unique when coordinates are
/// distinct).
pub open spec fn idx_of(s: Seq<CellModel>, c: Seq<int>) -> int {
    choose|i: int| 0 <= i < s.len() && #[trigger] s[i].coords == c
}

/// The cell at coordinate `c`.
pub open spec fn cell_at(s: Seq<CellModel>, c: Seq<int>) -> CellModel {
    s[idx_of(s, c)]
}

/// No two cells share a coordinate.
pub open spec fn distinct_coords(s: Seq<CellModel>) -> bool {
    forall|i: int, j: int|
        0 <= i < s.len() && 0 <= j < s.len() && i != j ==> #[trigger] s[i].coords
            != #[trigger] s[j].coords
}

/// Every cell is a well-formed `dim`-dimensional cell.
pub open spec fn uniform_dim(s: Seq<CellModel>, dim: int) -> bool {
    forall|i: int|
        0 <= i < s.len() ==> #[trigger] s[i].coords.len() == dim && s[i].delta.len() == dim
}

/// Every active cell leaves room for a +/-1 neighbour offset.
pub open spec fn actives_in_range(s: Seq<CellModel>) -> bool {
    forall|i: int| 0 <= i < s.len() && #[trigger] s[i].value is Active ==> s[i].coords_in_range()
}

/// How many cells hold the given value.
pub open spec fn count_value(s: Seq<CellModel>, v: CellValue) -> nat
    decreases s.len(),
{
    if s.len() == 0 {
        0
    } else {
        count_value(s.drop_last(), v) + (if s.last().value == v {
            1nat
        } else {
            0nat
        })
    }
}

/// Replace the cell at `m`'s coordinate, or append `m` if none is there.
pub open spec fn upsert(s: Seq<CellModel>, m: CellModel) -> Seq<CellModel> {
    if has_coord(s, m.coords) {
        s.update(idx_of(s, m.coords), m)
    } else {
        s.push(m)
    }
}

/// The coordinate reached from `c` by the `k`-th offset of the enumeration.
pub open spec fn nbr_coord(c: Seq<int>, k: int) -> Seq<int> {
    Seq::new(c.len(), |j: int| c[j] + delta_offset(delta_of_index(k, c.len())[j]))
}

/// A freshly materialised inactive cell at `c` with a rewound cursor.
pub open spec fn inactive_cell_at(c: Seq<int>) -> CellModel {
    CellModel {
        coords: c,
        value: CellValue::Inactive,
        delta: Seq::new(c.len(), |j: int| DeltaCoordinate::SameCoordinate),
    }
}

/// Append, for each offset from `k` on, the neighbour of `c` that is not yet
/// present.
pub open spec fn add_neighbors(s: Seq<CellModel>, c: Seq<int>, k: int, dim: nat) -> Seq<CellModel>
    decreases pow3(dim) - k,
    when 0 <= k <= pow3(dim)
{
    if k >= pow3(dim) {
        s
    } else {
        let nc = nbr_coord(c, k);
        let s2 = if has_coord(s, nc) {
            s
        } else {
            s.push(inactive_cell_at(nc))
        };
        add_neighbors(s2, c, k + 1, dim)
    }
}

/// Expand the frontier around every active cell of the snapshot `s[0..n]`.
pub open spec fn expand_at(s: Seq<CellModel>, i: int, n: int) -> Seq<CellModel>
    decreases n - i,
    when 0 <= i <= n
{
    if i >= n {
        s
    } else {
        let s2 = if s[i].value is Active {
            add_neighbors(s, s[i].coords, 0, s[i].coords.len())
        } else {
            s
        };
        expand_at(s2, i + 1, n)
    }
}

/// What one `push_cell` does: upsert the cell, then expand the frontier over
/// the whole resulting lattice.
pub open spec fn push_transition(s: Seq<CellModel>, m: CellModel) -> Seq<CellModel> {
    let u = upsert(s, m);
    expand_at(u, 0, u.len() as int)
}


/// Every coordinate component of every cell lies within `[-b, b]`.
pub open spec fn coords_abs_le(s: Seq<CellModel>, b: int) -> bool {
    forall|i: int, j: int|
        0 <= i < s.len() && 0 <= j < s[i].coords.len() ==> -b <= #[trigger] s[i].coords[j] <= b
}

/// Every coordinate component of every active cell lies within `[-a, a]`.
pub open spec fn actives_abs_le(s: Seq<CellModel>, a: int) -> bool {
    forall|i: int, j: int|
        0 <= i < s.len() && s[i].value is Active && 0 <= j < s[i].coords.len() ==> -a
            <= #[trigger] s[i].coords[j] <= a
}

/// Materialising neighbours of a cell within `[-a, a]` keeps all cells within
/// `[-a - 1, a + 1]` and activates nothing.
pub proof fn lemma_add_neighbors_bounds(s: Seq<CellModel>, c: Seq<int>, k: int, dim: nat, a: int)
    requires
        0 <= k <= pow3(dim),
        actives_abs_le(s, a),
        coords_abs_le(s, a + 1),
        c.len() == dim,
        forall|j: int| 0 <= j < c.len() ==> -a <= #[trigger] c[j] <= a,
    ensures
        actives_abs_le(add_neighbors(s, c, k, dim), a),
        coords_abs_le(add_neighbors(s, c, k, dim), a + 1),
        add_neighbors(s, c, k, dim).len() >= s.len(),
        forall|i: int| 0 <= i < s.len() ==> #[trigger] add_neighbors(s, c, k, dim)[i] == s[i],
    decreases pow3(dim) - k,
{
    if k < pow3(dim) {
        let nc = nbr_coord(c, k);
        let s2 = if has_coord(s, nc) {
            s
        } else {
            s.push(inactive_cell_at(nc))
        };
        assert(forall|j: int| 0 <= j < nc.len() ==> -(a + 1) <= #[trigger] nc[j] <= a + 1);
        assert(actives_abs_le(s2, a));
        assert(coords_abs_le(s2, a + 1));
        lemma_add_neighbors_bounds(s2, c, k + 1, dim, a);
    }
}

/// Expanding the frontier of a snapshot whose active cells lie within
/// `[-a, a]` keeps all cells within `[-a - 1, a + 1]` and activates nothing.
pub proof fn lemma_expand_bounds(s: Seq<CellModel>, i: int, n: int, a: int)
    requires
        0 <= i <= n <= s.len(),
        actives_abs_le(s, a),
        coords_abs_le(s, a + 1),
    ensures
        actives_abs_le(expand_at(s, i, n), a),
        coords_abs_le(expand_at(s, i, n), a + 1),
        expand_at(s, i, n).len() >= s.len(),
        forall|ii: int| 0 <= ii < s.len() ==> #[trigger] expand_at(s, i, n)[ii] == s[ii],
    decreases n - i,
{
    if i < n {
        let s2 = if s[i].value is Active {
            add_neighbors(s, s[i].coords, 0, s[i].coords.len())
        } else {
            s
        };
        if s[i].value is Active {
            assert(forall|j: int| 0 <= j < s[i].coords.len() ==> -a <= #[trigger] s[i].coords[j]
                <= a);
            lemma_add_neighbors_bounds(s, s[i].coords, 0, s[i].coords.len(), a);
        }
        lemma_expand_bounds(s2, i + 1, n, a);
    }
}


/// Materialising neighbours only appends; existing cells keep their places.
pub proof fn lemma_add_neighbors_prefix(s: Seq<CellModel>, c: Seq<int>, k: int, dim: nat)
    requires
        0 <= k <= pow3(dim),
    ensures
        add_neighbors(s, c, k, dim).len() >= s.len(),
        forall|i: int| 0 <= i < s.len() ==> #[trigger] add_neighbors(s, c, k, dim)[i] == s[i],
    decreases pow3(dim) - k,
{
    if k < pow3(dim) {
        let nc = nbr_coord(c, k);
        let s2 = if has_coord(s, nc) {
            s
        } else {
            s.push(inactive_cell_at(nc))
        };
        lemma_add_neighbors_prefix(s2, c, k + 1, dim);
    }
}

/// A coordinate is present after `add_neighbors` exactly when it was present
/// before or is one of the remaining offset-neighbours of `c`.
pub proof fn lemma_add_neighbors_membership(
    s: Seq<CellModel>,
    c: Seq<int>,
    k: int,
    dim: nat,
    t: Seq<int>,
)
    requires
        0 <= k <= pow3(dim),
    ensures
        has_coord(add_neighbors(s, c, k, dim), t) <==> has_coord(s, t) || (exists|j: int|
            k <= j < pow3(dim) && t == #[trigger] nbr_coord(c, j)),
    decreases pow3(dim) - k,
{
    if k < pow3(dim) {
        let nc = nbr_coord(c, k);
        let s2 = if has_coord(s, nc) {
            s
        } else {
            s.push(inactive_cell_at(nc))
        };
        lemma_add_neighbors_membership(s2, c, k + 1, dim, t);
        if !has_coord(s, nc) {
            assert(s2[s.len() as int].coords == nc);
            assert(has_coord(s2, nc));
            if has_coord(s2, t) && !has_coord(s, t) {
                let w = choose|i: int| 0 <= i < s2.len() && #[trigger] s2[i].coords == t;
                assert(w == s.len() as int);
                assert(t == nbr_coord(c, k));
            }
        }
        if has_coord(s, t) {
            let w = choose|i: int| 0 <= i < s.len() && #[trigger] s[i].coords == t;
            assert(s2[w].coords == t);
        }
    }
}

/// The lazy-growth law: a coordinate is present after a frontier expansion
/// exactly when it was already present or is an offset-neighbour of an
/// active cell of the expanded snapshot. Growth is bounded by the cells
/// reachable from ever having been active; nothing else is materialised.
pub proof fn lemma_expand_membership(s: Seq<CellModel>, i: int, n: int, t: Seq<int>)
    requires
        0 <= i <= n <= s.len(),
    ensures
        has_coord(expand_at(s, i, n), t) <==> has_coord(s, t) || (exists|k: int, j: int|
            i <= k < n && s[k].value is Active && 0 <= j < pow3(s[k].coords.len()) && t
                == #[trigger] nbr_coord(s[k].coords, j)),
    decreases n - i,
{
    if i < n {
        let dimi = s[i].coords.len();
        let s2 = if s[i].value is Active {
            add_neighbors(s, s[i].coords, 0, dimi)
        } else {
            s
        };
        if s[i].value is Active {
            lemma_add_neighbors_prefix(s, s[i].coords, 0, dimi);
            lemma_add_neighbors_membership(s, s[i].coords, 0, dimi, t);
        }
        lemma_expand_membership(s2, i + 1, n, t);
        assert(forall|k: int| 0 <= k < s.len() ==> #[trigger] s2[k] == s[k]);
        // a witness strictly after i serves both snapshots alike
        assert((exists|k: int, j: int|
            i + 1 <= k < n && s2[k].value is Active && 0 <= j < pow3(s2[k].coords.len()) && t
                == #[trigger] nbr_coord(s2[k].coords, j)) <==> (exists|k: int, j: int|
            i + 1 <= k < n && s[k].value is Active && 0 <= j < pow3(s[k].coords.len()) && t
                == #[trigger] nbr_coord(s[k].coords, j))) by {
            if exists|k: int, j: int|
                i + 1 <= k < n && s2[k].value is Active && 0 <= j < pow3(s2[k].coords.len()) && t
                    == #[trigger] nbr_coord(s2[k].coords, j) {
                let (k, j) = choose|k: int, j: int|
                    i + 1 <= k < n && s2[k].value is Active && 0 <= j < pow3(s2[k].coords.len())
                        && t == #[trigger] nbr_coord(s2[k].coords, j);
                assert(s2[k] == s[k]);
                assert(i + 1 <= k < n && s[k].value is Active && 0 <= j < pow3(
                    s[k].coords.len(),
                ) && t == nbr_coord(s[k].coords, j));
            }
            if exists|k: int, j: int|
                i + 1 <= k < n && s[k].value is Active && 0 <= j < pow3(s[k].coords.len()) && t
                    == #[trigger] nbr_coord(s[k].coords, j) {
                let (k, j) = choose|k: int, j: int|
                    i + 1 <= k < n && s[k].value is Active && 0 <= j < pow3(s[k].coords.len())
                        && t == #[trigger] nbr_coord(s[k].coords, j);
                assert(s2[k] == s[k]);
                assert(i + 1 <= k < n && s2[k].value is Active && 0 <= j < pow3(
                    s2[k].coords.len(),
                ) && t == nbr_coord(s2[k].coords, j));
            }
        }
        // widening the range to include position i adds exactly i's neighbours
        assert((exists|k: int, j: int|
            i <= k < n && s[k].value is Active && 0 <= j < pow3(s[k].coords.len()) && t
                == #[trigger] nbr_coord(s[k].coords, j)) <==> ((s[i].value is Active
            && (exists|j: int| 0 <= j < pow3(dimi) && t == #[trigger] nbr_coord(s[i].coords, j)))
            || (exists|k: int, j: int|
            i + 1 <= k < n && s[k].value is Active && 0 <= j < pow3(s[k].coords.len()) && t
                == #[trigger] nbr_coord(s[k].coords, j)))) by {
            if exists|k: int, j: int|
                i <= k < n && s[k].value is Active && 0 <= j < pow3(s[k].coords.len()) && t
                    == #[trigger] nbr_coord(s[k].coords, j) {
                let (k, j) = choose|k: int, j: int|
                    i <= k < n && s[k].value is Active && 0 <= j < pow3(s[k].coords.len()) && t
                        == #[trigger] nbr_coord(s[k].coords, j);
                if k == i {
                    assert(0 <= j < pow3(dimi) && t == nbr_coord(s[i].coords, j));
                } else {
                    assert(i + 1 <= k < n && s[k].value is Active && 0 <= j < pow3(
                        s[k].coords.len(),
                    ) && t == nbr_coord(s[k].coords, j));
                }
            }
            if s[i].value is Active && exists|j: int|
                0 <= j < pow3(dimi) && t == #[trigger] nbr_coord(s[i].coords, j) {
                let j = choose|j: int| 0 <= j < pow3(dimi) && t == #[trigger] nbr_coord(
                    s[i].coords,
                    j,
                );
                assert(i <= i < n && s[i].value is Active && 0 <= j < pow3(s[i].coords.len())
                    && t == nbr_coord(s[i].coords, j));
            }
            if exists|k: int, j: int|
                i + 1 <= k < n && s[k].value is Active && 0 <= j < pow3(s[k].coords.len()) && t
                    == #[trigger] nbr_coord(s[k].coords, j) {
                let (k, j) = choose|k: int, j: int|
                    i + 1 <= k < n && s[k].value is Active && 0 <= j < pow3(s[k].coords.len())
                        && t == #[trigger] nbr_coord(s[k].coords, j);
                assert(i <= k < n && s[k].value is Active && 0 <= j < pow3(s[k].coords.len())
                    && t == nbr_coord(s[k].coords, j));
            }
        }
    }
}

/// Appending one cell changes one value's count by one.
pub proof fn lemma_count_push(s: Seq<CellModel>, m: CellModel, v: CellValue)
    ensures
        count_value(s.push(m), v) == count_value(s, v) + (if m.value == v {
            1nat
        } else {
            0nat
        }),
{
    assert(s.push(m).drop_last() =~= s);
    assert(s.push(m).last() == m);
}

/// Materialising neighbours appends inactive cells only, so the active-cell
/// count is untouched.
pub proof fn lemma_add_neighbors_active_count(s: Seq<CellModel>, c: Seq<int>, k: int, dim: nat)
    requires
        0 <= k <= pow3(dim),
    ensures
        count_value(add_neighbors(s, c, k, dim), CellValue::Active) == count_value(
            s,
            CellValue::Active,
        ),
    decreases pow3(dim) - k,
{
    if k < pow3(dim) {
        let nc = nbr_coord(c, k);
        let s2 = if has_coord(s, nc) {
            s
        } else {
            s.push(inactive_cell_at(nc))
        };
        if !has_coord(s, nc) {
            lemma_count_push(s, inactive_cell_at(nc), CellValue::Active);
        }
        lemma_add_neighbors_active_count(s2, c, k + 1, dim);
    }
}

/// A frontier expansion never changes the active-cell count: growth only
/// materialises inactive cells.
pub proof fn lemma_expand_active_count(s: Seq<CellModel>, i: int, n: int)
    requires
        0 <= i <= n <= s.len(),
    ensures
        count_value(expand_at(s, i, n), CellValue::Active) == count_value(s, CellValue::Active),
    decreases n - i,
{
    if i < n {
        let s2 = if s[i].value is Active {
            add_neighbors(s, s[i].coords, 0, s[i].coords.len())
        } else {
            s
        };
        if s[i].value is Active {
            lemma_add_neighbors_active_count(s, s[i].coords, 0, s[i].coords.len());
            lemma_add_neighbors_prefix(s, s[i].coords, 0, s[i].coords.len());
        }
        lemma_expand_active_count(s2, i + 1, n);
    }
}

#[derive(Debug)]
pub struct Space {
    current_iteration: usize,
    cells: Vec<Cell>,
    rule: Rule,
    dimension: usize,
}

impl View for Space {
    type V = Seq<CellModel>;

    closed spec fn view(&self) -> Seq<CellModel> {
        self.cells@.map_values(|c: Cell| c@)
    }
}

impl Space {
    pub closed spec fn spec_cells(self) -> Seq<Cell> {
        self.cells@
    }

    pub closed spec fn spec_dimension(self) -> int {
        self.dimension as int
    }

    pub closed spec fn spec_rule(self) -> Rule {
        self.rule
    }

    pub closed spec fn spec_iteration(self) -> int {
        self.current_iteration as int
    }

    /// Lattice invariant: one cell per coordinate, every cell of the space's
    /// dimension.
    pub open spec fn wf(self) -> bool {
        &&& distinct_coords(self@)
        &&& uniform_dim(self@, self.spec_dimension())
        &&& pow3(self.spec_dimension() as nat) <= usize::MAX
    }

    /// An empty lattice for `len`-dimensional cells, carrying the initial
    /// rule of that dimension.
    pub fn new(len: usize) -> (r: Space)
        requires
            pow3(len as nat) <= usize::MAX,
        ensures
            r.wf(),
            r@ == Seq::<CellModel>::empty(),
            r.spec_dimension() == len,
            r.spec_iteration() == 0,
            r.spec_rule().wf(),
    {
        let r = Space {
            current_iteration: 0,
            cells: Vec::new(),
            rule: Rule::new(len),
            dimension: len,
        };
        proof {
            assert(r@ =~= Seq::<CellModel>::empty());
        }
        r
    }

    pub fn set_rule(&mut self, rule: Rule)
        ensures
            final(self).spec_rule() == rule,
            final(self)@ == old(self)@,
            final(self).spec_dimension() == old(self).spec_dimension(),
            final(self).spec_iteration() == old(self).spec_iteration(),
            final(self).wf() == old(self).wf(),
    {
        self.rule = rule;
    }

    pub fn get_rule(&self) -> (r: &Rule)
        ensures
            *r == self.spec_rule(),
    {
        &self.rule
    }

    pub fn get_current_iteration(&self) -> (r: usize)
        ensures
            r as int == self.spec_iteration(),
    {
        self.current_iteration
    }

    pub fn get_cells(&self) -> (r: &Vec<Cell>)
        ensures
            r@ == self.spec_cells(),
            r@.map_values(|c: Cell| c@) == self@,
    {
        &self.cells
    }

    pub fn get_ith_cell(&self, i: usize) -> (r: &Cell)
        requires
            i < self@.len(),
        ensures
            *r == self.spec_cells()[i as int],
            r@ == self@[i as int],
    {
        &self.cells[i]
    }

    /// Overwrite the `i`-th cell in place.
    pub fn set_ith_cell(&mut self, i: usize, cell: &Cell)
        requires
            i < old(self)@.len(),
        ensures
            final(self)@ == old(self)@.update(i as int, cell@),
            final(self).spec_dimension() == old(self).spec_dimension(),
            final(self).spec_rule() == old(self).spec_rule(),
            final(self).spec_iteration() == old(self).spec_iteration(),
    {
        let copy = cell.duplicate();
        self.cells.set(i, copy);
        proof {
            assert(final(self)@ =~= old(self)@.update(i as int, cell@));
        }
    }

    pub fn len(&self) -> (r: usize)
        ensures
            r == self@.len(),
    {
        self.cells.len()
    }

    /// Remove the most recently appended cell, if any.
    pub fn pop_cell(&mut self)
        ensures
            old(self)@.len() == 0 ==> final(self)@ == old(self)@,
            old(self)@.len() > 0 ==> final(self)@ == old(self)@.drop_last(),
            final(self).spec_dimension() == old(self).spec_dimension(),
            final(self).spec_rule() == old(self).spec_rule(),
            final(self).spec_iteration() == old(self).spec_iteration(),
    {
        if self.cells.len() > 0 {
            let _popped = self.cells.pop();
            proof {
                assert(final(self)@ =~= old(self)@.drop_last());
            }
        }
    }

    /// How many cells hold the given value.
    pub fn find_number_of_cells(&self, expected_value: CellValue) -> (r: usize)
        ensures
            r == count_value(self@, expected_value),
    {
        let mut count: usize = 0;
        let mut i: usize = 0;
        proof {
            assert(self@.take(0) =~= Seq::<CellModel>::empty());
        }
        while i < self.cells.len()
            invariant
                i <= self@.len(),
                self@.len() == self.cells@.len(),
                count == count_value(self@.take(i as int), expected_value),
                count <= i,
            decreases self@.len() - i,
        {
            proof {
                assert(self@.take(i + 1).drop_last() =~= self@.take(i as int));
                assert(self@.take(i + 1).last() == self@[i as int]);
            }
            if self.cells[i].get_value() == expected_value {
                count = count + 1;
            }
            i = i + 1;
        }
        proof {
            assert(self@.take(self@.len() as int) =~= self@);
        }
        count
    }

    /// The cell at the given coordinate, if one exists.
    pub fn search_cells(&self, coordinates: &Vec<i32>) -> (r: Option<&Cell>)
        requires
            self.wf(),
        ensures
            r is Some <==> has_coord(self@, as_ints(coordinates@)),
            r is Some ==> r->Some_0@ == cell_at(self@, as_ints(coordinates@)),
    {
        match self.search_cells_index(coordinates) {
            Option::Some(i) => Option::Some(&self.cells[i]),
            Option::None => Option::None,
        }
    }

    /// The position of the cell at the given coordinate, if one exists.
    pub fn search_cells_index(&self, coordinates: &Vec<i32>) -> (r: Option<usize>)
        requires
            self.wf(),
        ensures
            r is Some <==> has_coord(self@, as_ints(coordinates@)),
            r is Some ==> 0 <= r->Some_0 < self@.len() && r->Some_0 as int == idx_of(
                self@,
                as_ints(coordinates@),
            ),
    {
        let mut i: usize = 0;
        while i < self.cells.len()
            invariant
                self.wf(),
                i <= self@.len(),
                self@.len() == self.cells@.len(),
                forall|j: int| 0 <= j < i ==> #[trigger] self@[j].coords != as_ints(coordinates@),
            decreases self@.len() - i,
        {
            if coords_equal(self.cells[i].get_coordinates(), coordinates) {
                proof {
                    assert(self@[i as int].coords == as_ints(coordinates@));
                    assert(has_coord(self@, as_ints(coordinates@)));
                    let w = idx_of(self@, as_ints(coordinates@));
                    assert(0 <= w < self@.len() && self@[w].coords == as_ints(coordinates@));
                    if w != i as int {
                        assert(self@[w].coords != self@[i as int].coords);
                        assert(false);
                    }
                }
                return Some(i);
            }
            i = i + 1;
        }
        None
    }

    /// Upsert the cell by coordinate, then expand the frontier.
    pub fn push_cell(&mut self, cell: &Cell)
        requires
            old(self).wf(),
            cell@.wf(),
            cell@.coords.len() == old(self).spec_dimension(),
            actives_in_range(old(self)@),
            cell@.value is Active ==> cell@.coords_in_range(),
        ensures
            final(self).wf(),
            final(self)@ == push_transition(old(self)@, cell@),
            actives_in_range(final(self)@),
            final(self).spec_dimension() == old(self).spec_dimension(),
            final(self).spec_rule() == old(self).spec_rule(),
            final(self).spec_iteration() == old(self).spec_iteration(),
    {
        let found = self.search_cells_index(cell.get_coordinates());
        match found {
            Some(i) => {
                self.set_ith_cell(i, cell);
            },
            None => {
                let copy = cell.duplicate();
                self.cells.push(copy);
            },
        }
        proof {
            assert(self@ =~= upsert(old(self)@, cell@));
            assert(distinct_coords(self@)) by {
                if !has_coord(old(self)@, cell@.coords) {
                    assert(forall|i: int|
                        0 <= i < old(self)@.len() ==> #[trigger] old(self)@[i].coords
                            != cell@.coords);
                }
            }
            assert(uniform_dim(self@, self.spec_dimension())) by {
                let c0 = cell@.coords;
                assert(cell@.delta.len() == cell@.coords.len());
                assert forall|i: int| 0 <= i < self@.len() implies #[trigger] self@[i].coords.len()
                    == self.spec_dimension() && self@[i].delta.len() == self.spec_dimension() by {
                    if has_coord(old(self)@, c0) {
                        let w = idx_of(old(self)@, c0);
                        assert(0 <= w < old(self)@.len() && old(self)@[w].coords == c0);
                        assert(self@ == old(self)@.update(w, cell@));
                        if i == w {
                            assert(self@[i] == cell@);
                        } else {
                            assert(self@[i] == old(self)@[i]);
                        }
                    } else {
                        assert(self@ == old(self)@.push(cell@));
                        if i == old(self)@.len() as int {
                            assert(self@[i] == cell@);
                        } else {
                            assert(self@[i] == old(self)@[i]);
                        }
                    }
                }
            }
            assert(actives_in_range(self@));
        }
        self.gen_next_iteration();
    }

    /// One frontier expansion: every offset-neighbour of every active cell in
    /// the current snapshot that is not yet present is appended as a fresh
    /// inactive cell.
    pub fn gen_next_iteration(&mut self)
        requires
            old(self).wf(),
            actives_in_range(old(self)@),
        ensures
            final(self).wf(),
            final(self)@ == expand_at(old(self)@, 0, old(self)@.len() as int),
            actives_in_range(final(self)@),
            final(self).spec_dimension() == old(self).spec_dimension(),
            final(self).spec_rule() == old(self).spec_rule(),
            final(self).spec_iteration() == old(self).spec_iteration(),
    {
        let length = self.cells.len();
        let ghost orig = self@;
        let ghost n = orig.len() as int;
        let combinations = Space::generate_combinations(self.dimension);
        let mut it: usize = 0;
        while it < length
            invariant
                it <= length,
                length == n,
                self.wf(),
                actives_in_range(self@),
                self@.len() >= n,
                forall|i: int| 0 <= i < n ==> #[trigger] self@[i] == orig[i],
                expand_at(orig, 0, n) == expand_at(self@, it as int, n),
                combinations@.len() == pow3(self.spec_dimension() as nat),
                forall|k: int|
                    0 <= k < combinations@.len() ==> #[trigger] combinations@[k]@
                        == delta_of_index(k, self.spec_dimension() as nat),
                self.spec_dimension() == old(self).spec_dimension(),
                self.spec_rule() == old(self).spec_rule(),
                self.spec_iteration() == old(self).spec_iteration(),
            decreases length - it,
        {
            let is_active = self.cells[it].get_value() == CellValue::Active;
            if is_active {
                self.expand_around(it, &combinations);
                proof {
                    assert(expand_at(self@, it + 1, n) == expand_at(orig, 0, n));
                }
            }
            it = it + 1;
        }
        proof {
            assert(expand_at(self@, n, n) == self@);
        }
    }

    /// Append the missing neighbours of the active snapshot cell at `idx`.
    fn expand_around(&mut self, idx: usize, combinations: &Vec<Vec<DeltaCoordinate>>)
        requires
            old(self).wf(),
            actives_in_range(old(self)@),
            idx < old(self)@.len(),
            old(self)@[idx as int].value is Active,
            combinations@.len() == pow3(old(self).spec_dimension() as nat),
            forall|k: int|
                0 <= k < combinations@.len() ==> #[trigger] combinations@[k]@ == delta_of_index(
                    k,
                    old(self).spec_dimension() as nat,
                ),
        ensures
            final(self).wf(),
            actives_in_range(final(self)@),
            final(self)@.len() >= old(self)@.len(),
            forall|i: int| 0 <= i < old(self)@.len() ==> #[trigger] final(self)@[i] == old(
                self,
            )@[i],
            final(self)@ == add_neighbors(
                old(self)@,
                old(self)@[idx as int].coords,
                0,
                old(self).spec_dimension() as nat,
            ),
            final(self).spec_dimension() == old(self).spec_dimension(),
            final(self).spec_rule() == old(self).spec_rule(),
            final(self).spec_iteration() == old(self).spec_iteration(),
    {
        let ghost orig = self@;
        let ghost c = orig[idx as int].coords;
        let ghost dim_n = self.spec_dimension() as nat;
        let dim = self.dimension;
        let total = combinations.len();
        let mut k: usize = 0;
        while k < total
            invariant
                k <= total,
                total == pow3(dim_n),
                dim == self.spec_dimension(),
                dim_n == dim as nat,
                self.wf(),
                actives_in_range(self@),
                idx < orig.len(),
                orig[idx as int].value is Active,
                orig[idx as int].coords == c,
                c.len() == dim,
                orig[idx as int].coords_in_range(),
                self@.len() >= orig.len(),
                forall|i: int| 0 <= i < orig.len() ==> #[trigger] self@[i] == orig[i],
                add_neighbors(orig, c, 0, dim_n) == add_neighbors(self@, c, k as int, dim_n),
                combinations@.len() == pow3(dim_n),
                forall|kk: int|
                    0 <= kk < combinations@.len() ==> #[trigger] combinations@[kk]@
                        == delta_of_index(kk, dim_n),
                self.spec_dimension() == old(self).spec_dimension(),
                self.spec_rule() == old(self).spec_rule(),
                self.spec_iteration() == old(self).spec_iteration(),
            decreases total - k,
        {
            let ghost before = self@;
            // build the neighbour coordinate for offset k
            let mut nc: Vec<i32> = Vec::new();
            let mut j: usize = 0;
            while j < dim
                invariant
                    j <= dim,
                    k < total,
                    total == pow3(dim_n),
                    dim_n == dim as nat,
                    idx < self@.len(),
                    self@[idx as int].coords == c,
                    c.len() == dim,
                    self@[idx as int].coords_in_range(),
                    combinations@.len() == pow3(dim_n),
                    forall|kk: int|
                        0 <= kk < combinations@.len() ==> #[trigger] combinations@[kk]@
                            == delta_of_index(kk, dim_n),
                    combinations@[k as int]@.len() == dim,
                    nc@.len() == j,
                    forall|jj: int| 0 <= jj < j ==> nc@[jj] as int == nbr_coord(c, k as int)[jj],
                decreases dim - j,
            {
                let base = self.cells[idx].get_ith_coordinate(j);
                proof {
                    assert(base as int == c[j as int]);
                    assert(i32::MIN < c[j as int] < i32::MAX);
                    assert(combinations@[k as int]@[j as int] == delta_of_index(
                        k as int,
                        dim_n,
                    )[j as int]);
                }
                let d = combinations[k][j];
                let next = match d {
                    DeltaCoordinate::SameCoordinate => base,
                    DeltaCoordinate::Positive => base + 1,
                    DeltaCoordinate::Negative => base - 1,
                };
                nc.push(next);
                j = j + 1;
            }
            proof {
                assert(as_ints(nc@) =~= nbr_coord(c, k as int));
            }
            let found = self.search_cells_index(&nc);
            match found {
                Some(_) => {
                    proof {
                        assert(has_coord(before, nbr_coord(c, k as int)));
                    }
                },
                None => {
                    let mut fresh = Cell::new(dim);
                    fresh.set_coordinates(nc);
                    proof {
                        assert(fresh@ =~= inactive_cell_at(nbr_coord(c, k as int))) by {
                            assert(fresh@.coords =~= nbr_coord(c, k as int));
                            assert(fresh@.delta =~= inactive_cell_at(
                                nbr_coord(c, k as int),
                            ).delta);
                        }
                    }
                    self.cells.push(fresh);
                    proof {
                        assert(self@ =~= before.push(inactive_cell_at(nbr_coord(c, k as int))));
                        assert(distinct_coords(self@)) by {
                            assert(forall|i: int|
                                0 <= i < before.len() ==> #[trigger] before[i].coords != nbr_coord(
                                    c,
                                    k as int,
                                ));
                        }
                    }
                },
            }
            proof {
                assert(add_neighbors(before, c, k as int, dim_n) == add_neighbors(
                    self@,
                    c,
                    k as int + 1,
                    dim_n,
                ));
            }
            k = k + 1;
        }
        proof {
            assert(add_neighbors(self@, c, total as int, dim_n) == self@);
        }
    }

    /// All `3^dim` offset vectors, in mixed-radix cursor order.
    pub fn generate_combinations(dim: usize) -> (r: Vec<Vec<DeltaCoordinate>>)
        requires
            pow3(dim as nat) <= usize::MAX,
        ensures
            r@.len() == pow3(dim as nat),
            forall|k: int| 0 <= k < r@.len() ==> #[trigger] r@[k]@ == delta_of_index(k, dim as nat),
    {
        let total = pow3_exec(dim);
        let mut start: Vec<DeltaCoordinate> = Vec::new();
        let mut j: usize = 0;
        while j < dim
            invariant
                j <= dim,
                start@.len() == j,
                forall|i: int| 0 <= i < j ==> start@[i] is SameCoordinate,
            decreases dim - j,
        {
            start.push(DeltaCoordinate::SameCoordinate);
            j = j + 1;
        }
        proof {
            lemma_cursor_index_zero(start@);
        }
        let mut result: Vec<Vec<DeltaCoordinate>> = Vec::new();
        result.push(copy_deltas(&start));
        proof {
            lemma_delta_of_cursor_index(start@);
            crate::delta::lemma_pow3_pos(dim as nat);
        }
        let mut k: usize = 1;
        while k < total
            invariant
                1 <= k <= total,
                total == pow3(dim as nat),
                start@.len() == dim,
                cursor_index(start@) == k - 1,
                result@.len() == k,
                forall|i: int| 0 <= i < k ==> #[trigger] result@[i]@ == delta_of_index(
                    i,
                    dim as nat,
                ),
            decreases total - k,
        {
            proof {
                lemma_cursor_index_bounds(start@);
            }
            advance_delta(&mut start);
            result.push(copy_deltas(&start));
            proof {
                lemma_delta_of_cursor_index(start@);
            }
            k = k + 1;
        }
        result
    }
}

/// Component-wise equality of two coordinate vectors.
fn coords_equal(a: &Vec<i32>, b: &Vec<i32>) -> (r: bool)
    ensures
        r == (as_ints(a@) == as_ints(b@)),
{
    if a.len() != b.len() {
        proof {
            assert(as_ints(a@).len() != as_ints(b@).len());
        }
        return false;
    }
    let mut i: usize = 0;
    while i < a.len()
        invariant
            i <= a@.len(),
            a@.len() == b@.len(),
            forall|j: int| 0 <= j < i ==> a@[j] == b@[j],
        decreases a@.len() - i,
    {
        if a[i] != b[i] {
            proof {
                assert(as_ints(a@)[i as int] != as_ints(b@)[i as int]);
            }
            return false;
        }
        i = i + 1;
    }
    proof {
        assert(as_ints(a@) =~= as_ints(b@));
    }
    true
}

/// A copy of one offset vector.
fn copy_deltas(v: &Vec<DeltaCoordinate>) -> (r: Vec<DeltaCoordinate>)
    ensures
        r@ == v@,
{
    let mut r: Vec<DeltaCoordinate> = Vec::new();
    let mut i: usize = 0;
    while i < v.len()
        invariant
            i <= v@.len(),
            r@ == v@.take(i as int),
        decreases v@.len() - i,
    {
        proof {
            assert(v@.take(i + 1) =~= v@.take(i as int).push(v@[i as int]));
        }
        r.push(v[i]);
        i = i + 1;
    }
    proof {
        assert(v@.take(v@.len() as int) =~= v@);
    }
    r
}

} // verus!
