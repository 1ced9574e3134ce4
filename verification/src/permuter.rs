//! Symmetry-reduction cursor over an ordered list of variable clusters.
//!
//! Intra-cluster reordering never changes a formula's meaning, so only
//! cross-cluster exchanges are enumerated: the permuter tracks one active
//! pair (an element of cluster `x_i` exchanged with an element of a later
//! cluster `y_i`) and recurses through a child permuter that continues from
//! one position further, mirroring a nested loop over all cross-cluster
//! position pairs without materialising the cross product.

use vstd::prelude::*;
use vstd::pervasive::VecAdditionalExecFns;
use crate::delta::pow3;
use crate::delta::lemma_pow3_pos;
use crate::delta::lemma_pow3_mono;

verus! {

pub open spec fn rows_of(d: Seq<Vec<usize>>) -> Seq<Seq<usize>> {
    d.map_values(|r: Vec<usize>| r@)
}

/// Concatenation of all rows, in order.
pub open spec fn flat(rows: Seq<Seq<usize>>) -> Seq<usize>
    decreases rows.len(),
{
    if rows.len() == 0 {
        Seq::empty()
    } else {
        rows[0] + flat(rows.drop_first())
    }
}

pub proof fn lemma_flat_push(rows: Seq<Seq<usize>>, r: Seq<usize>)
    ensures
        flat(rows.push(r)) == flat(rows) + r,
    decreases rows.len(),
{
    if rows.len() == 0 {
        assert(rows.push(r).drop_first() =~= Seq::<Seq<usize>>::empty());
        assert(rows.push(r)[0] == r);
        assert(flat(Seq::<Seq<usize>>::empty()) == Seq::<usize>::empty());
        assert(flat(rows.push(r)) == r + Seq::<usize>::empty());
        assert(flat(rows.push(r)) =~= flat(rows) + r);
    } else {
        assert(rows.push(r).drop_first() =~= rows.drop_first().push(r));
        assert(rows.push(r)[0] == rows[0]);
        lemma_flat_push(rows.drop_first(), r);
        assert(flat(rows.push(r)) == rows[0] + (flat(rows.drop_first()) + r));
        assert(flat(rows.push(r)) =~= flat(rows) + r);
    }
}

/// Row-wise equal lengths give equal flattened lengths.
pub proof fn lemma_flat_len_shape(a: Seq<Seq<usize>>, b: Seq<Seq<usize>>)
    requires
        a.len() == b.len(),
        forall|k: int| 0 <= k < a.len() ==> #[trigger] a[k].len() == b[k].len(),
    ensures
        flat(a).len() == flat(b).len(),
    decreases a.len(),
{
    if a.len() > 0 {
        assert(forall|k: int|
            0 <= k < a.drop_first().len() ==> #[trigger] a.drop_first()[k].len()
                == b.drop_first()[k].len()) by {
            assert(forall|k: int|
                0 <= k < a.drop_first().len() ==> a.drop_first()[k] == a[k + 1]
                    && b.drop_first()[k] == b[k + 1]);
        }
        lemma_flat_len_shape(a.drop_first(), b.drop_first());
    }
}

/// Every row is at most as long as the flattened whole.
pub proof fn lemma_row_len_le_flat(rows: Seq<Seq<usize>>, k: int)
    requires
        0 <= k < rows.len(),
    ensures
        rows[k].len() <= flat(rows).len(),
    decreases rows.len(),
{
    if k > 0 {
        lemma_row_len_le_flat(rows.drop_first(), k - 1);
        assert(rows.drop_first()[k - 1] == rows[k]);
    }
}

/// The rows after exchanging the element at `(xi, xj)` with the one at
/// `(yi, yj)` (`xi != yi`).
pub open spec fn swap_rows(rows: Seq<Seq<usize>>, xi: int, xj: int, yi: int, yj: int) -> Seq<
    Seq<usize>,
> {
    rows.update(xi, rows[xi].update(xj, rows[yi][yj])).update(
        yi,
        rows[yi].update(yj, rows[xi][xj]),
    )
}

/// The successor of a cross-cluster position pair, in row-major order over
/// `(x_i, x_j)` then `(y_i, y_j)`.
pub open spec fn pos_next(rows: Seq<Seq<usize>>, xi: int, xj: int, yi: int, yj: int) -> (
    int,
    int,
    int,
    int,
) {
    if yi == xi {
        (xi, xj, xi + 1, yj)
    } else if yj < rows[yi].len() - 1 {
        (xi, xj, yi, yj + 1)
    } else if yi < rows.len() - 1 {
        (xi, xj, yi + 1, 0)
    } else if xj < rows[xi].len() - 1 {
        (xi, xj + 1, xi + 1, 0)
    } else {
        (xi + 1, 0, xi + 2, 0)
    }
}

/// The position a freshly spawned child continues from: one `x` position
/// further, or the terminal marker when none is left.
pub open spec fn child_pos(rows: Seq<Seq<usize>>, xi: int, xj: int, yi: int, yj: int) -> (
    int,
    int,
    int,
    int,
) {
    if xj < rows[xi].len() - 1 {
        (xi, xj + 1, xi + 1, 0)
    } else if xi < rows.len() - 2 {
        (xi + 1, 0, xi + 2, 0)
    } else {
        (
            rows.len() - 2,
            rows[rows.len() - 2].len() - 1,
            rows.len() - 1,
            rows[rows.len() - 1].len() - 1,
        )
    }
}

/// Position pairs packed as one mixed-radix number (for the termination
/// measure).
pub open spec fn pack_idx(m: int, l: int, xi: int, xj: int, yi: int, yj: int) -> int {
    ((xi * m + xj) * l + yi) * m + yj
}

proof fn lemma_digit_lt(hi_a: int, lo_a: int, hi_b: int, lo_b: int, base: int)
    requires
        base >= 1,
        0 <= lo_a < base,
        0 <= lo_b,
        hi_a < hi_b,
    ensures
        hi_a * base + lo_a < hi_b * base + lo_b,
{
    assert(hi_a * base + lo_a < hi_b * base + lo_b) by (nonlinear_arith)
        requires
            base >= 1,
            0 <= lo_a < base,
            0 <= lo_b,
            hi_a < hi_b,
    ;
}

/// Strict lexicographic order of positions gives strict order of packed
/// indices.
proof fn lemma_pack_lt(
    m: int,
    l: int,
    a0: int,
    a1: int,
    a2: int,
    a3: int,
    b0: int,
    b1: int,
    b2: int,
    b3: int,
)
    requires
        m >= 1,
        l >= 1,
        0 <= a1 < m,
        0 <= a3 < m,
        0 <= a2 < l,
        0 <= a0,
        0 <= b1 < m,
        0 <= b3 < m,
        0 <= b2 < l,
        0 <= b0,
        a0 < b0 || (a0 == b0 && (a1 < b1 || (a1 == b1 && (a2 < b2 || (a2 == b2 && a3 < b3))))),
    ensures
        pack_idx(m, l, a0, a1, a2, a3) < pack_idx(m, l, b0, b1, b2, b3),
{
    let pa = a0 * m + a1;
    let pb = b0 * m + b1;
    if a0 < b0 {
        lemma_digit_lt(a0, a1, b0, b1, m);
    } else if a1 < b1 {
        assert(pa < pb);
    }
    if pa < pb {
        lemma_digit_lt(pa, a2, pb, b2, l);
        lemma_digit_lt(pa * l + a2, a3, pb * l + b2, b3, m);
    } else {
        assert(pa == pb);
        if a2 < b2 {
            lemma_digit_lt(pa * l + a2, a3, pb * l + b2, b3, m);
        } else {
            assert(a2 == b2 && a3 < b3);
        }
    }
}

/// Packed indices stay below `l*m*l*m` for in-range positions.
proof fn lemma_pack_bound(m: int, l: int, x0: int, x1: int, x2: int, x3: int)
    requires
        m >= 1,
        l >= 1,
        0 <= x1 < m,
        0 <= x3 < m,
        0 <= x2 < l,
        0 <= x0 < l,
    ensures
        0 <= pack_idx(m, l, x0, x1, x2, x3) < l * m * l * m,
{
    assert(0 <= ((x0 * m + x1) * l + x2) * m + x3 < l * m * l * m) by (nonlinear_arith)
        requires
            m >= 1,
            l >= 1,
            0 <= x1 < m,
            0 <= x3 < m,
            0 <= x2 < l,
            0 <= x0 < l,
    ;
}

/// Recursive cursor over an ordered list of clusters; tracks one active
/// cross-cluster exchange and a child permuter that enumerates the finer
/// exchanges.
#[derive(PartialEq, Debug)]
pub struct Permuter {
    data: Vec<Vec<usize>>,
    child: Option<Box<Permuter>>,
    x_i: usize,
    x_j: usize,
    y_i: usize,
    y_j: usize,
}

impl Permuter {
    pub closed spec fn rows(self) -> Seq<Seq<usize>> {
        rows_of(self.data@)
    }

    pub closed spec fn spec_x(self) -> (int, int) {
        (self.x_i as int, self.x_j as int)
    }

    pub closed spec fn spec_y(self) -> (int, int) {
        (self.y_i as int, self.y_j as int)
    }

    pub closed spec fn spec_child(self) -> Option<Box<Permuter>> {
        self.child
    }

    /// The identity configuration over the given clusters: no exchange done,
    /// no child spawned.
    pub open spec fn is_init(self, rows: Seq<Seq<usize>>) -> bool {
        &&& self.rows() == rows
        &&& self.spec_child() is None
        &&& self.spec_x() == (0int, 0int)
        &&& self.spec_y() == (0int, 0int)
    }

    /// The currently active position still has a successor.
    pub open spec fn spec_own_has_next(self) -> bool {
        if self.spec_y().0 == self.spec_x().0 {
            self.spec_x().0 + 1 < self.rows().len()
        } else {
            ||| self.spec_y().1 < self.rows()[self.spec_y().0].len() - 1
            ||| self.spec_y().0 < self.rows().len() - 1
            ||| self.spec_x().1 < self.rows()[self.spec_x().0].len() - 1
            ||| self.spec_x().0 + 1 < self.rows().len() - 2
        }
    }

    /// Some further permutation is reachable, through the child chain or by
    /// advancing the own position.
    pub open spec fn spec_has_next(self) -> bool
        decreases self,
    {
        match self.spec_child() {
            Some(c) => c.spec_has_next() || self.spec_own_has_next(),
            None => self.spec_own_has_next(),
        }
    }

    /// The currently permuted order: the flattened clusters of the deepest
    /// child.
    pub open spec fn spec_sequence(self) -> Seq<usize>
        decreases self,
    {
        match self.spec_child() {
            Some(c) => c.spec_sequence(),
            None => flat(self.rows()),
        }
    }

    /// Well-formedness: no cluster is empty, and the active position either
    /// is the initial marker (`x == y == (0, 0)`) or names an element of one
    /// cluster and an element of a strictly later cluster.
    pub closed spec fn wf(self) -> bool
        decreases self,
    {
        &&& (forall|k: int| 0 <= k < self.rows().len() ==> #[trigger] self.rows()[k].len() >= 1)
        &&& if self.x_i == self.y_i {
            self.x_i == 0 && self.x_j == 0 && self.y_j == 0
        } else {
            &&& self.x_i < self.y_i
            &&& (self.y_i as int) < self.rows().len()
            &&& (self.x_j as int) < self.rows()[self.x_i as int].len()
            &&& (self.y_j as int) < self.rows()[self.y_i as int].len()
        }
        &&& match self.child {
            Some(c) => c.wf() && self.x_i != self.y_i,
            None => true,
        }
    }

    spec fn own_m(self) -> int {
        flat(self.rows()).len() as int + 1
    }

    spec fn own_l(self) -> int {
        self.rows().len() as int
    }

    spec fn own_idx(self) -> int {
        pack_idx(
            self.own_m(),
            self.own_l(),
            self.x_i as int,
            self.x_j as int,
            self.y_i as int,
            self.y_j as int,
        )
    }

    spec fn own_rem(self) -> int {
        self.own_l() * self.own_m() * self.own_l() * self.own_m() - self.own_idx()
    }

    /// Termination measure: strictly decreases on every `generate_next`.
    pub closed spec fn rank(self) -> nat
        decreases self,
    {
        pow3(self.own_rem() as nat) + match self.child {
            Some(c) => c.rank(),
            None => 0nat,
        }
    }

    /// One advance of the own position plus the spawn of a fresh child, as
    /// `generate_next` performs when no live child remains.
    pub open spec fn own_step(a: Permuter, b: Permuter) -> bool {
        let (xi2, xj2, yi2, yj2) = pos_next(
            a.rows(),
            a.spec_x().0,
            a.spec_x().1,
            a.spec_y().0,
            a.spec_y().1,
        );
        let swapped = swap_rows(a.rows(), xi2, xj2, yi2, yj2);
        let (ci, cj, di, dj) = child_pos(a.rows(), xi2, xj2, yi2, yj2);
        &&& b.rows() == a.rows()
        &&& b.spec_x() == (xi2, xj2)
        &&& b.spec_y() == (yi2, yj2)
        &&& b.spec_child() is Some
        &&& {
            let c = *b.spec_child()->Some_0;
            &&& c.rows() == swapped
            &&& c.spec_x() == (ci, cj)
            &&& c.spec_y() == (di, dj)
            &&& c.spec_child() is None
        }
    }

    /// Exactly how one `generate_next` call transforms the permuter: a live
    /// child advances recursively; an exhausted child is dropped and the own
    /// position advances; with no child the own position advances.
    pub open spec fn next_rel(a: Permuter, b: Permuter) -> bool
        decreases a,
    {
        match a.spec_child() {
            Some(c) => {
                if c.spec_has_next() {
                    &&& b.rows() == a.rows()
                    &&& b.spec_x() == a.spec_x()
                    &&& b.spec_y() == a.spec_y()
                    &&& b.spec_child() is Some
                    &&& Permuter::next_rel(*c, *b.spec_child()->Some_0)
                } else {
                    Permuter::own_step(a, b)
                }
            },
            None => Permuter::own_step(a, b),
        }
    }

    pub fn new(data: Vec<Vec<usize>>) -> (r: Permuter)
        ensures
            r.is_init(rows_of(data@)),
            (forall|k: int| 0 <= k < data@.len() ==> #[trigger] data@[k]@.len() >= 1) ==> r.wf(),
    {
        Permuter { data, child: None, x_i: 0, x_j: 0, y_i: 0, y_j: 0 }
    }

    /// Discard all progress and restart at the identity configuration over
    /// fresh clusters.
    pub fn reset(&mut self, data: Vec<Vec<usize>>)
        ensures
            final(self).is_init(rows_of(data@)),
            (forall|k: int| 0 <= k < data@.len() ==> #[trigger] data@[k]@.len() >= 1)
                ==> final(self).wf(),
    {
        self.data = data;
        self.x_i = 0;
        self.x_j = 0;
        self.y_i = 0;
        self.y_j = 0;
        self.child = None;
    }

    /// The first configuration (the identity) needs no `generate_next`; this
    /// reports whether a further one is reachable.
    pub fn has_next(&self) -> (r: bool)
        requires
            self.wf(),
        ensures
            r == self.spec_has_next(),
        decreases *self,
    {
        match &self.child {
            Some(c) => {
                if c.has_next() {
                    return true;
                }
            },
            None => {},
        }
        if self.y_i == self.x_i {
            self.x_i + 1 < self.data.len()
        } else {
            self.y_j < self.data[self.y_i].len() - 1 || self.y_i < self.data.len() - 1
                || self.x_j < self.data[self.x_i].len() - 1 || self.x_i + 1 < self.data.len() - 2
        }
    }

    /// A copy of the own state (clusters and active position, no child).
    fn duplicate_shallow(&self) -> (r: Permuter)
        requires
            self.spec_child() is None,
        ensures
            r.rows() == self.rows(),
            r.spec_x() == self.spec_x(),
            r.spec_y() == self.spec_y(),
            r.spec_child() is None,
    {
        let mut data: Vec<Vec<usize>> = Vec::new();
        let mut i: usize = 0;
        while i < self.data.len()
            invariant
                i <= self.data@.len(),
                data@.len() == i,
                forall|k: int| 0 <= k < i ==> #[trigger] data@[k]@ == self.data@[k]@,
            decreases self.data@.len() - i,
        {
            let mut row: Vec<usize> = Vec::new();
            let mut j: usize = 0;
            while j < self.data[i].len()
                invariant
                    i < self.data@.len(),
                    j <= self.data@[i as int]@.len(),
                    row@.len() == j,
                    forall|k: int| 0 <= k < j ==> row@[k] == self.data@[i as int]@[k],
                decreases self.data@[i as int]@.len() - j,
            {
                row.push(self.data[i][j]);
                j = j + 1;
            }
            proof {
                assert(row@ =~= self.data@[i as int]@);
            }
            data.push(row);
            i = i + 1;
        }
        let r = Permuter {
            data,
            child: None,
            x_i: self.x_i,
            x_j: self.x_j,
            y_i: self.y_i,
            y_j: self.y_j,
        };
        proof {
            assert(r.rows() =~= self.rows());
        }
        r
    }

    /// Perform the active exchange in place.
    fn replace(&mut self)
        requires
            old(self).wf(),
            old(self).x_i != old(self).y_i,
        ensures
            final(self).rows() == swap_rows(
                old(self).rows(),
                old(self).x_i as int,
                old(self).x_j as int,
                old(self).y_i as int,
                old(self).y_j as int,
            ),
            final(self).spec_x() == old(self).spec_x(),
            final(self).spec_y() == old(self).spec_y(),
            final(self).spec_child() == old(self).spec_child(),
    {
        let a = self.data[self.x_i][self.x_j];
        let b = self.data[self.y_i][self.y_j];
        let mut row_x: Vec<usize> = Vec::new();
        let mut j: usize = 0;
        while j < self.data[self.x_i].len()
            invariant
                old(self).wf(),
                old(self).x_i != old(self).y_i,
                *self == *old(self),
                j <= self.data@[self.x_i as int]@.len(),
                row_x@.len() == j,
                forall|k: int| 0 <= k < j ==> row_x@[k] == self.data@[self.x_i as int]@[k],
            decreases self.data@[self.x_i as int]@.len() - j,
        {
            row_x.push(self.data[self.x_i][j]);
            j = j + 1;
        }
        row_x.set(self.x_j, b);
        let mut row_y: Vec<usize> = Vec::new();
        let mut jy: usize = 0;
        while jy < self.data[self.y_i].len()
            invariant
                old(self).wf(),
                old(self).x_i != old(self).y_i,
                *self == *old(self),
                jy <= self.data@[self.y_i as int]@.len(),
                row_y@.len() == jy,
                forall|k: int| 0 <= k < jy ==> row_y@[k] == self.data@[self.y_i as int]@[k],
            decreases self.data@[self.y_i as int]@.len() - jy,
        {
            row_y.push(self.data[self.y_i][jy]);
            jy = jy + 1;
        }
        row_y.set(self.y_j, a);
        proof {
            assert(row_x@ =~= old(self).rows()[old(self).x_i as int].update(
                old(self).x_j as int,
                old(self).rows()[old(self).y_i as int][old(self).y_j as int],
            ));
            assert(row_y@ =~= old(self).rows()[old(self).y_i as int].update(
                old(self).y_j as int,
                old(self).rows()[old(self).x_i as int][old(self).x_j as int],
            ));
        }
        self.data.set(self.x_i, row_x);
        self.data.set(self.y_i, row_y);
        proof {
            assert(final(self).rows() =~= swap_rows(
                old(self).rows(),
                old(self).x_i as int,
                old(self).x_j as int,
                old(self).y_i as int,
                old(self).y_j as int,
            ));
        }
    }

    /// Spawn the child that continues the enumeration from one position
    /// further (or from the terminal marker).
    fn generate_child(&mut self)
        requires
            old(self).wf(),
            old(self).spec_child() is None,
            old(self).x_i != old(self).y_i,
        ensures
            final(self).rows() == old(self).rows(),
            final(self).spec_x() == old(self).spec_x(),
            final(self).spec_y() == old(self).spec_y(),
            final(self).spec_child() is Some,
            ({
                let c = *final(self).spec_child()->Some_0;
                let swapped = swap_rows(
                    old(self).rows(),
                    old(self).x_i as int,
                    old(self).x_j as int,
                    old(self).y_i as int,
                    old(self).y_j as int,
                );
                let (ci, cj, di, dj) = child_pos(
                    old(self).rows(),
                    old(self).x_i as int,
                    old(self).x_j as int,
                    old(self).y_i as int,
                    old(self).y_j as int,
                );
                &&& c.rows() == swapped
                &&& c.spec_x() == (ci, cj)
                &&& c.spec_y() == (di, dj)
                &&& c.spec_child() is None
                &&& c.wf()
            }),
    {
        let mut c = self.duplicate_shallow();
        proof {
            assert(c.wf());
        }
        c.replace();
        let ghost rows0 = old(self).rows();
        proof {
            assert forall|k: int| 0 <= k < c.rows().len() implies #[trigger] c.rows()[k].len()
                == rows0[k].len() by {
                let xi = old(self).x_i as int;
                let yi = old(self).y_i as int;
                if k == xi {
                    assert(c.rows()[k] == rows0[xi].update(old(self).x_j as int, rows0[yi][old(
                        self,
                    ).y_j as int]));
                } else if k == yi {
                    assert(c.rows()[k] == rows0[yi].update(old(self).y_j as int, rows0[xi][old(
                        self,
                    ).x_j as int]));
                } else {
                    assert(c.rows()[k] == rows0[k]);
                }
            }
            assert((c.x_i as int) < c.rows().len());
            assert((c.y_i as int) < c.rows().len());
            assert(c.rows().len() >= 2);
            assert(c.rows()[c.x_i as int].len() >= 1);
            assert(c.rows()[c.y_i as int].len() >= 1);
            assert(forall|k: int| 0 <= k < rows0.len() ==> #[trigger] rows0[k].len() >= 1);
        }
        if c.x_j < c.data[c.x_i].len() - 1 {
            c.x_j = c.x_j + 1;
            c.y_i = c.x_i + 1;
            c.y_j = 0;
        } else if c.x_i < c.data.len() - 2 {
            c.x_i = c.x_i + 1;
            c.x_j = 0;
            c.y_i = c.x_i + 1;
            c.y_j = 0;
        } else {
            c.x_i = c.data.len() - 2;
            let xl = c.data[c.x_i].len();
            c.x_j = xl - 1;
            c.y_i = c.data.len() - 1;
            let yl = c.data[c.y_i].len();
            c.y_j = yl - 1;
        }
        proof {
            assert(c.wf());
        }
        self.child = Some(Box::new(c));
    }

    /// Advance the own position and spawn the continuation child.
    fn own_advance(&mut self)
        requires
            old(self).wf(),
            old(self).spec_child() is None,
            old(self).spec_own_has_next(),
        ensures
            final(self).wf(),
            Permuter::own_step(*old(self), *final(self)),
            final(self).rank() < pow3(old(self).own_rem() as nat),
    {
        proof {
            lemma_row_bounds(*old(self));
        }
        if self.y_i == self.x_i {
            self.y_i = self.x_i + 1;
        } else if self.y_j < self.data[self.y_i].len() - 1 {
            self.y_j = self.y_j + 1;
        } else if self.y_i < self.data.len() - 1 {
            self.y_i = self.y_i + 1;
            self.y_j = 0;
        } else if self.x_j < self.data[self.x_i].len() - 1 {
            self.x_j = self.x_j + 1;
            self.y_i = self.x_i + 1;
            self.y_j = 0;
        } else {
            self.x_i = self.x_i + 1;
            self.x_j = 0;
            self.y_i = self.x_i + 1;
            self.y_j = 0;
        }
        proof {
            lemma_own_advance_rem(*old(self), *self);
        }
        let ghost mid = *self;
        self.generate_child();
        proof {
            lemma_spawn_rank(*old(self), mid, *self);
        }
    }

    /// Advance to the next permutation. The caller checks `has_next` first;
    /// the first configuration (the identity) is never re-emitted.
    pub fn generate_next(&mut self)
        requires
            old(self).wf(),
            old(self).spec_has_next(),
        ensures
            final(self).wf(),
            Permuter::next_rel(*old(self), *final(self)),
            final(self).rank() < old(self).rank(),
        decreases *old(self),
    {
        let ghost orig = *old(self);
        let child_opt = self.child.take();
        match child_opt {
            Some(mut c) => {
                let ghost c0 = *c;
                if c.has_next() {
                    (&mut *c).generate_next();
                    self.child = Some(c);
                    proof {
                        assert(orig.rank() == pow3(orig.own_rem() as nat) + c0.rank());
                        assert(final(self).rank() == pow3(final(self).own_rem() as nat) + (
                        *final(self).spec_child()->Some_0).rank());
                        assert(final(self).own_rem() == orig.own_rem());
                    }
                } else {
                    proof {
                        assert(orig.rank() == pow3(orig.own_rem() as nat) + c0.rank());
                        assert(c0.rank() >= pow3(c0.own_rem() as nat));
                        lemma_pow3_pos(c0.own_rem() as nat);
                        assert(self.own_rem() == orig.own_rem());
                    }
                    self.own_advance();
                }
            },
            None => {
                self.own_advance();
            },
        }
    }

    /// The currently permuted order of all cluster elements.
    pub fn get_sequence(&self) -> (r: Vec<usize>)
        ensures
            r@ == self.spec_sequence(),
        decreases *self,
    {
        match &self.child {
            Some(c) => {
                return c.get_sequence();
            },
            None => {},
        }
        let mut v: Vec<usize> = Vec::new();
        let mut i: usize = 0;
        proof {
            assert(rows_of(self.data@).take(0) =~= Seq::<Seq<usize>>::empty());
        }
        while i < self.data.len()
            invariant
                i <= self.data@.len(),
                v@ == flat(rows_of(self.data@).take(i as int)),
            decreases self.data@.len() - i,
        {
            let mut j: usize = 0;
            while j < self.data[i].len()
                invariant
                    i < self.data@.len(),
                    j <= self.data@[i as int]@.len(),
                    v@ == flat(rows_of(self.data@).take(i as int)) + self.data@[i as int]@.take(
                        j as int,
                    ),
                decreases self.data@[i as int]@.len() - j,
            {
                v.push(self.data[i][j]);
                proof {
                    assert(self.data@[i as int]@.take(j + 1) =~= self.data@[i as int]@.take(
                        j as int,
                    ).push(self.data@[i as int]@[j as int]));
                    assert(v@ =~= flat(rows_of(self.data@).take(i as int)) + self.data@[
                        i as int
                    ]@.take(j + 1));
                }
                j = j + 1;
            }
            proof {
                let rows = rows_of(self.data@);
                assert(self.data@[i as int]@.take(self.data@[i as int]@.len() as int) =~= rows[
                    i as int
                ]);
                assert(rows.take(i + 1) =~= rows.take(i as int).push(rows[i as int]));
                lemma_flat_push(rows.take(i as int), rows[i as int]);
            }
            i = i + 1;
        }
        proof {
            assert(rows_of(self.data@).take(self.data@.len() as int) =~= rows_of(self.data@));
            assert(self.spec_child() is None);
        }
        v
    }
}

/// In a well-formed non-identity state the active position's packed index is
/// in range.
proof fn lemma_row_bounds(p: Permuter)
    requires
        p.wf(),
    ensures
        p.own_m() >= 1,
        p.x_j < p.own_m(),
        p.y_j < p.own_m(),
        p.x_i != p.y_i ==> p.own_l() >= 2 && p.x_i < p.own_l() && p.y_i < p.own_l()
            && p.rows()[p.x_i as int].len() < p.own_m() && p.rows()[p.y_i as int].len()
            < p.own_m(),
{
    let rows = p.rows();
    if p.x_i != p.y_i {
        lemma_row_len_le_flat(rows, p.x_i as int);
        lemma_row_len_le_flat(rows, p.y_i as int);
    }
}

/// Advancing the own position strictly increases its packed index (and the
/// new position is in range), so the own remainder strictly decreases.
proof fn lemma_own_advance_rem(a: Permuter, b: Permuter)
    requires
        a.wf(),
        a.spec_own_has_next(),
        b.rows() == a.rows(),
        ({
            let (xi2, xj2, yi2, yj2) = pos_next(
                a.rows(),
                a.spec_x().0,
                a.spec_x().1,
                a.spec_y().0,
                a.spec_y().1,
            );
            b.spec_x() == (xi2, xj2) && b.spec_y() == (yi2, yj2)
        }),
    ensures
        b.own_rem() < a.own_rem(),
        0 <= b.own_rem(),
        b.x_i != b.y_i,
        b.x_i < b.y_i,
        (b.y_i as int) < b.rows().len(),
        (b.x_j as int) < b.rows()[b.x_i as int].len(),
        (b.y_j as int) < b.rows()[b.y_i as int].len(),
{
    let rows = a.rows();
    let m = a.own_m();
    let l = a.own_l();
    lemma_row_bounds(a);
    assert(b.own_m() == m);
    assert(b.own_l() == l);
    if a.x_i == a.y_i {
        // identity -> (x_i, x_j, x_i + 1, 0); x_j == y_j == 0, x_i == 0
        assert(l >= 2);
        lemma_row_len_le_flat(rows, 0);
        lemma_row_len_le_flat(rows, 1);
    } else {
        lemma_row_bounds(a);
        if a.y_j < rows[a.y_i as int].len() - 1 {
        } else if a.y_i < rows.len() - 1 {
            lemma_row_len_le_flat(rows, a.y_i as int + 1);
        } else if a.x_j < rows[a.x_i as int].len() - 1 {
            lemma_row_len_le_flat(rows, a.x_i as int + 1);
        } else {
            lemma_row_len_le_flat(rows, a.x_i as int + 1);
            lemma_row_len_le_flat(rows, a.x_i as int + 2);
        }
    }
    lemma_pack_lt(
        m,
        l,
        a.x_i as int,
        a.x_j as int,
        a.y_i as int,
        a.y_j as int,
        b.x_i as int,
        b.x_j as int,
        b.y_i as int,
        b.y_j as int,
    );
    lemma_pack_bound(m, l, b.x_i as int, b.x_j as int, b.y_i as int, b.y_j as int);
}

/// After the advance (`mid`) and the spawn of the continuation child, the
/// whole rank drops strictly below the weight of the pre-advance remainder.
proof fn lemma_spawn_rank(a: Permuter, mid: Permuter, b: Permuter)
    requires
        a.wf(),
        a.spec_own_has_next(),
        mid.rows() == a.rows(),
        ({
            let (xi2, xj2, yi2, yj2) = pos_next(
                a.rows(),
                a.spec_x().0,
                a.spec_x().1,
                a.spec_y().0,
                a.spec_y().1,
            );
            mid.spec_x() == (xi2, xj2) && mid.spec_y() == (yi2, yj2)
        }),
        mid.wf(),
        b.rows() == mid.rows(),
        b.spec_x() == mid.spec_x(),
        b.spec_y() == mid.spec_y(),
        b.spec_child() is Some,
        ({
            let c = *b.spec_child()->Some_0;
            let swapped = swap_rows(
                mid.rows(),
                mid.x_i as int,
                mid.x_j as int,
                mid.y_i as int,
                mid.y_j as int,
            );
            let (ci, cj, di, dj) = child_pos(
                mid.rows(),
                mid.x_i as int,
                mid.x_j as int,
                mid.y_i as int,
                mid.y_j as int,
            );
            &&& c.rows() == swapped
            &&& c.spec_x() == (ci, cj)
            &&& c.spec_y() == (di, dj)
            &&& c.spec_child() is None
            &&& c.wf()
        }),
    ensures
        b.rank() < pow3(a.own_rem() as nat),
{
    lemma_own_advance_rem(a, mid);
    let c = *b.spec_child()->Some_0;
    let rows = mid.rows();
    let m = mid.own_m();
    let l = mid.own_l();
    // the swapped rows have the same shape, hence the same m and l
    assert(forall|k: int| 0 <= k < c.rows().len() ==> #[trigger] c.rows()[k].len()
        == rows[k].len());
    lemma_flat_len_shape(c.rows(), rows);
    assert(c.own_m() == m);
    assert(c.own_l() == l);
    lemma_row_bounds(mid);
    // the child position is at or after the advanced own position
    let (ci, cj, di, dj) = child_pos(rows, mid.x_i as int, mid.x_j as int, mid.y_i as int,
        mid.y_j as int);
    if mid.x_j < rows[mid.x_i as int].len() - 1 {
        lemma_pack_lt(m, l, mid.x_i as int, mid.x_j as int, mid.y_i as int, mid.y_j as int, ci,
            cj, di, dj);
        lemma_row_len_le_flat(rows, mid.x_i as int + 1);
    } else if (mid.x_i as int) < rows.len() - 2 {
        lemma_pack_lt(m, l, mid.x_i as int, mid.x_j as int, mid.y_i as int, mid.y_j as int, ci,
            cj, di, dj);
        lemma_row_len_le_flat(rows, mid.x_i as int + 1);
        lemma_row_len_le_flat(rows, mid.x_i as int + 2);
    } else {
        // terminal: the lexicographically largest in-range position
        lemma_row_len_le_flat(rows, rows.len() - 2);
        lemma_row_len_le_flat(rows, rows.len() - 1);
        if (mid.x_i as int, mid.x_j as int, mid.y_i as int, mid.y_j as int) != (ci, cj, di, dj) {
            lemma_pack_lt(m, l, mid.x_i as int, mid.x_j as int, mid.y_i as int, mid.y_j as int,
                ci, cj, di, dj);
        }
    }
    lemma_pack_bound(m, l, ci, cj, di, dj);
    assert(c.own_rem() <= mid.own_rem());
    // rank(b) = pow3(rem(mid)) + pow3(rem(c)) <= 2 * pow3(rem(mid)) < pow3(rem(a))
    let ra = a.own_rem() as nat;
    let rm = mid.own_rem() as nat;
    let rc = c.own_rem() as nat;
    assert(c.rank() == pow3(rc));
    assert(b.rank() == pow3(b.own_rem() as nat) + c.rank());
    assert(b.own_rem() == mid.own_rem());
    assert(b.rank() == pow3(rm) + pow3(rc));
    lemma_pow3_mono(rc, rm);
    assert(rm < ra);
    assert(rm + 1 <= ra);
    lemma_pow3_mono((rm + 1) as nat, ra);
    assert(pow3((rm + 1) as nat) == 3 * pow3(rm));
    lemma_pow3_pos(rm);
}

} // verus!
