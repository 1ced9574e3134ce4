//! A stack-based variant of the cluster permuter: cross-cluster exchanges
//! are tracked as an explicit stack of swap pairs instead of a recursive
//! child chain. Each stack entry names one applied exchange
//! `((x_i, x_j), (y_i, y_j))`; advancing undoes the newest exchange, moves it
//! one position on, re-applies it and pushes the continuation pair.

use vstd::prelude::*;
use vstd::pervasive::VecAdditionalExecFns;
use crate::permuter::flat;
use crate::permuter::lemma_flat_push;
use crate::permuter::rows_of;
use crate::permuter::swap_rows;

verus! {

/// One exchange: element `(x_i, x_j)` swapped with element `(y_i, y_j)`.
pub type SwapPair = ((usize, usize), (usize, usize));

pub open spec fn el_view(e: SwapPair) -> ((int, int), (int, int)) {
    ((e.0.0 as int, e.0.1 as int), (e.1.0 as int, e.1.1 as int))
}

/// The rows after exchanging the two named elements (the positions may share
/// a row, or even coincide).
pub open spec fn swap_any(rows: Seq<Seq<usize>>, e: ((int, int), (int, int))) -> Seq<Seq<usize>> {
    let ((xi, xj), (yi, yj)) = e;
    if xi == yi {
        rows.update(xi, rows[xi].update(xj, rows[yi][yj]).update(yj, rows[xi][xj]))
    } else {
        swap_rows(rows, xi, xj, yi, yj)
    }
}

/// The successor of an exchange pair in row-major order over `(x_i, x_j)`
/// then `(y_i, y_j)`; `None` when no further pair exists.
pub open spec fn advance_el(rows: Seq<Seq<usize>>, e: ((int, int), (int, int))) -> Option<
    ((int, int), (int, int)),
> {
    let ((xi, xj), (yi, yj)) = e;
    if yj < rows[yi].len() - 1 {
        Option::Some(((xi, xj), (yi, yj + 1)))
    } else if yi < rows.len() - 1 {
        Option::Some(((xi, xj), (yi + 1, 0)))
    } else if xj < rows[xi].len() - 1 {
        Option::Some(((xi, xj + 1), (xi + 1, 0)))
    } else if xi < rows.len() - 2 {
        Option::Some(((xi + 1, 0), (xi + 2, 0)))
    } else {
        Option::None
    }
}

/// The continuation pair a new stack level starts from: one `x` position
/// further; `None` when none is left.
pub open spec fn child_el_of(rows: Seq<Seq<usize>>, e: ((int, int), (int, int))) -> Option<
    ((int, int), (int, int)),
> {
    let ((xi, xj), (yi, yj)) = e;
    if xj < rows[xi].len() - 1 {
        if yj < rows[yi].len() - 1 {
            Option::Some(((xi, xj + 1), (yi, yj + 1)))
        } else if yi < rows.len() - 1 {
            Option::Some(((xi, xj + 1), (yi + 1, 0)))
        } else {
            Option::None
        }
    } else if xi < rows.len() - 2 {
        Option::Some(((xi + 1, 0), (xi + 2, 0)))
    } else {
        Option::None
    }
}

/// An exchange pair that stays inside the clusters.
pub open spec fn el_bounds(rows: Seq<Seq<usize>>, e: ((int, int), (int, int))) -> bool {
    let ((xi, xj), (yi, yj)) = e;
    &&& 0 <= xi <= rows.len() - 2
    &&& 0 <= yi <= rows.len() - 1
    &&& 0 <= xj < rows[xi].len()
    &&& 0 <= yj < rows[yi].len()
}

#[derive(PartialEq, Debug)]
pub struct SetPermuter {
    data: Vec<Vec<usize>>,
    stack: Vec<SwapPair>,
}

impl SetPermuter {
    pub closed spec fn rows(self) -> Seq<Seq<usize>> {
        rows_of(self.data@)
    }

    pub closed spec fn spec_stack(self) -> Seq<((int, int), (int, int))> {
        self.stack@.map_values(|e: SwapPair| el_view(e))
    }

    /// No cluster is empty, and every stack entry is the initial marker or an
    /// in-bounds exchange.
    pub open spec fn wf(self) -> bool {
        &&& (forall|k: int| 0 <= k < self.rows().len() ==> #[trigger] self.rows()[k].len() >= 1)
        &&& (forall|k: int|
            0 <= k < self.spec_stack().len() ==> #[trigger] self.spec_stack()[k] == ((
                0int,
                0int,
            ), (0int, 0int)) || el_bounds(self.rows(), self.spec_stack()[k]))
    }

    /// Some further permutation is reachable from the newest stack entry.
    pub open spec fn spec_has_next(self) -> bool {
        if self.rows().len() <= 1 {
            false
        } else if self.spec_stack().len() == 0 {
            false
        } else {
            let ((xi, xj), (yi, yj)) = self.spec_stack().last();
            ||| yi < self.rows().len() - 1
            ||| yj < self.rows()[yi].len() - 1
            ||| xi < self.rows().len() - 2
            ||| xj < self.rows()[xi].len() - 1
            ||| self.spec_stack().len() > 1
        }
    }

    /// How one `generate_next` call transforms the permuter: undo the newest
    /// exchange; move it to its successor pair (dropping the level if none is
    /// left); re-apply it and push the applied continuation pair, if any.
    pub open spec fn sp_next(a: SetPermuter, b: SetPermuter) -> bool {
        let rows = a.rows();
        let st = a.spec_stack();
        let e = st.last();
        let popped = st.drop_last();
        let rows1 = swap_any(rows, e);
        if e == ((0int, 0int), (0int, 0int)) {
            let e1 = ((0int, 0int), (1int, 0int));
            let rows2 = swap_any(rows1, e1);
            match child_el_of(rows, e1) {
                Option::None => b.rows() == rows2 && b.spec_stack() == popped.push(e1),
                Option::Some(e2) => b.rows() == swap_any(rows2, e2) && b.spec_stack()
                    == popped.push(e1).push(e2),
            }
        } else {
            match advance_el(rows, e) {
                Option::None => b.rows() == rows1 && b.spec_stack() == popped,
                Option::Some(e1) => {
                    let rows2 = swap_any(rows1, e1);
                    match child_el_of(rows, e1) {
                        Option::None => b.rows() == rows2 && b.spec_stack() == popped.push(e1),
                        Option::Some(e2) => b.rows() == swap_any(rows2, e2) && b.spec_stack()
                            == popped.push(e1).push(e2),
                    }
                },
            }
        }
    }

    pub fn new(data: Vec<Vec<usize>>) -> (r: SetPermuter)
        ensures
            r.rows() == rows_of(data@),
            r.spec_stack() =~= seq![((0int, 0int), (0int, 0int))],
            (forall|k: int| 0 <= k < data@.len() ==> #[trigger] data@[k]@.len() >= 1) ==> r.wf(),
    {
        let mut stack: Vec<SwapPair> = Vec::new();
        stack.push(((0, 0), (0, 0)));
        SetPermuter { data, stack }
    }

    /// Restart over clusters of the given shape, renumbered sequentially in
    /// row-major order.
    pub fn reset(&mut self, data: Vec<Vec<usize>>)
        requires
            flat(rows_of(data@)).len() <= usize::MAX,
        ensures
            final(self).rows().len() == data@.len(),
            forall|k: int| 0 <= k < data@.len() ==> #[trigger] final(self).rows()[k].len()
                == data@[k]@.len(),
            flat(final(self).rows()) == Seq::new(
                flat(rows_of(data@)).len(),
                |t: int| t as usize,
            ),
            final(self).spec_stack() =~= seq![((0int, 0int), (0int, 0int))],
            (forall|k: int| 0 <= k < data@.len() ==> #[trigger] data@[k]@.len() >= 1) ==> final(self).wf(),
    {
        let mut v: Vec<Vec<usize>> = Vec::new();
        let mut counter: usize = 0;
        let mut i: usize = 0;
        proof {
            assert(rows_of(v@).take(0) =~= Seq::<Seq<usize>>::empty());
            assert(rows_of(data@).take(0) =~= Seq::<Seq<usize>>::empty());
            assert(flat(rows_of(v@)) =~= Seq::<usize>::empty());
            assert(rows_of(data@).skip(0) =~= rows_of(data@));
        }
        while i < data.len()
            invariant
                i <= data@.len(),
                v@.len() == i,
                forall|k: int| 0 <= k < i ==> #[trigger] v@[k]@.len() == data@[k]@.len(),
                counter == flat(rows_of(v@)).len(),
                flat(rows_of(v@)) =~= Seq::new(counter as nat, |t: int| t as usize),
                flat(rows_of(v@)).len() + flat(rows_of(data@).skip(i as int)).len() == flat(
                    rows_of(data@),
                ).len(),
                flat(rows_of(data@)).len() <= usize::MAX,
            decreases data@.len() - i,
        {
            proof {
                assert(rows_of(data@).skip(i as int)[0] == rows_of(data@)[i as int]);
                assert(rows_of(data@).skip(i as int).drop_first() =~= rows_of(data@).skip(
                    i + 1,
                ));
                assert(flat(rows_of(data@).skip(i as int)) == rows_of(data@)[i as int] + flat(
                    rows_of(data@).skip(i + 1),
                ));
            }
            let row_len = data[i].len();
            let ghost c0 = counter as int;
            let mut row: Vec<usize> = Vec::new();
            let mut j: usize = 0;
            while j < row_len
                invariant
                    j <= row_len,
                    row@.len() == j,
                    counter == c0 + j,
                    c0 + row_len <= usize::MAX,
                    forall|t: int| 0 <= t < j ==> row@[t] == (c0 + t) as usize,
                decreases row_len - j,
            {
                row.push(counter);
                counter = counter + 1;
                j = j + 1;
            }
            proof {
                lemma_flat_push(rows_of(v@), row@);
                assert(rows_of(v@.push(row)) =~= rows_of(v@).push(row@));
            }
            v.push(row);
            proof {
                assert(flat(rows_of(v@)) =~= Seq::new(counter as nat, |t: int| t as usize));
            }
            i = i + 1;
        }
        proof {
            assert(rows_of(data@).skip(data@.len() as int) =~= Seq::<Seq<usize>>::empty());
        }
        self.data = v;
        let mut stack: Vec<SwapPair> = Vec::new();
        stack.push(((0, 0), (0, 0)));
        self.stack = stack;
    }

    pub fn has_next(&self) -> (r: bool)
        requires
            self.wf(),
        ensures
            r == self.spec_has_next(),
    {
        if self.data.len() <= 1 {
            return false;
        }
        if self.stack.len() == 0 {
            return false;
        }
        let last_el = self.stack[self.stack.len() - 1];
        proof {
            assert(self.spec_stack().last() == el_view(last_el));
        }
        last_el.1.0 < self.data.len() - 1 || last_el.1.1 < self.data[last_el.1.0].len() - 1
            || last_el.0.0 < self.data.len() - 2 || last_el.0.1 < self.data[last_el.0.0].len() - 1
            || self.stack.len() > 1
    }

    /// Exchange the two elements a pair names.
    fn apply_swap(&mut self, i_j: SwapPair)
        requires
            0 <= (i_j.0.0 as int) < old(self).rows().len(),
            0 <= (i_j.1.0 as int) < old(self).rows().len(),
            (i_j.0.1 as int) < old(self).rows()[i_j.0.0 as int].len(),
            (i_j.1.1 as int) < old(self).rows()[i_j.1.0 as int].len(),
        ensures
            final(self).rows() == swap_any(old(self).rows(), el_view(i_j)),
            final(self).spec_stack() == old(self).spec_stack(),
    {
        let ((xi, xj), (yi, yj)) = i_j;
        let a = self.data[xi][xj];
        let b = self.data[yi][yj];
        if xi == yi {
            let mut row = copy_cluster(&self.data[xi]);
            row.set(xj, b);
            row.set(yj, a);
            self.data.set(xi, row);
            proof {
                assert(final(self).rows() =~= swap_any(old(self).rows(), el_view(i_j)));
            }
        } else {
            let mut row_x = copy_cluster(&self.data[xi]);
            row_x.set(xj, b);
            let mut row_y = copy_cluster(&self.data[yi]);
            row_y.set(yj, a);
            self.data.set(xi, row_x);
            self.data.set(yi, row_y);
            proof {
                assert(final(self).rows() =~= swap_any(old(self).rows(), el_view(i_j)));
            }
        }
    }

    /// The successor of an in-bounds exchange pair, if any.
    fn advance_pair(&self, e: SwapPair) -> (r: Option<SwapPair>)
        requires
            forall|k: int| 0 <= k < self.rows().len() ==> #[trigger] self.rows()[k].len() >= 1,
            el_bounds(self.rows(), el_view(e)),
        ensures
            (match advance_el(self.rows(), el_view(e)) {
                Option::None => r is None,
                Option::Some(ce) => r is Some && el_view(r->Some_0) == ce && el_bounds(
                    self.rows(),
                    ce,
                ),
            }),
    {
        let ((xi, xj), (yi, yj)) = e;
        if yj < self.data[yi].len() - 1 {
            Option::Some(((xi, xj), (yi, yj + 1)))
        } else if yi < self.data.len() - 1 {
            Option::Some(((xi, xj), (yi + 1, 0)))
        } else if xj < self.data[xi].len() - 1 {
            Option::Some(((xi, xj + 1), (xi + 1, 0)))
        } else if xi < self.data.len() - 2 {
            Option::Some(((xi + 1, 0), (xi + 2, 0)))
        } else {
            Option::None
        }
    }

    /// The continuation pair a new stack level starts from, if any.
    fn child_pair(&self, e: SwapPair) -> (r: Option<SwapPair>)
        requires
            forall|k: int| 0 <= k < self.rows().len() ==> #[trigger] self.rows()[k].len() >= 1,
            el_bounds(self.rows(), el_view(e)),
        ensures
            (match child_el_of(self.rows(), el_view(e)) {
                Option::None => r is None,
                Option::Some(ce) => r is Some && el_view(r->Some_0) == ce && el_bounds(
                    self.rows(),
                    ce,
                ),
            }),
    {
        let ((xi, xj), (yi, yj)) = e;
        if xj < self.data[xi].len() - 1 {
            if yj < self.data[yi].len() - 1 {
                Option::Some(((xi, xj + 1), (yi, yj + 1)))
            } else if yi < self.data.len() - 1 {
                Option::Some(((xi, xj + 1), (yi + 1, 0)))
            } else {
                Option::None
            }
        } else if xi < self.data.len() - 2 {
            Option::Some(((xi + 1, 0), (xi + 2, 0)))
        } else {
            Option::None
        }
    }

    /// Advance to the next permutation. The caller checks `has_next` first.
    #[verifier::rlimit(50)]
    pub fn generate_next(&mut self)
        requires
            old(self).wf(),
            old(self).spec_has_next(),
        ensures
            final(self).wf(),
            SetPermuter::sp_next(*old(self), *final(self)),
    {
        let ghost rows0 = old(self).rows();
        let last_el = self.stack[self.stack.len() - 1];
        proof {
            assert(self.spec_stack().last() == el_view(last_el));
            assert(self.rows().len() >= 2);
        }
        let is_marker = last_el.0.0 == 0 && last_el.0.1 == 0 && last_el.1.0 == 0 && last_el.1.1
            == 0;
        self.apply_swap(last_el);
        let _ = self.stack.pop();
        proof {
            assert(self.spec_stack() =~= old(self).spec_stack().drop_last());
            lemma_swap_any_shape(rows0, el_view(last_el));
        }
        let ghost rows1 = self.rows();
        if is_marker {
            let e1: SwapPair = ((0, 0), (1, 0));
            proof {
                assert(el_bounds(rows0, el_view(e1)));
                assert(el_bounds(self.rows(), el_view(e1)));
            }
            let child = self.child_pair(e1);
            proof {
                lemma_el_fns_shape(self.rows(), rows0, el_view(e1));
            }
            self.apply_swap(e1);
            self.stack.push(e1);
            proof {
                assert(self.spec_stack() =~= old(self).spec_stack().drop_last().push(el_view(
                    e1,
                )));
                lemma_swap_any_shape(rows1, el_view(e1));
            }
            match child {
                Option::None => {},
                Option::Some(e2) => {
                    proof {
                        assert(el_bounds(self.rows(), el_view(e2)));
                    }
                    self.apply_swap(e2);
                    self.stack.push(e2);
                    proof {
                        assert(self.spec_stack() =~= old(self).spec_stack().drop_last().push(
                            el_view(e1),
                        ).push(el_view(e2)));
                    }
                },
            }
            return;
        }
        proof {
            assert(el_bounds(rows0, el_view(last_el)));
            assert(el_bounds(self.rows(), el_view(last_el)));
        }
        let advanced = self.advance_pair(last_el);
        proof {
            lemma_el_fns_shape(self.rows(), rows0, el_view(last_el));
        }
        match advanced {
            Option::None => {},
            Option::Some(e1) => {
                let child = self.child_pair(e1);
                proof {
                    lemma_el_fns_shape(self.rows(), rows0, el_view(e1));
                }
                self.apply_swap(e1);
                self.stack.push(e1);
                proof {
                    assert(self.spec_stack() =~= old(self).spec_stack().drop_last().push(el_view(
                        e1,
                    )));
                    lemma_swap_any_shape(rows1, el_view(e1));
                }
                match child {
                    Option::None => {},
                    Option::Some(e2) => {
                        proof {
                            assert(el_bounds(self.rows(), el_view(e2)));
                        }
                        self.apply_swap(e2);
                        self.stack.push(e2);
                        proof {
                            assert(self.spec_stack() =~= old(
                                self,
                            ).spec_stack().drop_last().push(el_view(e1)).push(el_view(e2)));
                        }
                    },
                }
            },
        }
    }

    /// The currently permuted order of all cluster elements.
    pub fn get_vector(&self) -> (r: Vec<usize>)
        ensures
            r@ == flat(self.rows()),
    {
        let mut v: Vec<usize> = Vec::new();
        let mut i: usize = 0;
        proof {
            assert(rows_of(self.data@).take(0) =~= Seq::<Seq<usize>>::empty());
        }
        while i < self.data.len()
            invariant
                i <= self.data@.len(),
                v@ == flat(rows_of(self.data@).take(i as int)),
            decreases self.data@.len() - i,
        {
            let mut j: usize = 0;
            while j < self.data[i].len()
                invariant
                    i < self.data@.len(),
                    j <= self.data@[i as int]@.len(),
                    v@ == flat(rows_of(self.data@).take(i as int)) + self.data@[i as int]@.take(
                        j as int,
                    ),
                decreases self.data@[i as int]@.len() - j,
            {
                proof {
                    assert(self.data@[i as int]@.take(j + 1) =~= self.data@[i as int]@.take(
                        j as int,
                    ).push(self.data@[i as int]@[j as int]));
                    assert(v@.push(self.data@[i as int]@[j as int]) =~= flat(rows_of(
                        self.data@,
                    ).take(i as int)) + self.data@[i as int]@.take(j + 1));
                }
                v.push(self.data[i][j]);
                j = j + 1;
            }
            proof {
                let rows = rows_of(self.data@);
                assert(self.data@[i as int]@.take(self.data@[i as int]@.len() as int) =~= rows[
                    i as int
                ]);
                assert(rows.take(i + 1) =~= rows.take(i as int).push(rows[i as int]));
                lemma_flat_push(rows.take(i as int), rows[i as int]);
            }
            i = i + 1;
        }
        proof {
            assert(rows_of(self.data@).take(self.data@.len() as int) =~= rows_of(self.data@));
        }
        v
    }
}

/// Exchanging two elements preserves every cluster's length.
proof fn lemma_swap_any_shape(rows: Seq<Seq<usize>>, e: ((int, int), (int, int)))
    requires
        0 <= e.0.0 < rows.len(),
        0 <= e.1.0 < rows.len(),
        0 <= e.0.1 < rows[e.0.0].len(),
        0 <= e.1.1 < rows[e.1.0].len(),
    ensures
        swap_any(rows, e).len() == rows.len(),
        forall|k: int| 0 <= k < rows.len() ==> #[trigger] swap_any(rows, e)[k].len()
            == rows[k].len(),
{
}

/// The successor functions read only cluster lengths, so equal shapes give
/// equal successors.
proof fn lemma_el_fns_shape(a: Seq<Seq<usize>>, b: Seq<Seq<usize>>, e: ((int, int), (int, int)))
    requires
        a.len() == b.len(),
        forall|k: int| 0 <= k < a.len() ==> #[trigger] a[k].len() == b[k].len(),
        0 <= e.0.0 < a.len(),
        0 <= e.1.0 < a.len(),
    ensures
        advance_el(a, e) == advance_el(b, e),
        child_el_of(a, e) == child_el_of(b, e),
{
    assert(a[e.0.0].len() == b[e.0.0].len());
    assert(a[e.1.0].len() == b[e.1.0].len());
}

/// A copy of one cluster.
fn copy_cluster(v: &Vec<usize>) -> (r: Vec<usize>)
    ensures
        r@ == v@,
{
    let mut r: Vec<usize> = Vec::new();
    let mut i: usize = 0;
    while i < v.len()
        invariant
            i <= v@.len(),
            r@ == v@.take(i as int),
        decreases v@.len() - i,
    {
        proof {
            assert(v@.take(i + 1) =~= v@.take(i as int).push(v@[i as int]));
        }
        r.push(v[i]);
        i = i + 1;
    }
    proof {
        assert(v@.take(v@.len() as int) =~= v@);
    }
    r
}

} // verus!
