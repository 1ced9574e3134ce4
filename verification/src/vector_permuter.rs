//! A transposition-based permutation cursor over a flat index vector: an
//! earlier variant of the symmetry permuter that enumerates pairwise swaps
//! without cluster structure.
//!
//! The cursor tracks one active swap pair `(x, y)` over the identity vector
//! and recurses through a child permuter spawned one position further.

use vstd::prelude::*;
use vstd::pervasive::VecAdditionalExecFns;

verus! {

/// `s` with the entries at `x` and `y` exchanged.
pub open spec fn swapped(s: Seq<usize>, x: int, y: int) -> Seq<usize> {
    s.update(x, s[y]).update(y, s[x])
}

#[derive(PartialEq, Debug)]
pub struct VectorPermuter {
    vector: Vec<usize>,
    x: usize,
    y: usize,
    child: Option<Box<VectorPermuter>>,
    stack_size: usize,
}

impl VectorPermuter {
    pub closed spec fn spec_vector(self) -> Seq<usize> {
        self.vector@
    }

    pub closed spec fn spec_x(self) -> int {
        self.x as int
    }

    pub closed spec fn spec_y(self) -> int {
        self.y as int
    }

    pub closed spec fn spec_child(self) -> Option<Box<VectorPermuter>> {
        self.child
    }

    pub closed spec fn spec_stack_size(self) -> int {
        self.stack_size as int
    }

    /// The active pair stays inside the vector, which holds at least two
    /// entries.
    pub closed spec fn wf(self) -> bool
        decreases self,
    {
        &&& self.spec_vector().len() >= 2
        &&& self.spec_x() < self.spec_vector().len()
        &&& self.spec_y() < self.spec_vector().len()
        &&& match self.child {
            Some(c) => c.wf(),
            None => true,
        }
    }

    /// A further permutation is reachable.
    pub open spec fn spec_has_next(self) -> bool
        decreases self,
    {
        ||| (self.spec_child() is Some && (*self.spec_child()->Some_0).spec_has_next())
        ||| self.spec_y() < self.spec_vector().len() - 1
        ||| self.spec_x() < self.spec_vector().len() - 2
        ||| self.spec_child() is Some
    }

    /// The currently exposed order: the deepest child's vector with its
    /// active pair exchanged.
    pub open spec fn spec_out(self) -> Seq<usize>
        decreases self,
    {
        match self.spec_child() {
            Some(c) => c.spec_out(),
            None => swapped(self.spec_vector(), self.spec_x(), self.spec_y()),
        }
    }

    /// How one `generate_next` call transforms the permuter.
    pub open spec fn vp_next(a: VectorPermuter, b: VectorPermuter) -> bool
        decreases a,
    {
        let n = a.spec_vector().len() as int;
        if a.spec_x() == 0 && a.spec_y() == 0 {
            &&& b.spec_vector() == a.spec_vector()
            &&& b.spec_x() == 0
            &&& b.spec_y() == 1
            &&& b.spec_child() == a.spec_child()
            &&& b.spec_stack_size() == a.spec_stack_size()
        } else {
            match a.spec_child() {
                Some(c) => {
                    if c.spec_has_next() {
                        &&& b.spec_vector() == a.spec_vector()
                        &&& b.spec_x() == a.spec_x()
                        &&& b.spec_y() == a.spec_y()
                        &&& b.spec_stack_size() == a.spec_stack_size()
                        &&& b.spec_child() is Some
                        &&& VectorPermuter::vp_next(*c, *b.spec_child()->Some_0)
                    } else {
                        &&& b.spec_vector() == a.spec_vector()
                        &&& b.spec_x() == a.spec_x()
                        &&& b.spec_y() == a.spec_y()
                        &&& b.spec_stack_size() == a.spec_stack_size()
                        &&& b.spec_child() is None
                    }
                },
                None => {
                    let cx = if a.spec_x() + 1 < n {
                        a.spec_x() + 1
                    } else {
                        n - 1
                    };
                    let cy = if cx + 1 < n {
                        cx + 1
                    } else {
                        n - 1
                    };
                    &&& b.spec_vector() == a.spec_vector()
                    &&& b.spec_stack_size() == a.spec_stack_size()
                    &&& b.spec_child() is Some
                    &&& {
                        let c = *b.spec_child()->Some_0;
                        &&& c.spec_vector() == swapped(a.spec_vector(), a.spec_x(), a.spec_y())
                        &&& c.spec_x() == cx
                        &&& c.spec_y() == cy
                        &&& c.spec_child() is None
                        &&& c.spec_stack_size() == (if a.spec_stack_size() < usize::MAX {
                            a.spec_stack_size() + 1
                        } else {
                            usize::MAX as int
                        })
                    }
                    &&& if a.spec_y() < n - 1 {
                        b.spec_x() == a.spec_x() && b.spec_y() == a.spec_y() + 1
                    } else {
                        // the caller checked has_next, so x can advance
                        b.spec_x() == a.spec_x() + 1 && b.spec_y() == a.spec_x() + 2
                    }
                },
            }
        }
    }

    /// The identity permuter over `0..len`.
    pub fn new(len: usize) -> (r: VectorPermuter)
        ensures
            r.spec_vector().len() == len,
            forall|i: int| 0 <= i < len ==> r.spec_vector()[i] == i,
            r.spec_x() == 0,
            r.spec_y() == 0,
            r.spec_child() is None,
            len >= 2 ==> r.wf(),
    {
        let mut vector: Vec<usize> = Vec::new();
        let mut i: usize = 0;
        while i < len
            invariant
                i <= len,
                vector@.len() == i,
                forall|j: int| 0 <= j < i ==> vector@[j] == j,
            decreases len - i,
        {
            vector.push(i);
            i = i + 1;
        }
        VectorPermuter { vector, x: 0, y: 0, child: None, stack_size: 0 }
    }

    /// Rewind the vector to the identity and the active pair to the start
    /// (any child chain is kept, as the cursor's own state alone restarts).
    pub fn reset(&mut self)
        ensures
            final(self).spec_vector().len() == old(self).spec_vector().len(),
            forall|i: int|
                0 <= i < final(self).spec_vector().len() ==> final(self).spec_vector()[i] == i,
            final(self).spec_x() == 0,
            final(self).spec_y() == 0,
            final(self).spec_child() == old(self).spec_child(),
            final(self).spec_stack_size() == old(self).spec_stack_size(),
    {
        let len = self.vector.len();
        self.vector = Vec::new();
        let mut i: usize = 0;
        while i < len
            invariant
                i <= len,
                self.vector@.len() == i,
                forall|j: int| 0 <= j < i ==> self.vector@[j] == j,
                self.x == old(self).x,
                self.y == old(self).y,
                self.child == old(self).child,
                self.stack_size == old(self).stack_size,
            decreases len - i,
        {
            self.vector.push(i);
            i = i + 1;
        }
        self.x = 0;
        self.y = 0;
    }

    pub fn has_next(&self) -> (r: bool)
        requires
            self.wf(),
        ensures
            r == self.spec_has_next(),
        decreases *self,
    {
        match &self.child {
            Some(c) => {
                if c.has_next() {
                    return true;
                }
            },
            None => {},
        }
        self.y < self.vector.len() - 1 || self.x < self.vector.len() - 2 || match &self.child {
            Some(_) => true,
            None => false,
        }
    }

    /// Advance to the next transposition state. The caller checks `has_next`
    /// first.
    pub fn generate_next(&mut self)
        requires
            old(self).wf(),
            old(self).spec_has_next(),
        ensures
            final(self).wf(),
            VectorPermuter::vp_next(*old(self), *final(self)),
        decreases *old(self),
    {
        if self.x == 0 && self.y == 0 {
            self.y = 1;
            return;
        }
        let child_opt = self.child.take();
        match child_opt {
            Some(mut c) => {
                if c.has_next() {
                    (&mut *c).generate_next();
                    self.child = Some(c);
                } else {
                    // chain exhausted: drop the child and expose the own pair
                }
            },
            None => {
                self.generate_child();
                if self.y < self.vector.len() - 1 {
                    self.y = self.y + 1;
                } else {
                    self.x = self.x + 1;
                    self.y = self.x + 1;
                }
            },
        }
    }

    /// Spawn the child that continues from one position further.
    fn generate_child(&mut self)
        requires
            old(self).wf(),
            old(self).spec_child() is None,
        ensures
            final(self).spec_vector() == old(self).spec_vector(),
            final(self).spec_x() == old(self).spec_x(),
            final(self).spec_y() == old(self).spec_y(),
            final(self).spec_stack_size() == old(self).spec_stack_size(),
            final(self).spec_child() is Some,
            ({
                let c = *final(self).spec_child()->Some_0;
                let n = old(self).spec_vector().len() as int;
                let cx = if old(self).spec_x() + 1 < n {
                    old(self).spec_x() + 1
                } else {
                    n - 1
                };
                let cy = if cx + 1 < n {
                    cx + 1
                } else {
                    n - 1
                };
                &&& c.spec_vector() == swapped(
                    old(self).spec_vector(),
                    old(self).spec_x(),
                    old(self).spec_y(),
                )
                &&& c.spec_x() == cx
                &&& c.spec_y() == cy
                &&& c.spec_child() is None
                &&& c.spec_stack_size() == (if old(self).spec_stack_size() < usize::MAX {
                    old(self).spec_stack_size() + 1
                } else {
                    usize::MAX as int
                })
                &&& c.wf()
            }),
    {
        let mut vec2: Vec<usize> = Vec::new();
        let mut i: usize = 0;
        while i < self.vector.len()
            invariant
                i <= self.vector@.len(),
                vec2@ == self.vector@.take(i as int),
            decreases self.vector@.len() - i,
        {
            proof {
                assert(self.vector@.take(i + 1) =~= self.vector@.take(i as int).push(
                    self.vector@[i as int],
                ));
            }
            vec2.push(self.vector[i]);
            i = i + 1;
        }
        proof {
            assert(vec2@ =~= self.vector@);
        }
        let a = vec2[self.x];
        let b = vec2[self.y];
        vec2.set(self.x, b);
        vec2.set(self.y, a);
        proof {
            assert(vec2@ =~= swapped(old(self).spec_vector(), old(self).spec_x(), old(
                self,
            ).spec_y()));
        }
        let n = self.vector.len();
        let cx = if self.x + 1 < n {
            self.x + 1
        } else {
            n - 1
        };
        let cy = if cx + 1 < n {
            cx + 1
        } else {
            n - 1
        };
        let bumped = if self.stack_size < usize::MAX {
            self.stack_size + 1
        } else {
            usize::MAX
        };
        let c = VectorPermuter { vector: vec2, x: cx, y: cy, child: None, stack_size: bumped };
        self.child = Some(Box::new(c));
    }

    /// The currently exposed order.
    pub fn get_vector(&self) -> (r: Vec<usize>)
        requires
            self.wf(),
        ensures
            r@ == self.spec_out(),
        decreases *self,
    {
        match &self.child {
            Some(c) => {
                return c.get_vector();
            },
            None => {},
        }
        let mut v: Vec<usize> = Vec::new();
        let mut i: usize = 0;
        while i < self.vector.len()
            invariant
                i <= self.vector@.len(),
                v@ == self.vector@.take(i as int),
            decreases self.vector@.len() - i,
        {
            proof {
                assert(self.vector@.take(i + 1) =~= self.vector@.take(i as int).push(
                    self.vector@[i as int],
                ));
            }
            v.push(self.vector[i]);
            i = i + 1;
        }
        proof {
            assert(v@ =~= self.vector@);
        }
        let a = v[self.x];
        let b = v[self.y];
        v.set(self.x, b);
        v.set(self.y, a);
        proof {
            assert(v@ =~= swapped(self.spec_vector(), self.spec_x(), self.spec_y()));
            assert(self.spec_child() is None);
        }
        v
    }
}

} // verus!
