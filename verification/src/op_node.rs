//! Binary operation tree: an exhaustive, non-redundant enumerator of boolean
//! formulas over a contiguous range of leaf variables.
//!
//! A leaf (`start_index == end_index`) reads its variable either as-is
//! (`Identity`) or negated (`Not`). An internal node joins a left child over
//! `[start_index, split_index]` and a right child over
//! `[split_index + 1, end_index]` with `And` or `Or`. `generate_next` visits
//! every split position, every combinator choice and every negation
//! assignment exactly once, least significant first: left child, then right
//! child, then `And -> Or`, then the split position.

use vstd::prelude::*;
use crate::permuter::Permuter;
use crate::permuter::rows_of;

verus! {

#[derive(Clone, Copy, PartialEq, Eq, Structural, Debug)]
pub enum Op {
    // internal-node combinators
    And,
    Or,
    // leaf states
    Identity,
    Not,
}

/// `values` reordered by the index sequence `s`: position `i` reads
/// `values[s[i]]`. An out-of-range position or index is left unpermuted
/// (reachable permuter states never produce one).
pub open spec fn permute_values(values: Seq<bool>, s: Seq<usize>) -> Seq<bool> {
    Seq::new(
        values.len(),
        |i: int|
            if i < s.len() && s[i] < values.len() {
                values[s[i] as int]
            } else {
                values[i]
            },
    )
}

#[derive(PartialEq, Debug)]
pub struct OpNode {
    operation: Op,
    left_child: Option<Box<OpNode>>,
    right_child: Option<Box<OpNode>>,
    pub eval_permutation: Permuter,
    // aligned to the left: the left child always covers [start_index, split_index]
    split_index: usize,
    start_index: usize,
    end_index: usize,
}

/// The initial (first-enumerated) tree over `[s, e]`: all leaves `Identity`,
/// all combinators `And`, every split as far left as possible.
pub open spec fn is_init_tree(t: OpNode, s: int, e: int) -> bool
    decreases e - s,
    when s <= e
{
    if s == e {
        &&& t.spec_start() == s
        &&& t.spec_end() == e
        &&& t.spec_op() == Op::Identity
        &&& t.spec_left() is None
        &&& t.spec_right() is None
    } else {
        &&& t.spec_start() == s
        &&& t.spec_end() == e
        &&& t.spec_op() == Op::And
        &&& t.spec_split() == s
        &&& t.spec_left() is Some
        &&& is_init_tree(*t.spec_left()->Some_0, s, s)
        &&& t.spec_right() is Some
        &&& is_init_tree(*t.spec_right()->Some_0, s + 1, e)
    }
}

/// How `generate_next` transforms the tree: advance the left child if it can
/// be; else advance the right child and reset the left; else turn `And` into
/// `Or` over fresh children; else move the split one to the right and restart
/// with `And` over fresh children.
pub open spec fn tree_next(a: OpNode, b: OpNode) -> bool
    decreases a,
{
    if a.spec_start() == a.spec_end() {
        &&& b.spec_start() == a.spec_start()
        &&& b.spec_end() == a.spec_end()
        &&& b.spec_op() == Op::Not
        &&& b.spec_left() is None
        &&& b.spec_right() is None
    } else {
        let l = *a.spec_left()->Some_0;
        let r = *a.spec_right()->Some_0;
        &&& b.spec_start() == a.spec_start()
        &&& b.spec_end() == a.spec_end()
        &&& if a.spec_left() is Some && l.spec_has_next() {
            &&& b.spec_op() == a.spec_op()
            &&& b.spec_split() == a.spec_split()
            &&& b.spec_right() == a.spec_right()
            &&& b.spec_left() is Some
            &&& tree_next(l, *b.spec_left()->Some_0)
        } else if a.spec_right() is Some && r.spec_has_next() {
            &&& b.spec_op() == a.spec_op()
            &&& b.spec_split() == a.spec_split()
            &&& b.spec_left() is Some
            &&& is_init_tree(*b.spec_left()->Some_0, a.spec_start(), a.spec_split())
            &&& b.spec_right() is Some
            &&& tree_next(r, *b.spec_right()->Some_0)
        } else if a.spec_op() == Op::And {
            &&& b.spec_op() == Op::Or
            &&& b.spec_split() == a.spec_split()
            &&& b.spec_left() is Some
            &&& is_init_tree(*b.spec_left()->Some_0, a.spec_start(), a.spec_split())
            &&& b.spec_right() is Some
            &&& is_init_tree(*b.spec_right()->Some_0, a.spec_split() + 1, a.spec_end())
        } else {
            &&& b.spec_op() == Op::And
            &&& b.spec_split() == a.spec_split() + 1
            &&& b.spec_left() is Some
            &&& is_init_tree(*b.spec_left()->Some_0, a.spec_start(), a.spec_split() + 1)
            &&& b.spec_right() is Some
            &&& is_init_tree(*b.spec_right()->Some_0, a.spec_split() + 2, a.spec_end())
        }
    }
}

/// How many distinct formulas exist over the leaf range `[s, e]`.
pub open spec fn total_of(s: int, e: int) -> nat
    decreases e - s, 1int, 0int,
    when s <= e
{
    if s == e {
        2
    } else {
        splits_total(s, s, e)
    }
}

/// How many distinct formulas over `[s, e]` have their root split at `j` or
/// further right.
pub open spec fn splits_total(s: int, j: int, e: int) -> nat
    decreases e - s, 0int, e - j,
    when s <= j && j <= e && s < e
{
    if j >= e {
        0
    } else {
        2 * total_of(s, j) * total_of(j + 1, e) + splits_total(s, j + 1, e)
    }
}

impl OpNode {
    pub closed spec fn spec_op(self) -> Op {
        self.operation
    }

    /// The root's symmetry permuter.
    pub closed spec fn spec_perm(self) -> Permuter {
        self.eval_permutation
    }

    pub closed spec fn spec_left(self) -> Option<Box<OpNode>> {
        self.left_child
    }

    pub closed spec fn spec_right(self) -> Option<Box<OpNode>> {
        self.right_child
    }

    pub closed spec fn spec_split(self) -> int {
        self.split_index as int
    }

    pub closed spec fn spec_start(self) -> int {
        self.start_index as int
    }

    pub closed spec fn spec_end(self) -> int {
        self.end_index as int
    }

    /// Structural well-formedness: leaves hold leaf states, internal nodes
    /// hold combinators and children that tile the range at the split.
    pub closed spec fn wf(self) -> bool
        decreases self,
    {
        if self.spec_start() == self.spec_end() {
            &&& (self.operation == Op::Identity || self.operation == Op::Not)
            &&& self.left_child is None
            &&& self.right_child is None
        } else {
            &&& self.spec_start() < self.spec_end()
            &&& (self.operation == Op::And || self.operation == Op::Or)
            &&& self.spec_start() <= self.spec_split() < self.spec_end()
            &&& self.left_child is Some
            &&& self.right_child is Some
            &&& {
                let l = *self.left_child->Some_0;
                let r = *self.right_child->Some_0;
                &&& l.wf()
                &&& r.wf()
                &&& l.spec_start() == self.spec_start()
                &&& l.spec_end() == self.spec_split()
                &&& r.spec_start() == self.spec_split() + 1
                &&& r.spec_end() == self.spec_end()
            }
        }
    }

    /// A further distinct formula is reachable: false exactly when the
    /// subtree is exhausted (a `Not` leaf, or an `Or` node with both children
    /// exhausted and the split already rightmost).
    pub open spec fn spec_has_next(self) -> bool
        decreases self,
    {
        if self.spec_start() == self.spec_end() {
            self.spec_op() == Op::Identity
        } else {
            ||| (self.spec_left() is Some && (*self.spec_left()->Some_0).spec_has_next())
            ||| (self.spec_right() is Some && (*self.spec_right()->Some_0).spec_has_next())
            ||| self.spec_op() == Op::And
            ||| self.spec_split() < self.spec_end() - 1
        }
    }

    /// The formula's value on an assignment vector: a leaf reads (or negates)
    /// its variable, an internal node conjoins or disjoins its children.
    pub open spec fn spec_eval(self, values: Seq<bool>) -> bool
        decreases self,
    {
        if self.spec_start() == self.spec_end() {
            if self.spec_op() == Op::Not {
                !values[self.spec_start()]
            } else {
                values[self.spec_start()]
            }
        } else {
            let le = match self.spec_left() {
                Some(l) => l.spec_eval(values),
                None => false,
            };
            let re = match self.spec_right() {
                Some(r) => r.spec_eval(values),
                None => false,
            };
            if self.spec_op() == Op::And {
                le && re
            } else {
                le || re
            }
        }
    }

    /// The cluster partition of the leaf range: leaves combined by the same
    /// combinator at the same level form one cluster (pushed last); clusters
    /// from differently-combined subtrees are kept apart.
    pub open spec fn spec_clusters(self) -> Seq<Seq<usize>>
        decreases self,
    {
        if self.spec_start() == self.spec_end() || !(self.spec_left() is Some)
            || !(self.spec_right() is Some) {
            seq![seq![self.spec_start() as usize]]
        } else {
            let l = *self.spec_left()->Some_0;
            let r = *self.spec_right()->Some_0;
            let lc = (match self.spec_left() {
                Some(n) => n.spec_clusters(),
                None => Seq::empty(),
            });
            let rc = (match self.spec_right() {
                Some(n) => n.spec_clusters(),
                None => Seq::empty(),
            });
            let l_merges = l.spec_op() == self.spec_op() || l.spec_start() == l.spec_end();
            let r_merges = r.spec_op() == self.spec_op() || r.spec_start() == r.spec_end();
            let l_rest = if l_merges {
                lc.drop_last()
            } else {
                lc
            };
            let r_rest = if r_merges {
                rc.drop_last()
            } else {
                rc
            };
            let merged = (if l_merges {
                lc.last()
            } else {
                Seq::empty()
            }) + (if r_merges {
                rc.last()
            } else {
                Seq::empty()
            });
            if merged.len() > 0 {
                (l_rest + r_rest).push(merged)
            } else {
                l_rest + r_rest
            }
        }
    }

    /// How many distinct formulas remain strictly after the current one.
    pub open spec fn remaining(self) -> nat
        decreases self,
    {
        if self.spec_start() == self.spec_end() {
            if self.spec_op() == Op::Not {
                0
            } else {
                1
            }
        } else if self.spec_start() <= self.spec_split() < self.spec_end() {
            let lr = match self.spec_left() {
                Some(l) => l.remaining(),
                None => 0nat,
            };
            let rr = match self.spec_right() {
                Some(r) => r.remaining(),
                None => 0nat,
            };
            lr + rr * total_of(self.spec_start(), self.spec_split()) + (
            if self.spec_op() == Op::And {
                total_of(self.spec_start(), self.spec_split()) * total_of(
                    self.spec_split() + 1,
                    self.spec_end(),
                )
            } else {
                0nat
            }) + splits_total(self.spec_start(), self.spec_split() + 1, self.spec_end())
        } else {
            0
        }
    }
}

/// There are at least two formulas over any leaf range.
pub proof fn lemma_total_pos(s: int, e: int)
    requires
        s <= e,
    ensures
        total_of(s, e) >= 2,
    decreases e - s, 1int,
{
    if s < e {
        lemma_total_pos(s, s);
        lemma_total_pos(s + 1, e);
        lemma_splits_pos(s, s, e);
    }
}

proof fn lemma_splits_pos(s: int, j: int, e: int)
    requires
        s <= j < e,
    ensures
        splits_total(s, j, e) >= 2 * total_of(s, j) * total_of(j + 1, e),
        splits_total(s, j, e) >= 2,
    decreases e - s, 0int,
{
    lemma_total_pos(s, j);
    lemma_total_pos(j + 1, e);
    let a = total_of(s, j);
    let b = total_of(j + 1, e);
    assert(2 * a * b >= 2) by (nonlinear_arith)
        requires
            a >= 2,
            b >= 2,
    ;
}

/// The initial tree over a range is well-formed.
pub proof fn lemma_init_wf(t: OpNode, s: int, e: int)
    requires
        s <= e,
        is_init_tree(t, s, e),
    ensures
        t.wf(),
    decreases e - s,
{
    if s < e {
        let l = *t.spec_left()->Some_0;
        let r = *t.spec_right()->Some_0;
        lemma_init_wf(l, s, s);
        lemma_init_wf(r, s + 1, e);
        // expose the children's initial shape for the well-formedness clauses
        assert(is_init_tree(l, s, s));
        assert(is_init_tree(r, s + 1, e));
        assert(t.wf());
    } else {
        assert(t.wf());
    }
}

/// The initial tree has every other formula still ahead of it.
pub proof fn lemma_init_remaining(t: OpNode, s: int, e: int)
    requires
        s <= e,
        is_init_tree(t, s, e),
    ensures
        t.remaining() == total_of(s, e) - 1,
    decreases e - s,
{
    if s < e {
        let l = *t.spec_left()->Some_0;
        let r = *t.spec_right()->Some_0;
        lemma_init_remaining(l, s, s);
        lemma_init_remaining(r, s + 1, e);
        lemma_total_pos(s + 1, e);
        let tr = total_of(s + 1, e);
        assert(total_of(s, s) == 2);
        assert(l.remaining() == 1);
        assert(r.remaining() == tr - 1);
        assert(total_of(s, e) == splits_total(s, s, e));
        assert(splits_total(s, s, e) == 2 * total_of(s, s) * total_of(s + 1, e) + splits_total(
            s,
            s + 1,
            e,
        ));
        assert(2 * 2 * tr == 4 * tr);
        assert(t.remaining() == 1 + (tr - 1) * 2 + 2 * tr + splits_total(s, s + 1, e));
    }
}

/// An exhausted tree has nothing ahead of it.
pub proof fn lemma_exhausted_remaining(t: OpNode)
    requires
        t.wf(),
        !t.spec_has_next(),
    ensures
        t.remaining() == 0,
    decreases t,
{
    if t.spec_start() < t.spec_end() {
        let l = *t.spec_left()->Some_0;
        let r = *t.spec_right()->Some_0;
        lemma_exhausted_remaining(l);
        lemma_exhausted_remaining(r);
        assert(t.spec_split() == t.spec_end() - 1);
        assert(splits_total(t.spec_start(), t.spec_split() + 1, t.spec_end()) == 0);
        assert(r.remaining() * total_of(t.spec_start(), t.spec_split()) == 0) by (nonlinear_arith)
            requires
                r.remaining() == 0,
        ;
    }
}

/// Every cluster of a well-formed tree is non-empty, and there is at least
/// one cluster.
pub proof fn lemma_clusters_nonempty(t: OpNode)
    requires
        t.wf(),
    ensures
        t.spec_clusters().len() >= 1,
        forall|k: int| 0 <= k < t.spec_clusters().len() ==> #[trigger] t.spec_clusters()[k].len()
            >= 1,
    decreases t,
{
    if t.spec_start() != t.spec_end() {
        let l = *t.spec_left()->Some_0;
        let r = *t.spec_right()->Some_0;
        lemma_clusters_nonempty(l);
        lemma_clusters_nonempty(r);
        let lc = l.spec_clusters();
        let rc = r.spec_clusters();
        let l_merges = l.spec_op() == t.spec_op() || l.spec_start() == l.spec_end();
        let r_merges = r.spec_op() == t.spec_op() || r.spec_start() == r.spec_end();
        let l_rest = if l_merges {
            lc.drop_last()
        } else {
            lc
        };
        let r_rest = if r_merges {
            rc.drop_last()
        } else {
            rc
        };
        let merged = (if l_merges {
            lc.last()
        } else {
            Seq::<usize>::empty()
        }) + (if r_merges {
            rc.last()
        } else {
            Seq::<usize>::empty()
        });
        assert(forall|k: int| 0 <= k < l_rest.len() ==> l_rest[k] == lc[k]);
        assert(forall|k: int| 0 <= k < r_rest.len() ==> r_rest[k] == rc[k]);
        if merged.len() > 0 {
            assert(t.spec_clusters() == (l_rest + r_rest).push(merged));
        } else {
            assert(!l_merges && !r_merges);
            assert(t.spec_clusters() == l_rest + r_rest);
            assert(lc.len() >= 1);
        }
    }
}

impl OpNode {
    /// The initial formula over the leaf range `[start_index, end_index]`:
    /// every leaf `Identity`, every combinator `And`, every split leftmost.
    pub fn new(start_index: usize, end_index: usize) -> (r: OpNode)
        requires
            start_index <= end_index,
        ensures
            r.wf(),
            is_init_tree(r, start_index as int, end_index as int),
            r.spec_perm().is_init(r.spec_clusters()),
            r.spec_perm().wf(),
        decreases end_index - start_index,
    {
        let mut node = if start_index == end_index {
            OpNode {
                operation: Op::Identity,
                left_child: None,
                right_child: None,
                eval_permutation: Permuter::new(Vec::new()),
                split_index: start_index,
                start_index,
                end_index,
            }
        } else {
            let left = OpNode::new(start_index, start_index);
            let right = OpNode::new(start_index + 1, end_index);
            OpNode {
                operation: Op::And,
                left_child: Some(Box::new(left)),
                right_child: Some(Box::new(right)),
                eval_permutation: Permuter::new(Vec::new()),
                split_index: start_index,
                start_index,
                end_index,
            }
        };
        proof {
            assert(node.wf());
        }
        node.rewind_permutation();
        proof {
            assert(is_init_tree(node, start_index as int, end_index as int));
        }
        node
    }

    /// Rewind the symmetry permuter to the identity over the current
    /// cluster partition.
    fn rewind_permutation(&mut self)
        requires
            old(self).wf(),
        ensures
            final(self).spec_op() == old(self).spec_op(),
            final(self).spec_left() == old(self).spec_left(),
            final(self).spec_right() == old(self).spec_right(),
            final(self).spec_split() == old(self).spec_split(),
            final(self).spec_start() == old(self).spec_start(),
            final(self).spec_end() == old(self).spec_end(),
            final(self).wf(),
            final(self).remaining() == old(self).remaining(),
            final(self).spec_has_next() == old(self).spec_has_next(),
            final(self).spec_clusters() == old(self).spec_clusters(),
            final(self).spec_perm().is_init(final(self).spec_clusters()),
            final(self).spec_perm().wf(),
    {
        proof {
            lemma_clusters_nonempty(*self);
        }
        let clusters = self.get_clustered_variables();
        proof {
            lemma_cluster_vec_nonempty(clusters@, *self);
        }
        self.eval_permutation.reset(clusters);
        proof {
            lemma_tree_fields_only(*old(self), *self);
        }
    }

    pub fn operation(&self) -> (r: Op)
        ensures
            r == self.spec_op(),
    {
        self.operation
    }

    pub fn left_child(&self) -> (r: &Option<Box<OpNode>>)
        ensures
            r == self.spec_left(),
    {
        &self.left_child
    }

    pub fn right_child(&self) -> (r: &Option<Box<OpNode>>)
        ensures
            r == self.spec_right(),
    {
        &self.right_child
    }

    pub fn start_index(&self) -> (r: usize)
        ensures
            r as int == self.spec_start(),
    {
        self.start_index
    }

    pub fn end_index(&self) -> (r: usize)
        ensures
            r as int == self.spec_end(),
    {
        self.end_index
    }

    /// A formula built from two subtrees; the split sits at the left child's
    /// last leaf.
    pub fn with_children(operation: Op, left: OpNode, right: OpNode) -> (r: OpNode)
        requires
            operation == Op::And || operation == Op::Or,
            left.wf(),
            right.wf(),
            right.spec_start() == left.spec_end() + 1,
        ensures
            r.wf(),
            r.spec_op() == operation,
            r.spec_left() == Some(Box::new(left)),
            r.spec_right() == Some(Box::new(right)),
            r.spec_start() == left.spec_start(),
            r.spec_end() == right.spec_end(),
            r.spec_perm().is_init(r.spec_clusters()),
            r.spec_perm().wf(),
    {
        let start_index = left.start_index;
        let split_index = left.end_index;
        let end_index = right.end_index;
        let mut node = OpNode {
            operation,
            left_child: Some(Box::new(left)),
            right_child: Some(Box::new(right)),
            eval_permutation: Permuter::new(Vec::new()),
            split_index,
            start_index,
            end_index,
        };
        proof {
            assert(node.wf());
        }
        node.rewind_permutation();
        node
    }

    /// The number of leaf variables of this subtree.
    pub fn len(&self) -> (r: usize)
        requires
            self.wf(),
            self.spec_end() - self.spec_start() < usize::MAX,
        ensures
            r as int == self.spec_end() - self.spec_start() + 1,
    {
        self.end_index - self.start_index + 1
    }

    /// True until the final structure (all-`Or`, rightmost split, all leaves
    /// negated) is reached.
    pub fn has_next(&self) -> (r: bool)
        requires
            self.wf(),
        ensures
            r == self.spec_has_next(),
        decreases *self,
    {
        if self.start_index == self.end_index {
            return self.operation == Op::Identity;
        }
        let left_has = match &self.left_child {
            Some(l) => l.has_next(),
            None => false,
        };
        if left_has {
            return true;
        }
        let right_has = match &self.right_child {
            Some(r) => r.has_next(),
            None => false,
        };
        right_has || self.operation == Op::And || self.split_index < self.end_index - 1
    }

    pub fn has_next_eval_permutation(&self) -> (r: bool)
        requires
            self.spec_perm().wf(),
        ensures
            r == self.spec_perm().spec_has_next(),
    {
        self.eval_permutation.has_next()
    }

    /// Advance the root's symmetry permuter (only ever called on the root).
    pub fn generate_next_eval_permutation(&mut self)
        requires
            old(self).spec_perm().wf(),
            old(self).spec_perm().spec_has_next(),
        ensures
            final(self).spec_perm().wf(),
            Permuter::next_rel(old(self).spec_perm(), final(self).spec_perm()),
            final(self).spec_perm().rank() < old(self).spec_perm().rank(),
            final(self).spec_op() == old(self).spec_op(),
            final(self).spec_left() == old(self).spec_left(),
            final(self).spec_right() == old(self).spec_right(),
            final(self).spec_split() == old(self).spec_split(),
            final(self).spec_start() == old(self).spec_start(),
            final(self).spec_end() == old(self).spec_end(),
            final(self).wf() == old(self).wf(),
            final(self).spec_clusters() == old(self).spec_clusters(),
            final(self).remaining() == old(self).remaining(),
            final(self).spec_has_next() == old(self).spec_has_next(),
    {
        self.eval_permutation.generate_next();
        proof {
            lemma_tree_fields_only(*old(self), *final(self));
        }
    }

    /// The cluster partition driving the symmetry permuter: leaves joined by
    /// the same combinator at the same level form one cluster.
    pub fn get_clustered_variables(&self) -> (r: Vec<Vec<usize>>)
        requires
            self.wf(),
        ensures
            rows_of(r@) == self.spec_clusters(),
        decreases *self,
    {
        if self.start_index == self.end_index {
            let mut c: Vec<usize> = Vec::new();
            c.push(self.start_index);
            let mut r: Vec<Vec<usize>> = Vec::new();
            r.push(c);
            proof {
                assert(rows_of(r@) =~~= self.spec_clusters());
            }
            return r;
        }
        let l = self.left_child.as_ref().unwrap();
        let r_node = self.right_child.as_ref().unwrap();
        let lc = l.get_clustered_variables();
        let rc = r_node.get_clustered_variables();
        proof {
            lemma_clusters_nonempty(**l);
            lemma_clusters_nonempty(**r_node);
        }
        let l_merges = l.operation == self.operation || l.start_index == l.end_index;
        let r_merges = r_node.operation == self.operation || r_node.start_index
            == r_node.end_index;
        let mut result: Vec<Vec<usize>> = Vec::new();
        let mut same: Vec<usize> = Vec::new();
        let l_keep = if l_merges {
            lc.len() - 1
        } else {
            lc.len()
        };
        let mut i: usize = 0;
        while i < l_keep
            invariant
                l_keep <= lc@.len(),
                i <= l_keep,
                result@.len() == i,
                forall|k: int| 0 <= k < i ==> #[trigger] result@[k]@ == lc@[k]@,
            decreases l_keep - i,
        {
            result.push(copy_row(&lc[i]));
            i = i + 1;
        }
        if l_merges {
            let last = &lc[lc.len() - 1];
            let mut j: usize = 0;
            while j < last.len()
                invariant
                    j <= last@.len(),
                    same@ == last@.take(j as int),
                decreases last@.len() - j,
            {
                proof {
                    assert(last@.take(j + 1) =~= last@.take(j as int).push(last@[j as int]));
                }
                same.push(last[j]);
                j = j + 1;
            }
            proof {
                assert(same@ =~= last@);
            }
        }
        let ghost l_done_result = result@;
        let ghost l_done_same = same@;
        let r_keep = if r_merges {
            rc.len() - 1
        } else {
            rc.len()
        };
        let mut i2: usize = 0;
        while i2 < r_keep
            invariant
                r_keep <= rc@.len(),
                i2 <= r_keep,
                result@.len() == l_done_result.len() + i2,
                forall|k: int| 0 <= k < l_done_result.len() ==> #[trigger] result@[k]@
                    == l_done_result[k]@,
                forall|k: int| 0 <= k < i2 ==> #[trigger] result@[l_done_result.len() + k]@
                    == rc@[k]@,
            decreases r_keep - i2,
        {
            result.push(copy_row(&rc[i2]));
            i2 = i2 + 1;
        }
        if r_merges {
            let last = &rc[rc.len() - 1];
            proof {
                assert(l_done_same + last@.take(0) =~= l_done_same);
            }
            let mut j2: usize = 0;
            while j2 < last.len()
                invariant
                    j2 <= last@.len(),
                    same@ == l_done_same + last@.take(j2 as int),
                decreases last@.len() - j2,
            {
                proof {
                    assert(last@.take(j2 + 1) =~= last@.take(j2 as int).push(last@[j2 as int]));
                    assert(l_done_same + last@.take(j2 + 1) =~= (l_done_same + last@.take(
                        j2 as int,
                    )).push(last@[j2 as int]));
                }
                same.push(last[j2]);
                j2 = j2 + 1;
            }
            proof {
                assert(same@ =~= l_done_same + last@);
            }
        }
        if same.len() > 0 {
            result.push(same);
        }
        proof {
            let lcs = (**l).spec_clusters();
            let rcs = (**r_node).spec_clusters();
            let l_rest = if l_merges {
                lcs.drop_last()
            } else {
                lcs
            };
            let r_rest = if r_merges {
                rcs.drop_last()
            } else {
                rcs
            };
            let merged = (if l_merges {
                lcs.last()
            } else {
                Seq::<usize>::empty()
            }) + (if r_merges {
                rcs.last()
            } else {
                Seq::<usize>::empty()
            });
            assert(lc@.len() == lcs.len());
            assert(rc@.len() == rcs.len());
            assert forall|k: int| 0 <= k < lc@.len() implies #[trigger] lc@[k]@ == lcs[k] by {
                assert(rows_of(lc@)[k] == lc@[k]@);
            }
            assert forall|k: int| 0 <= k < rc@.len() implies #[trigger] rc@[k]@ == rcs[k] by {
                assert(rows_of(rc@)[k] == rc@[k]@);
            }
            assert(l_done_same =~= (if l_merges {
                lcs.last()
            } else {
                Seq::<usize>::empty()
            }));
            assert(same@ =~= merged);
            assert(self.spec_clusters() == (if merged.len() > 0 {
                (l_rest + r_rest).push(merged)
            } else {
                l_rest + r_rest
            }));
            let expected = if merged.len() > 0 {
                (l_rest + r_rest).push(merged)
            } else {
                l_rest + r_rest
            };
            assert(result@.len() == expected.len());
            assert forall|k: int| 0 <= k < result@.len() implies rows_of(result@)[k]
                == expected[k] by {
                assert(rows_of(result@)[k] == result@[k]@);
                if k < l_rest.len() {
                    assert(result@[k]@ == l_done_result[k]@);
                    assert(l_done_result[k]@ == lc@[k]@);
                    assert(expected[k] == l_rest[k]);
                    assert(l_rest[k] == lcs[k]);
                } else if k < l_rest.len() + r_rest.len() {
                    let k2 = k - l_rest.len();
                    assert(l_done_result.len() == l_rest.len());
                    assert(result@[l_done_result.len() + k2]@ == rc@[k2]@);
                    assert(result@[k]@ == rc@[k - l_rest.len()]@);
                    assert(expected[k] == r_rest[k - l_rest.len()]);
                    assert(r_rest[k - l_rest.len()] == rcs[k - l_rest.len()]);
                } else {
                    assert(result@[k]@ == same@);
                    assert(expected[k] == merged);
                }
            }
            assert(rows_of(result@) =~= expected);
        }
        result
    }

    /// The formula's value on `values`, optionally reordering `values` by the
    /// root permuter's current sequence first.
    pub fn evaluate(&self, values: &Vec<bool>, apply_permutation_at_current_level: bool) -> (r:
        bool)
        requires
            self.wf(),
            values@.len() > self.spec_end(),
        ensures
            r == self.spec_eval(
                if apply_permutation_at_current_level {
                    permute_values(values@, self.spec_perm().spec_sequence())
                } else {
                    values@
                },
            ),
        decreases *self, (if apply_permutation_at_current_level {
            1int
        } else {
            0int
        }),
    {
        if apply_permutation_at_current_level {
            let seq = self.eval_permutation.get_sequence();
            let mut permuted: Vec<bool> = Vec::new();
            let mut i: usize = 0;
            while i < values.len()
                invariant
                    i <= values@.len(),
                    permuted@.len() == i,
                    seq@ == self.spec_perm().spec_sequence(),
                    forall|k: int| 0 <= k < i ==> permuted@[k] == permute_values(
                        values@,
                        seq@,
                    )[k],
                decreases values@.len() - i,
            {
                let idx = if i < seq.len() {
                    seq[i]
                } else {
                    i
                };
                let v = if idx < values.len() {
                    values[idx]
                } else {
                    values[i]
                };
                permuted.push(v);
                i = i + 1;
            }
            proof {
                assert(permuted@ =~= permute_values(values@, seq@));
            }
            return self.evaluate(&permuted, false);
        }
        if self.start_index == self.end_index {
            if self.operation == Op::Not {
                return !values[self.start_index];
            }
            return values[self.start_index];
        }
        let left_eval = self.left_child.as_ref().unwrap().evaluate(values, false);
        let right_eval = self.right_child.as_ref().unwrap().evaluate(values, false);
        if self.operation == Op::And {
            left_eval && right_eval
        } else {
            left_eval || right_eval
        }
    }

    /// Advance to the lexicographically next distinct formula and rewind the
    /// symmetry permuter over the new cluster partition. The caller checks
    /// `has_next` first.
    pub fn generate_next(&mut self)
        requires
            old(self).wf(),
            old(self).spec_has_next(),
        ensures
            final(self).wf(),
            tree_next(*old(self), *final(self)),
            final(self).remaining() + 1 == old(self).remaining(),
            final(self).spec_start() == old(self).spec_start(),
            final(self).spec_end() == old(self).spec_end(),
            final(self).spec_perm().is_init(final(self).spec_clusters()),
            final(self).spec_perm().wf(),
        decreases *old(self),
    {
        let ghost orig = *old(self);
        if self.start_index == self.end_index {
            self.operation = Op::Not;
            proof {
                assert(self.wf());
            }
            self.rewind_permutation();
            proof {
                assert(tree_next(orig, *self));
            }
            return;
        }
        let ghost l0 = *orig.spec_left()->Some_0;
        let ghost r0 = *orig.spec_right()->Some_0;
        let s = self.start_index;
        let e = self.end_index;
        let split = self.split_index;
        let left_has = match &self.left_child {
            Some(l) => l.has_next(),
            None => false,
        };
        if left_has {
            let mut l = self.left_child.take().unwrap();
            (&mut *l).generate_next();
            self.left_child = Some(l);
            proof {
                assert(self.wf());
            }
            self.rewind_permutation();
            proof {
                lemma_total_pos(s as int, split as int);
                assert(tree_next(orig, *self));
                let l1 = *self.spec_left()->Some_0;
                let tl = total_of(s as int, split as int);
                let tr = total_of(split + 1, e as int);
                assert(l1.remaining() + 1 == l0.remaining());
                assert(*self.spec_right()->Some_0 == r0);
                assert(orig.remaining() == l0.remaining() + r0.remaining() * tl + (
                if orig.spec_op() == Op::And {
                    tl * tr
                } else {
                    0nat
                }) + splits_total(s as int, split + 1, e as int));
                assert(self.remaining() == l1.remaining() + r0.remaining() * tl + (
                if self.spec_op() == Op::And {
                    tl * tr
                } else {
                    0nat
                }) + splits_total(s as int, split + 1, e as int));
            }
            return;
        }
        let right_has = match &self.right_child {
            Some(r) => r.has_next(),
            None => false,
        };
        if right_has {
            let mut r = self.right_child.take().unwrap();
            (&mut *r).generate_next();
            self.right_child = Some(r);
            self.left_child = Some(Box::new(OpNode::new(s, split)));
            proof {
                lemma_init_wf(*self.spec_left()->Some_0, s as int, split as int);
                assert(self.wf());
            }
            self.rewind_permutation();
            proof {
                assert(tree_next(orig, *self));
                lemma_exhausted_remaining(l0);
                lemma_init_remaining(*self.spec_left()->Some_0, s as int, split as int);
                lemma_total_pos(s as int, split as int);
                let l1 = *self.spec_left()->Some_0;
                let r1 = *self.spec_right()->Some_0;
                let tl = total_of(s as int, split as int);
                let tr = total_of(split + 1, e as int);
                let rr0 = r0.remaining();
                let rr1 = r1.remaining();
                assert(rr1 + 1 == rr0);
                assert(orig.remaining() == 0 + rr0 * tl + (
                if orig.spec_op() == Op::And {
                    tl * tr
                } else {
                    0nat
                }) + splits_total(s as int, split + 1, e as int));
                assert(self.remaining() == (tl - 1) + rr1 * tl + (
                if self.spec_op() == Op::And {
                    tl * tr
                } else {
                    0nat
                }) + splits_total(s as int, split + 1, e as int));
                assert((rr0 - 1) * tl == rr0 * tl - tl) by (nonlinear_arith);
            }
            return;
        }
        if self.operation == Op::And {
            self.operation = Op::Or;
            self.left_child = Some(Box::new(OpNode::new(s, split)));
            self.right_child = Some(Box::new(OpNode::new(split + 1, e)));
            proof {
                lemma_init_wf(*self.spec_left()->Some_0, s as int, split as int);
                lemma_init_wf(*self.spec_right()->Some_0, split + 1, e as int);
                assert(self.wf());
            }
            self.rewind_permutation();
            proof {
                assert(tree_next(orig, *self));
                lemma_exhausted_remaining(l0);
                lemma_exhausted_remaining(r0);
                lemma_init_remaining(*self.spec_left()->Some_0, s as int, split as int);
                lemma_init_remaining(*self.spec_right()->Some_0, split + 1, e as int);
                lemma_total_pos(s as int, split as int);
                lemma_total_pos(split + 1, e as int);
                let tl = total_of(s as int, split as int);
                let tr = total_of(split + 1, e as int);
                assert(orig.remaining() == 0 + 0 * tl + tl * tr + splits_total(
                    s as int,
                    split + 1,
                    e as int,
                ));
                assert(self.remaining() == (tl - 1) + (tr - 1) * tl + 0 + splits_total(
                    s as int,
                    split + 1,
                    e as int,
                ));
                assert(0 * tl == 0) by (nonlinear_arith);
                assert((tr - 1) * tl == tr * tl - tl) by (nonlinear_arith);
                assert(tl * tr == tr * tl) by (nonlinear_arith);
            }
            return;
        }
        // combinator is Or with both children exhausted: move the split
        self.split_index = split + 1;
        self.operation = Op::And;
        self.left_child = Some(Box::new(OpNode::new(s, split + 1)));
        self.right_child = Some(Box::new(OpNode::new(split + 2, e)));
        proof {
            lemma_init_wf(*self.spec_left()->Some_0, s as int, split + 1);
            lemma_init_wf(*self.spec_right()->Some_0, split + 2, e as int);
            assert(self.wf());
        }
        self.rewind_permutation();
        proof {
            assert(tree_next(orig, *self));
            lemma_exhausted_remaining(l0);
            lemma_exhausted_remaining(r0);
            lemma_init_remaining(*self.spec_left()->Some_0, s as int, split + 1);
            lemma_init_remaining(*self.spec_right()->Some_0, split + 2, e as int);
            lemma_total_pos(s as int, split + 1);
            lemma_total_pos(split + 2, e as int);
            let tl = total_of(s as int, split + 1);
            let tr = total_of(split + 2, e as int);
            assert(orig.remaining() == 0 + 0 * total_of(s as int, split as int) + 0
                + splits_total(s as int, split + 1, e as int));
            assert(0 * total_of(s as int, split as int) == 0) by (nonlinear_arith);
            assert(splits_total(s as int, split + 1, e as int) == 2 * tl * tr + splits_total(
                s as int,
                split + 2,
                e as int,
            ));
            assert(self.remaining() == (tl - 1) + (tr - 1) * tl + tl * tr + splits_total(
                s as int,
                split + 2,
                e as int,
            ));
            assert((tr - 1) * tl == tr * tl - tl) by (nonlinear_arith);
            assert(tl * tr == tr * tl) by (nonlinear_arith);
            assert(2 * tl * tr == tl * tr + tr * tl) by (nonlinear_arith);
        }
    }
}

/// Two nodes that differ at most in their root permuter agree on every
/// tree-structural spec function.
proof fn lemma_tree_fields_only(a: OpNode, b: OpNode)
    requires
        a.spec_op() == b.spec_op(),
        a.spec_left() == b.spec_left(),
        a.spec_right() == b.spec_right(),
        a.spec_split() == b.spec_split(),
        a.spec_start() == b.spec_start(),
        a.spec_end() == b.spec_end(),
    ensures
        a.wf() == b.wf(),
        a.spec_clusters() == b.spec_clusters(),
        a.remaining() == b.remaining(),
        a.spec_has_next() == b.spec_has_next(),
{
}

/// A tree with a next structure has a positive remainder.
pub proof fn lemma_has_next_remaining(t: OpNode)
    requires
        t.wf(),
        t.spec_has_next(),
    ensures
        t.remaining() >= 1,
    decreases t,
{
    if t.spec_start() < t.spec_end() {
        let l = *t.spec_left()->Some_0;
        let r = *t.spec_right()->Some_0;
        let s = t.spec_start();
        let e = t.spec_end();
        let sp = t.spec_split();
        lemma_total_pos(s, sp);
        lemma_total_pos(sp + 1, e);
        let tl = total_of(s, sp);
        let tr = total_of(sp + 1, e);
        if l.spec_has_next() {
            lemma_has_next_remaining(l);
        } else if r.spec_has_next() {
            lemma_has_next_remaining(r);
            assert(r.remaining() * tl >= tl) by (nonlinear_arith)
                requires
                    r.remaining() >= 1,
                    tl >= 2,
            ;
        } else if t.spec_op() == Op::And {
            assert(tl * tr >= 4) by (nonlinear_arith)
                requires
                    tl >= 2,
                    tr >= 2,
            ;
        } else {
            lemma_splits_pos(s, sp + 1, e);
        }
    }
}

/// Evaluation is a pure function of the configuration and the assignment:
/// any two results that `evaluate` can return for the same tree, the same
/// values and the same permutation flag are equal.
pub proof fn lemma_evaluate_deterministic(
    node: &OpNode,
    values: &Vec<bool>,
    apply_permutation_at_current_level: bool,
    r1: bool,
    r2: bool,
)
    requires
        call_ensures(OpNode::evaluate, (node, values, apply_permutation_at_current_level), r1),
        call_ensures(OpNode::evaluate, (node, values, apply_permutation_at_current_level), r2),
    ensures
        r1 == r2,
{
}

/// The split sum only grows towards the left: the term for any one split
/// position is already contained in the sum from an earlier position on.
proof fn lemma_splits_lower(s: int, j: int, p: int, e: int)
    requires
        s <= j <= p < e,
    ensures
        splits_total(s, j, e) >= 2 * total_of(s, p) * total_of(p + 1, e) + splits_total(
            s,
            p + 1,
            e,
        ),
    decreases p - j,
{
    if j < p {
        lemma_splits_lower(s, j + 1, p, e);
    }
}

/// `total_of` counts the whole space: every well-formed formula over the
/// range, whatever its state, still has its remainder strictly below the
/// total. Together with `generate_next`'s exact decrement and
/// `lemma_exhausted_remaining`, the enumeration from the initial formula
/// (whose remainder is `total_of - 1`) takes exactly `total_of` distinct,
/// never-repeating states.
pub proof fn lemma_remaining_lt_total(t: OpNode)
    requires
        t.wf(),
    ensures
        t.remaining() < total_of(t.spec_start(), t.spec_end()),
    decreases t,
{
    let s = t.spec_start();
    let e = t.spec_end();
    if s == e {
    } else {
        let l = *t.spec_left()->Some_0;
        let r = *t.spec_right()->Some_0;
        let p = t.spec_split();
        lemma_remaining_lt_total(l);
        lemma_remaining_lt_total(r);
        lemma_total_pos(s, p);
        lemma_total_pos(p + 1, e);
        let tl = total_of(s, p);
        let tr = total_of(p + 1, e);
        let opterm: nat = if t.spec_op() == Op::And {
            tl * tr
        } else {
            0nat
        };
        assert(t.remaining() == l.remaining() + r.remaining() * tl + opterm + splits_total(
            s,
            p + 1,
            e,
        ));
        assert(l.remaining() + r.remaining() * tl + opterm < 2 * tl * tr) by (nonlinear_arith)
            requires
                l.remaining() < tl,
                r.remaining() < tr,
                opterm <= tl * tr,
                tl >= 2,
                tr >= 2,
        ;
        lemma_splits_lower(s, s, p, e);
        assert(total_of(s, e) == splits_total(s, s, e));
    }
}

/// Structural equality of two formulas: same combinators, same splits, same
/// leaf states (the attached permuters are not compared).
pub open spec fn tree_eq(a: OpNode, b: OpNode) -> bool
    decreases a,
{
    &&& a.spec_op() == b.spec_op()
    &&& a.spec_start() == b.spec_start()
    &&& a.spec_end() == b.spec_end()
    &&& (a.spec_start() < a.spec_end() ==> a.spec_split() == b.spec_split())
    &&& (a.spec_left() is Some <==> b.spec_left() is Some)
    &&& (a.spec_right() is Some <==> b.spec_right() is Some)
    &&& (a.spec_left() is Some && b.spec_left() is Some ==> tree_eq(
        *a.spec_left()->Some_0,
        *b.spec_left()->Some_0,
    ))
    &&& (a.spec_right() is Some && b.spec_right() is Some ==> tree_eq(
        *a.spec_right()->Some_0,
        *b.spec_right()->Some_0,
    ))
}

/// The split sum shrinks as its start moves right.
proof fn lemma_splits_mono(s: int, j: int, k: int, e: int)
    requires
        s <= j <= k <= e,
        s < e,
    ensures
        splits_total(s, j, e) >= splits_total(s, k, e),
    decreases k - j,
{
    if j < k {
        lemma_splits_mono(s, j + 1, k, e);
    }
}

/// An internal node's remainder sits strictly inside the window of its split.
proof fn lemma_remaining_window(t: OpNode)
    requires
        t.wf(),
        t.spec_start() < t.spec_end(),
    ensures
        splits_total(t.spec_start(), t.spec_split() + 1, t.spec_end()) <= t.remaining(),
        t.remaining() < splits_total(t.spec_start(), t.spec_split(), t.spec_end()),
{
    let s = t.spec_start();
    let e = t.spec_end();
    let p = t.spec_split();
    let l = *t.spec_left()->Some_0;
    let r = *t.spec_right()->Some_0;
    lemma_remaining_lt_total(l);
    lemma_remaining_lt_total(r);
    lemma_total_pos(s, p);
    lemma_total_pos(p + 1, e);
    let tl = total_of(s, p);
    let tr = total_of(p + 1, e);
    let opterm: nat = if t.spec_op() == Op::And {
        tl * tr
    } else {
        0nat
    };
    assert(t.remaining() == l.remaining() + r.remaining() * tl + opterm + splits_total(
        s,
        p + 1,
        e,
    ));
    assert(l.remaining() + r.remaining() * tl + opterm < 2 * tl * tr) by (nonlinear_arith)
        requires
            l.remaining() < tl,
            r.remaining() < tr,
            opterm <= tl * tr,
            tl >= 2,
            tr >= 2,
    ;
    assert(r.remaining() * tl + opterm >= 0) by (nonlinear_arith);
    assert(splits_total(s, p, e) == 2 * tl * tr + splits_total(s, p + 1, e));
}

/// The remainder is a faithful rank: two well-formed formulas over the same
/// leaf range with equal remainders are structurally the same formula. With
/// `lemma_remaining_lt_total` and `generate_next`'s exact decrement, the
/// enumeration therefore visits every distinct formula over the range exactly
/// once.
pub proof fn lemma_remaining_injective(a: OpNode, b: OpNode)
    requires
        a.wf(),
        b.wf(),
        a.spec_start() == b.spec_start(),
        a.spec_end() == b.spec_end(),
        a.remaining() == b.remaining(),
    ensures
        tree_eq(a, b),
    decreases a,
{
    let s = a.spec_start();
    let e = a.spec_end();
    if s == e {
        // a leaf's remainder is its negation bit
        assert(a.spec_op() == b.spec_op());
        assert(tree_eq(a, b));
    } else {
        let la = *a.spec_left()->Some_0;
        let ra = *a.spec_right()->Some_0;
        let lb = *b.spec_left()->Some_0;
        let rb = *b.spec_right()->Some_0;
        let pa = a.spec_split();
        let pb = b.spec_split();
        lemma_remaining_window(a);
        lemma_remaining_window(b);
        // equal remainders force equal splits: the windows are disjoint
        if pa < pb {
            lemma_splits_mono(s, pa + 1, pb, e);
            assert(false);
        }
        if pb < pa {
            lemma_splits_mono(s, pb + 1, pa, e);
            assert(false);
        }
        let p = pa;
        lemma_remaining_lt_total(la);
        lemma_remaining_lt_total(ra);
        lemma_remaining_lt_total(lb);
        lemma_remaining_lt_total(rb);
        lemma_total_pos(s, p);
        lemma_total_pos(p + 1, e);
        let tl = total_of(s, p);
        let tr = total_of(p + 1, e);
        let op_a: nat = if a.spec_op() == Op::And {
            1nat
        } else {
            0nat
        };
        let op_b: nat = if b.spec_op() == Op::And {
            1nat
        } else {
            0nat
        };
        assert(a.remaining() == la.remaining() + (ra.remaining() + tr * op_a) * tl + splits_total(
            s,
            p + 1,
            e,
        )) by (nonlinear_arith)
            requires
                a.remaining() == la.remaining() + ra.remaining() * tl + (if a.spec_op()
                    == Op::And {
                    tl * tr
                } else {
                    0nat
                }) + splits_total(s, p + 1, e),
                op_a == (if a.spec_op() == Op::And {
                    1nat
                } else {
                    0nat
                }),
        ;
        assert(b.remaining() == lb.remaining() + (rb.remaining() + tr * op_b) * tl + splits_total(
            s,
            p + 1,
            e,
        )) by (nonlinear_arith)
            requires
                b.remaining() == lb.remaining() + rb.remaining() * tl + (if b.spec_op()
                    == Op::And {
                    tl * tr
                } else {
                    0nat
                }) + splits_total(s, p + 1, e),
                op_b == (if b.spec_op() == Op::And {
                    1nat
                } else {
                    0nat
                }),
        ;
        let ua = ra.remaining() + tr * op_a;
        let ub = rb.remaining() + tr * op_b;
        assert(la.remaining() == lb.remaining() && ua == ub) by (nonlinear_arith)
            requires
                la.remaining() + ua * tl == lb.remaining() + ub * tl,
                la.remaining() < tl,
                lb.remaining() < tl,
                0 <= ua,
                0 <= ub,
        ;
        assert(ra.remaining() == rb.remaining() && op_a == op_b) by (nonlinear_arith)
            requires
                ra.remaining() + tr * op_a == rb.remaining() + tr * op_b,
                ra.remaining() < tr,
                rb.remaining() < tr,
                op_a <= 1,
                op_b <= 1,
        ;
        lemma_remaining_injective(la, lb);
        lemma_remaining_injective(ra, rb);
        assert(a.spec_op() == b.spec_op());
        assert(tree_eq(a, b));
    }
}

/// The successor relation preserves well-formedness and the leaf range, and
/// lowers the remainder by exactly one (the relation-level counterpart of
/// `generate_next`'s contract).
pub proof fn lemma_tree_next_props(a: OpNode, b: OpNode)
    requires
        a.wf(),
        a.spec_has_next(),
        tree_next(a, b),
    ensures
        b.wf(),
        b.spec_start() == a.spec_start(),
        b.spec_end() == a.spec_end(),
        b.remaining() + 1 == a.remaining(),
    decreases a,
{
    let s = a.spec_start();
    let e = a.spec_end();
    if s == e {
        assert(b.wf());
    } else {
        let la = *a.spec_left()->Some_0;
        let ra = *a.spec_right()->Some_0;
        let p = a.spec_split();
        lemma_total_pos(s, p);
        lemma_total_pos(p + 1, e);
        let tl = total_of(s, p);
        let tr = total_of(p + 1, e);
        if la.spec_has_next() {
            let lb = *b.spec_left()->Some_0;
            lemma_tree_next_props(la, lb);
            assert(b.wf());
            assert(a.remaining() == la.remaining() + ra.remaining() * tl + (if a.spec_op()
                == Op::And {
                tl * tr
            } else {
                0nat
            }) + splits_total(s, p + 1, e));
            assert(b.remaining() == lb.remaining() + ra.remaining() * tl + (if a.spec_op()
                == Op::And {
                tl * tr
            } else {
                0nat
            }) + splits_total(s, p + 1, e));
        } else if ra.spec_has_next() {
            let lb = *b.spec_left()->Some_0;
            let rb = *b.spec_right()->Some_0;
            lemma_exhausted_remaining(la);
            lemma_tree_next_props(ra, rb);
            lemma_init_wf(lb, s, p);
            lemma_init_remaining(lb, s, p);
            assert(b.wf());
            let rr0 = ra.remaining();
            let rr1 = rb.remaining();
            assert(a.remaining() == 0 + rr0 * tl + (if a.spec_op() == Op::And {
                tl * tr
            } else {
                0nat
            }) + splits_total(s, p + 1, e));
            assert(b.remaining() == (tl - 1) + rr1 * tl + (if a.spec_op() == Op::And {
                tl * tr
            } else {
                0nat
            }) + splits_total(s, p + 1, e));
            assert((rr0 - 1) * tl == rr0 * tl - tl) by (nonlinear_arith);
        } else if a.spec_op() == Op::And {
            let lb = *b.spec_left()->Some_0;
            let rb = *b.spec_right()->Some_0;
            lemma_exhausted_remaining(la);
            lemma_exhausted_remaining(ra);
            lemma_init_wf(lb, s, p);
            lemma_init_wf(rb, p + 1, e);
            lemma_init_remaining(lb, s, p);
            lemma_init_remaining(rb, p + 1, e);
            assert(b.wf());
            assert(a.remaining() == 0 + 0 * tl + tl * tr + splits_total(s, p + 1, e));
            assert(b.remaining() == (tl - 1) + (tr - 1) * tl + 0 + splits_total(s, p + 1, e));
            assert(0 * tl == 0) by (nonlinear_arith);
            assert((tr - 1) * tl == tr * tl - tl) by (nonlinear_arith);
            assert(tl * tr == tr * tl) by (nonlinear_arith);
        } else {
            let lb = *b.spec_left()->Some_0;
            let rb = *b.spec_right()->Some_0;
            lemma_exhausted_remaining(la);
            lemma_exhausted_remaining(ra);
            assert(p + 1 < e);
            lemma_total_pos(s, p + 1);
            lemma_total_pos(p + 2, e);
            lemma_init_wf(lb, s, p + 1);
            lemma_init_wf(rb, p + 2, e);
            lemma_init_remaining(lb, s, p + 1);
            lemma_init_remaining(rb, p + 2, e);
            assert(b.wf());
            let tl2 = total_of(s, p + 1);
            let tr2 = total_of(p + 2, e);
            assert(a.remaining() == 0 + 0 * tl + 0 + splits_total(s, p + 1, e));
            assert(0 * tl == 0) by (nonlinear_arith);
            assert(splits_total(s, p + 1, e) == 2 * tl2 * tr2 + splits_total(s, p + 2, e));
            assert(b.remaining() == (tl2 - 1) + (tr2 - 1) * tl2 + tl2 * tr2 + splits_total(
                s,
                p + 2,
                e,
            ));
            assert((tr2 - 1) * tl2 == tr2 * tl2 - tl2) by (nonlinear_arith);
            assert(tl2 * tr2 == tr2 * tl2) by (nonlinear_arith);
            assert(2 * tl2 * tr2 == tl2 * tr2 + tr2 * tl2) by (nonlinear_arith);
        }
    }
}

/// A complete enumeration walk over `[s, e]`: it starts at the initial
/// formula, takes one successor step at a time while one remains, and ends
/// exhausted.
pub open spec fn formula_walk(s: int, e: int, tr: Seq<OpNode>) -> bool {
    &&& tr.len() >= 1
    &&& is_init_tree(tr[0], s, e)
    &&& (forall|i: int|
        #![trigger tr[i]]
        0 <= i < tr.len() - 1 ==> tr[i].spec_has_next() && tree_next(tr[i], tr[i + 1]))
    &&& !tr.last().spec_has_next()
}

/// Along a walk the remainder counts down one by one from `total_of - 1`.
proof fn lemma_walk_index(s: int, e: int, tr: Seq<OpNode>, i: int)
    requires
        s <= e,
        tr.len() >= 1,
        is_init_tree(tr[0], s, e),
        forall|j: int|
            #![trigger tr[j]]
            0 <= j < tr.len() - 1 ==> tr[j].spec_has_next() && tree_next(tr[j], tr[j + 1]),
        0 <= i < tr.len(),
    ensures
        tr[i].wf(),
        tr[i].spec_start() == s,
        tr[i].spec_end() == e,
        tr[i].remaining() == total_of(s, e) - 1 - i,
    decreases i,
{
    if i == 0 {
        lemma_init_wf(tr[0], s, e);
        lemma_init_remaining(tr[0], s, e);
    } else {
        lemma_walk_index(s, e, tr, i - 1);
        let j = i - 1;
        assert(tr[j].spec_has_next() && tree_next(tr[j], tr[j + 1]));
        assert(tr[j + 1] == tr[i]);
        lemma_tree_next_props(tr[j], tr[i]);
    }
}

/// Exhaustiveness of the formula enumeration: a complete walk over `[s, e]`
/// has exactly `total_of(s, e)` entries, and every well-formed formula over
/// the range appears among them (structurally; and, by
/// `lemma_remaining_injective`, no formula appears twice).
pub proof fn lemma_walk_covers(s: int, e: int, tr: Seq<OpNode>, t: OpNode)
    requires
        s <= e,
        formula_walk(s, e, tr),
        t.wf(),
        t.spec_start() == s,
        t.spec_end() == e,
    ensures
        tr.len() == total_of(s, e),
        exists|i: int| 0 <= i < tr.len() && tree_eq(#[trigger] tr[i], t),
{
    let n = tr.len() as int;
    lemma_walk_index(s, e, tr, n - 1);
    lemma_exhausted_remaining(tr[n - 1]);
    lemma_total_pos(s, e);
    assert(n == total_of(s, e));
    lemma_remaining_lt_total(t);
    let i = total_of(s, e) - 1 - t.remaining();
    lemma_walk_index(s, e, tr, i);
    lemma_remaining_injective(tr[i], t);
    assert(0 <= i < tr.len() && tree_eq(tr[i], t));
}

/// A cluster vector computed from a well-formed tree has no empty row.
proof fn lemma_cluster_vec_nonempty(v: Seq<Vec<usize>>, t: OpNode)
    requires
        rows_of(v) == t.spec_clusters(),
        t.wf(),
    ensures
        forall|k: int| 0 <= k < v.len() ==> #[trigger] v[k]@.len() >= 1,
{
    lemma_clusters_nonempty(t);
    assert forall|k: int| 0 <= k < v.len() implies #[trigger] v[k]@.len() >= 1 by {
        assert(rows_of(v)[k] == v[k]@);
        assert(t.spec_clusters()[k].len() >= 1);
    }
}

/// A copy of one cluster row.
fn copy_row(v: &Vec<usize>) -> (r: Vec<usize>)
    ensures
        r@ == v@,
{
    let mut r: Vec<usize> = Vec::new();
    let mut i: usize = 0;
    while i < v.len()
        invariant
            i <= v@.len(),
            r@ == v@.take(i as int),
        decreases v@.len() - i,
    {
        proof {
            assert(v@.take(i + 1) =~= v@.take(i as int).push(v@[i as int]));
        }
        r.push(v[i]);
        i = i + 1;
    }
    proof {
        assert(v@.take(v@.len() as int) =~= v@);
    }
    r
}

} // verus!
