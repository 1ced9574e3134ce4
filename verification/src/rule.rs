//! A candidate update rule: a boolean condition over the neighbourhood's
//! state vector, paired with the action applied to the centre cell when the
//! condition holds.
//!
//! For a cell in `dim` dimensions the neighbourhood vector has `3^dim`
//! entries, one per relative offset (the cell's own slot included), in the
//! mixed-radix offset order. Between trials the search driver advances the
//! rule: the action cycles `Activate -> Deactivate -> Flip` before the
//! condition structure moves on and the action rewinds to `Activate`.

use vstd::prelude::*;
use crate::delta::pow3;
use crate::delta::pow3_exec;
use crate::op_node::OpNode;
use crate::op_node::is_init_tree;
use crate::op_node::permute_values;
use crate::op_node::tree_next;

verus! {

#[derive(Clone, Copy, PartialEq, Eq, Structural, Debug)]
pub enum Action {
    Activate,
    Deactivate,
    Flip,
}

/// Positions left in the three-action cycle.
pub open spec fn action_rank(a: Action) -> nat {
    match a {
        Action::Activate => 2,
        Action::Deactivate => 1,
        Action::Flip => 0,
    }
}

#[derive(PartialEq, Debug)]
pub struct Rule {
    condition: OpNode,
    pub result: Action,
}

/// How one `generate_next` call transforms the rule: the action cycles
/// `Activate -> Deactivate -> Flip` over an unchanged condition; after `Flip`
/// the condition structure advances and the action and permuter rewind.
pub open spec fn rule_next(a: Rule, b: Rule) -> bool {
    &&& b.spec_condition().spec_start() == a.spec_condition().spec_start()
    &&& b.spec_condition().spec_end() == a.spec_condition().spec_end()
    &&& match a.spec_action() {
        Action::Activate => b.spec_action() == Action::Deactivate && b.spec_condition()
            == a.spec_condition(),
        Action::Deactivate => b.spec_action() == Action::Flip && b.spec_condition()
            == a.spec_condition(),
        Action::Flip => b.spec_action() == Action::Activate && tree_next(
            a.spec_condition(),
            b.spec_condition(),
        ) && b.spec_condition().spec_perm().is_init(b.spec_condition().spec_clusters()),
    }
}

impl Rule {
    pub closed spec fn spec_condition(self) -> OpNode {
        self.condition
    }

    pub closed spec fn spec_action(self) -> Action {
        self.result
    }

    pub open spec fn wf(self) -> bool {
        &&& self.spec_condition().wf()
        &&& self.spec_condition().spec_perm().wf()
    }

    /// How many (structure, action) configurations remain after this one.
    pub open spec fn rank(self) -> nat {
        3 * self.spec_condition().remaining() + action_rank(self.spec_action())
    }

    /// The first rule for a `dim_len`-dimensional space: the initial formula
    /// over all `3^dim_len` neighbourhood slots, with the `Activate` action.
    pub fn new(dim_len: usize) -> (r: Rule)
        requires
            pow3(dim_len as nat) <= usize::MAX,
        ensures
            r.wf(),
            is_init_tree(r.spec_condition(), 0, pow3(dim_len as nat) - 1),
            r.spec_condition().spec_perm().is_init(r.spec_condition().spec_clusters()),
            r.spec_action() == Action::Activate,
    {
        let n = pow3_exec(dim_len);
        proof {
            crate::delta::lemma_pow3_pos(dim_len as nat);
        }
        Rule { condition: OpNode::new(0, n - 1), result: Action::Activate }
    }

    pub fn condition(&self) -> (r: &OpNode)
        ensures
            *r == self.spec_condition(),
    {
        &self.condition
    }

    pub fn action(&self) -> (r: Action)
        ensures
            r == self.spec_action(),
    {
        self.result
    }

    pub fn has_next_eval_permutation(&self) -> (r: bool)
        requires
            self.spec_condition().spec_perm().wf(),
        ensures
            r == self.spec_condition().spec_perm().spec_has_next(),
    {
        self.condition.has_next_eval_permutation()
    }

    /// Advance the condition's symmetry permuter to the next representative
    /// variable ordering.
    pub fn generate_next_eval_permutation(&mut self)
        requires
            old(self).wf(),
            old(self).spec_condition().spec_perm().spec_has_next(),
        ensures
            final(self).wf(),
            final(self).spec_action() == old(self).spec_action(),
            crate::permuter::Permuter::next_rel(
                old(self).spec_condition().spec_perm(),
                final(self).spec_condition().spec_perm(),
            ),
            final(self).spec_condition().spec_perm().rank() < old(self).spec_condition().spec_perm().rank(),
            final(self).spec_condition().spec_op() == old(self).spec_condition().spec_op(),
            final(self).spec_condition().spec_split() == old(self).spec_condition().spec_split(),
            final(self).spec_condition().spec_left() == old(self).spec_condition().spec_left(),
            final(self).spec_condition().spec_right() == old(self).spec_condition().spec_right(),
            final(self).spec_condition().spec_start() == old(self).spec_condition().spec_start(),
            final(self).spec_condition().spec_end() == old(self).spec_condition().spec_end(),
            final(self).spec_condition().remaining() == old(self).spec_condition().remaining(),
            final(self).spec_condition().spec_has_next() == old(self).spec_condition().spec_has_next(),
    {
        self.condition.generate_next_eval_permutation();
    }

    /// True while the action has not cycled through or the condition has a
    /// next structure.
    pub fn has_next(&self) -> (r: bool)
        requires
            self.wf(),
        ensures
            r == (self.spec_action() != Action::Flip || self.spec_condition().spec_has_next()),
            r == (self.rank() > 0),
    {
        proof {
            if self.spec_condition().spec_has_next() {
                crate::op_node::lemma_has_next_remaining(self.spec_condition());
            } else {
                crate::op_node::lemma_exhausted_remaining(self.spec_condition());
            }
        }
        self.result != Action::Flip || self.condition.has_next()
    }

    /// Cycle the action `Activate -> Deactivate -> Flip`; once the cycle is
    /// complete, advance the condition structure and rewind the action.
    pub fn generate_next(&mut self)
        requires
            old(self).wf(),
            old(self).rank() > 0,
        ensures
            final(self).wf(),
            final(self).rank() + 1 == old(self).rank(),
            rule_next(*old(self), *final(self)),
    {
        if self.result == Action::Activate {
            self.result = Action::Deactivate;
            return;
        }
        if self.result == Action::Deactivate {
            self.result = Action::Flip;
            return;
        }
        self.result = Action::Activate;
        proof {
            if !self.spec_condition().spec_has_next() {
                crate::op_node::lemma_exhausted_remaining(self.spec_condition());
            }
        }
        self.condition.generate_next();
    }

    /// The condition's value on the neighbourhood vector `v`, reordered by
    /// the current symmetry permutation.
    pub fn evaluate(&self, v: &Vec<bool>) -> (r: bool)
        requires
            self.wf(),
            v@.len() > self.spec_condition().spec_end(),
        ensures
            r == self.spec_condition().spec_eval(
                permute_values(v@, self.spec_condition().spec_perm().spec_sequence()),
            ),
    {
        self.condition.evaluate(v, true)
    }
}

} // verus!
