//! The search driver: for each dimension in the configured range it
//! enumerates every rule structure, action and symmetry permutation, runs a
//! fresh simulation per candidate, and compares the active-cell-count
//! trajectory against the target sequence.
//!
//! A trial starts from one active cell at the origin. Before each iteration
//! the active-cell count is checked against the next target element; a
//! mismatch aborts the trial, a full march through the target reports
//! success. Exhausting the whole space is the normal negative outcome.

use vstd::prelude::*;
use crate::cell::Cell;
use crate::cell::CellModel;
use crate::cell::CellValue;
use crate::cell::as_ints;
use crate::delta::DeltaCoordinate;
use crate::delta::cursor_index;
use crate::delta::lemma_cursor_index_bounds;
use crate::delta::lemma_cursor_index_max;
use crate::delta::lemma_delta_of_cursor_index;
use crate::delta::lemma_pow3_mono;
use crate::delta::pow3;
use crate::op_node::is_init_tree;
use crate::op_node::permute_values;
use crate::permuter::Permuter;
use crate::rule::Action;
use crate::rule::Rule;
use crate::rule::rule_next;
use crate::space::Space;
use crate::space::actives_abs_le;
use crate::space::actives_in_range;
use crate::space::cell_at;
use crate::space::coords_abs_le;
use crate::space::count_value;
use crate::space::expand_at;
use crate::space::has_coord;
use crate::space::lemma_expand_bounds;
use crate::space::nbr_coord;
use crate::space::push_transition;
use crate::space::uniform_dim;
use crate::space::upsert;

verus! {

/// The state a rule's action writes into a cell that currently holds `v`.
pub open spec fn act_value(a: Action, v: CellValue) -> CellValue {
    match a {
        Action::Activate => CellValue::Active,
        Action::Deactivate => CellValue::Inactive,
        Action::Flip => if v is Active {
            CellValue::Inactive
        } else {
            CellValue::Active
        },
    }
}

/// The neighbourhood state vector of coordinate `c`: one boolean per offset,
/// true exactly where an active cell sits.
pub open spec fn neigh_vals(s: Seq<CellModel>, c: Seq<int>, dim: nat) -> Seq<bool> {
    Seq::new(
        pow3(dim),
        |k: int| has_coord(s, nbr_coord(c, k)) && cell_at(s, nbr_coord(c, k)).value is Active,
    )
}

/// Whether the rule's condition holds at coordinate `c` in lattice state `s`.
pub open spec fn rule_applies(rule: Rule, c: Seq<int>, s: Seq<CellModel>, dim: nat) -> bool {
    rule.spec_condition().spec_eval(
        permute_values(neigh_vals(s, c, dim), rule.spec_condition().spec_perm().spec_sequence()),
    )
}

/// The cell that `apply_rule_if_applicable` leaves behind: the same
/// coordinate, the action's result where the condition held, and a spent
/// neighbour cursor.
pub open spec fn applied_cell(m: CellModel, rule: Rule, s: Seq<CellModel>, dim: nat) -> CellModel {
    CellModel {
        coords: m.coords,
        value: if rule_applies(rule, m.coords, s, dim) {
            act_value(rule.spec_action(), m.value)
        } else {
            m.value
        },
        delta: Seq::new(m.coords.len(), |j: int| DeltaCoordinate::Negative),
    }
}

/// Apply the rule to each snapshot cell from position `i` on, pushing each
/// result back into the (sequentially updated) lattice.
pub open spec fn apply_from(
    s: Seq<CellModel>,
    snap: Seq<CellModel>,
    rule: Rule,
    dim: nat,
    i: int,
) -> Seq<CellModel>
    decreases snap.len() - i,
    when 0 <= i <= snap.len()
{
    if i >= snap.len() {
        s
    } else {
        let c2 = applied_cell(snap[i], rule, s, dim);
        apply_from(push_transition(s, c2), snap, rule, dim, i + 1)
    }
}

/// One simulation iteration: expand the frontier, then re-evaluate and
/// conditionally apply the rule to every cell of the expanded snapshot.
pub open spec fn step_space(s: Seq<CellModel>, rule: Rule, dim: nat) -> Seq<CellModel> {
    let s1 = expand_at(s, 0, s.len() as int);
    apply_from(s1, s1, rule, dim, 0)
}

/// The seed: an active cell at the origin with a rewound cursor.
pub open spec fn seed_cell(dim: nat) -> CellModel {
    CellModel {
        coords: Seq::new(dim, |j: int| 0),
        value: CellValue::Active,
        delta: Seq::new(dim, |j: int| DeltaCoordinate::SameCoordinate),
    }
}

/// The lattice a trial starts from: the seed pushed into an empty lattice.
pub open spec fn init_space(dim: nat) -> Seq<CellModel> {
    push_transition(Seq::empty(), seed_cell(dim))
}

/// How many leading target elements the simulation matches from state `s`
/// and position `k` on.
pub open spec fn trial_from(
    s: Seq<CellModel>,
    rule: Rule,
    dim: nat,
    target: Seq<usize>,
    k: int,
) -> nat
    decreases target.len() - k,
    when 0 <= k <= target.len()
{
    if k >= target.len() {
        0
    } else if count_value(s, CellValue::Active) != target[k] {
        0
    } else {
        1 + trial_from(step_space(s, rule, dim), rule, dim, target, k + 1)
    }
}

/// How many leading target elements one (dimension, rule, permutation) trial
/// matches; the trial succeeds when this reaches the target's length.
pub open spec fn run_trial(dim: nat, rule: Rule, target: Seq<usize>) -> nat {
    trial_from(init_space(dim), rule, dim, target, 0)
}

/// The first rule the driver tries in `dim` dimensions: the initial formula
/// over all `3^dim` neighbourhood slots, the identity permutation, and the
/// `Activate` action.
pub open spec fn rule_is_initial(r: Rule, dim: nat) -> bool {
    &&& r.wf()
    &&& is_init_tree(r.spec_condition(), 0, pow3(dim) - 1)
    &&& r.spec_condition().spec_perm().is_init(r.spec_condition().spec_clusters())
    &&& r.spec_action() == Action::Activate
}

/// One driver advance: while the current structure-action pair has untried
/// permutations the permuter moves, otherwise the rule itself moves on.
pub open spec fn driver_step(a: Rule, b: Rule) -> bool {
    if a.spec_condition().spec_perm().spec_has_next() {
        &&& b.spec_action() == a.spec_action()
        &&& b.spec_condition().spec_op() == a.spec_condition().spec_op()
        &&& b.spec_condition().spec_left() == a.spec_condition().spec_left()
        &&& b.spec_condition().spec_right() == a.spec_condition().spec_right()
        &&& b.spec_condition().spec_split() == a.spec_condition().spec_split()
        &&& b.spec_condition().spec_start() == a.spec_condition().spec_start()
        &&& b.spec_condition().spec_end() == a.spec_condition().spec_end()
        &&& Permuter::next_rel(a.spec_condition().spec_perm(), b.spec_condition().spec_perm())
    } else {
        &&& (a.spec_action() != Action::Flip || a.spec_condition().spec_has_next())
        &&& rule_next(a, b)
    }
}

/// The driver can advance no further: the permutations of the current pair
/// and the rules themselves are both exhausted.
pub open spec fn driver_stuck(r: Rule) -> bool {
    &&& !r.spec_condition().spec_perm().spec_has_next()
    &&& r.spec_action() == Action::Flip
    &&& !r.spec_condition().spec_has_next()
}

/// A maximal enumeration walk for one dimension: it starts at the initial
/// rule, every element steps to its successor, and the last element can step
/// no further.
pub open spec fn driver_trace(dim: nat, tr: Seq<Rule>) -> bool {
    &&& tr.len() >= 1
    &&& rule_is_initial(tr[0], dim)
    &&& (forall|i: int| 0 <= i < tr.len() - 1 ==> #[trigger] driver_step(tr[i], tr[i + 1]))
    &&& driver_stuck(tr.last())
}

/// The whole enumeration for one dimension was walked to exhaustion and every
/// rule along it fell short of the target, none matching more than `bound`
/// leading elements.
pub open spec fn dimension_exhausted(dim: nat, target: Seq<usize>, bound: nat) -> bool {
    exists|tr: Seq<Rule>|
        driver_trace(dim, tr) && (forall|i: int|
            0 <= i < tr.len() ==> run_trial(dim, #[trigger] tr[i], target) < target.len()
                && run_trial(dim, tr[i], target) <= bound)
}

/// The failure report for one dimension: a maximal enumeration walk of
/// `explored` rules (the count saturates at the machine limit), every one
/// falling short of the target, the deepest reaching exactly `deepest`
/// leading matches.
pub open spec fn dimension_summary(dim: nat, target: Seq<usize>, explored: nat, deepest: nat) -> bool {
    exists|tr: Seq<Rule>|
        driver_trace(dim, tr) && (tr.len() == explored || explored == usize::MAX) && (forall|i: int|
            0 <= i < tr.len() ==> run_trial(dim, #[trigger] tr[i], target) < target.len()
                && run_trial(dim, tr[i], target) <= deepest) && (deepest == 0 || exists|i: int|
            0 <= i < tr.len() && run_trial(dim, #[trigger] tr[i], target) == deepest)
}

/// A dimension's failure report implies its exhaustion at any looser bound.
proof fn lemma_summary_to_exhausted(dim: nat, target: Seq<usize>, explored: nat, deepest: nat, bound: nat)
    requires
        dimension_summary(dim, target, explored, deepest),
        deepest <= bound,
    ensures
        dimension_exhausted(dim, target, bound),
{
    let tr = choose|tr: Seq<Rule>|
        driver_trace(dim, tr) && (tr.len() == explored || explored == usize::MAX) && (forall|i: int|
            0 <= i < tr.len() ==> run_trial(dim, #[trigger] tr[i], target) < target.len()
                && run_trial(dim, tr[i], target) <= deepest) && (deepest == 0 || exists|i: int|
            0 <= i < tr.len() && run_trial(dim, #[trigger] tr[i], target) == deepest);
    assert(driver_trace(dim, tr) && (forall|i: int|
        0 <= i < tr.len() ==> run_trial(dim, #[trigger] tr[i], target) < target.len()
            && run_trial(dim, tr[i], target) <= bound));
}

/// Exhaustion with a tighter bound gives exhaustion with a looser one.
proof fn lemma_exhausted_mono(dim: nat, target: Seq<usize>, b1: nat, b2: nat)
    requires
        dimension_exhausted(dim, target, b1),
        b1 <= b2,
    ensures
        dimension_exhausted(dim, target, b2),
{
    let tr = choose|tr: Seq<Rule>|
        driver_trace(dim, tr) && (forall|i: int|
            0 <= i < tr.len() ==> run_trial(dim, #[trigger] tr[i], target) < target.len()
                && run_trial(dim, tr[i], target) <= b1);
    assert(driver_trace(dim, tr) && (forall|i: int|
        0 <= i < tr.len() ==> run_trial(dim, #[trigger] tr[i], target) < target.len()
            && run_trial(dim, tr[i], target) <= b2));
}

/// Appending one more failed step keeps a walk well-formed.
proof fn lemma_trace_extend(
    tr: Seq<Rule>,
    prev: Rule,
    next: Rule,
    dim: nat,
    target: Seq<usize>,
    bound: nat,
)
    requires
        tr.len() >= 1,
        tr.last() == prev,
        rule_is_initial(tr[0], dim),
        forall|i: int| 0 <= i < tr.len() - 1 ==> #[trigger] driver_step(tr[i], tr[i + 1]),
        forall|i: int|
            0 <= i < tr.len() - 1 ==> run_trial(dim, #[trigger] tr[i], target) < target.len()
                && run_trial(dim, tr[i], target) <= bound,
        run_trial(dim, prev, target) < target.len(),
        run_trial(dim, prev, target) <= bound,
        driver_step(prev, next),
    ensures
        tr.push(next).last() == next,
        rule_is_initial(tr.push(next)[0], dim),
        forall|i: int|
            0 <= i < tr.push(next).len() - 1 ==> #[trigger] driver_step(
                tr.push(next)[i],
                tr.push(next)[i + 1],
            ),
        forall|i: int|
            0 <= i < tr.push(next).len() - 1 ==> run_trial(dim, #[trigger] tr.push(next)[i], target)
                < target.len() && run_trial(dim, tr.push(next)[i], target) <= bound,
{
    let t2 = tr.push(next);
    assert forall|i: int| 0 <= i < t2.len() - 1 implies #[trigger] driver_step(
        t2[i],
        t2[i + 1],
    ) by {
        if i < tr.len() - 1 {
            assert(t2[i] == tr[i] && t2[i + 1] == tr[i + 1]);
            assert(driver_step(tr[i], tr[i + 1]));
        } else {
            assert(i == tr.len() - 1);
            assert(t2[i] == tr.last() && t2[i + 1] == next);
        }
    }
    assert forall|i: int|
        0 <= i < t2.len() - 1 implies run_trial(dim, #[trigger] t2[i], target) < target.len()
        && run_trial(dim, t2[i], target) <= bound by {
        if i < tr.len() - 1 {
            assert(t2[i] == tr[i]);
            assert(run_trial(dim, tr[i], target) < target.len());
        } else {
            assert(t2[i] == prev);
        }
    }
}

pub struct StateExplorer {
    min_dimensions: usize,
    max_dimensions: usize,
    expected_num_set_cells: Vec<usize>,
}

impl StateExplorer {
    pub closed spec fn spec_min(self) -> int {
        self.min_dimensions as int
    }

    pub closed spec fn spec_max(self) -> int {
        self.max_dimensions as int
    }

    pub closed spec fn spec_target(self) -> Seq<usize> {
        self.expected_num_set_cells@
    }

    pub fn new(min_dims: usize, max_dims: usize, expected_set: Vec<usize>) -> (r: StateExplorer)
        ensures
            r.spec_min() == min_dims,
            r.spec_max() == max_dims,
            r.spec_target() == expected_set@,
    {
        StateExplorer {
            min_dimensions: min_dims,
            max_dimensions: max_dims,
            expected_num_set_cells: expected_set,
        }
    }

    /// Write the rule's action into the cell.
    fn apply_rule(rule: &Rule, cell: &mut Cell)
        ensures
            final(cell)@ == (CellModel {
                value: act_value(rule.spec_action(), old(cell)@.value),
                ..old(cell)@
            }),
    {
        let a = rule.action();
        match a {
            Action::Activate => cell.set(),
            Action::Deactivate => cell.unset(),
            Action::Flip => cell.flip(),
        }
    }

    /// Evaluate the rule's condition on the cell's neighbourhood in `space`,
    /// sweeping the cell's neighbour cursor over all `3^dim` offsets.
    fn is_rule_applicable(rule: &Rule, cell: &mut Cell, space: &Space) -> (r: bool)
        requires
            rule.wf(),
            space.wf(),
            old(cell)@.wf(),
            old(cell)@.coords.len() == space.spec_dimension(),
            old(cell)@.coords_in_range(),
            rule.spec_condition().spec_end() < pow3(space.spec_dimension() as nat),
        ensures
            r == rule_applies(
                *rule,
                old(cell)@.coords,
                space@,
                space.spec_dimension() as nat,
            ),
            final(cell)@ == (CellModel {
                delta: Seq::new(old(cell)@.coords.len(), |j: int| DeltaCoordinate::Negative),
                ..old(cell)@
            }),
    {
        let ghost dim_n = space.spec_dimension() as nat;
        let ghost c0 = old(cell)@.coords;
        cell.reset_explore();
        let mut v: Vec<bool> = Vec::new();
        let nearby = cell.get_nearby_coordinate();
        proof {
            lemma_delta_of_cursor_index(cell@.delta);
            assert(as_ints(nearby@) =~= nbr_coord(c0, 0));
            crate::delta::lemma_pow3_pos(dim_n);
        }
        let first = match space.search_cells(&nearby) {
            Option::None => false,
            Option::Some(found) => found.get_value() == CellValue::Active,
        };
        v.push(first);
        proof {
            assert(v@[0] == neigh_vals(space@, c0, dim_n)[0]);
        }
        while cell.has_unexplored_nearby_cell()
            invariant
                rule.wf(),
                space.wf(),
                dim_n == space.spec_dimension() as nat,
                cell@.wf(),
                cell@.coords == c0,
                cell@.value == old(cell)@.value,
                cell@.coords_in_range(),
                cell@.coords.len() == space.spec_dimension(),
                c0 == old(cell)@.coords,
                old(cell)@.wf(),
                1 <= v@.len() <= pow3(dim_n),
                cursor_index(cell@.delta) == v@.len() - 1,
                forall|k: int| 0 <= k < v@.len() ==> v@[k] == neigh_vals(space@, c0, dim_n)[k],
            decreases pow3(dim_n) - v@.len(),
        {
            proof {
                lemma_cursor_index_bounds(cell@.delta);
            }
            cell.generate_next_unexplored_nearby_cell();
            let nearby2 = cell.get_nearby_coordinate();
            proof {
                lemma_delta_of_cursor_index(cell@.delta);
                assert(as_ints(nearby2@) =~= nbr_coord(c0, v@.len() as int));
            }
            let val = match space.search_cells(&nearby2) {
                Option::None => false,
                Option::Some(found) => found.get_value() == CellValue::Active,
            };
            v.push(val);
        }
        proof {
            lemma_cursor_index_bounds(cell@.delta);
            assert(v@.len() == pow3(dim_n));
            assert(v@ =~= neigh_vals(space@, c0, dim_n));
            lemma_cursor_index_max(cell@.delta);
            assert(final(cell)@ =~= (CellModel {
                delta: Seq::new(old(cell)@.coords.len(), |j: int| DeltaCoordinate::Negative),
                ..old(cell)@
            }));
        }
        rule.evaluate(&v)
    }

    /// Re-evaluate the rule for the cell's neighbourhood and apply its action
    /// when the condition holds (always spending the cell's cursor).
    pub fn apply_rule_if_applicable(rule: &Rule, cell: &mut Cell, space: &Space)
        requires
            rule.wf(),
            space.wf(),
            old(cell)@.wf(),
            old(cell)@.coords.len() == space.spec_dimension(),
            old(cell)@.coords_in_range(),
            rule.spec_condition().spec_end() < pow3(space.spec_dimension() as nat),
        ensures
            final(cell)@ == applied_cell(
                old(cell)@,
                *rule,
                space@,
                space.spec_dimension() as nat,
            ),
    {
        if StateExplorer::is_rule_applicable(rule, cell, space) {
            StateExplorer::apply_rule(rule, cell);
        }
        proof {
            assert(final(cell)@ =~= applied_cell(
                old(cell)@,
                *rule,
                space@,
                space.spec_dimension() as nat,
            ));
        }
    }

    /// Search every dimension, rule structure, action and permutation in the
    /// configured range. Reports whether some trial reproduced the whole
    /// target sequence, the deepest number of leading target elements any
    /// trial matched, and - when the search fails - one entry per dimension
    /// with the number of rules explored there and the deepest match reached
    /// there, each tied to a maximal enumeration walk.
    pub fn explore_summary(&self) -> (r: (bool, usize, Vec<(usize, usize)>))
        requires
            self.spec_min() >= 1,
            self.spec_min() <= self.spec_max(),
            self.spec_max() < usize::MAX,
            pow3(self.spec_max() as nat) <= usize::MAX,
            self.spec_target().len() + 2 <= i32::MAX,
        ensures
            r.0 ==> exists|d: nat, ru: Rule|
                self.spec_min() <= d <= self.spec_max() && #[trigger] run_trial(
                    d,
                    ru,
                    self.spec_target(),
                ) == self.spec_target().len(),
            r.1 <= self.spec_target().len(),
            r.0 ==> r.1 == self.spec_target().len(),
            r.1 > 0 ==> exists|d: nat, ru: Rule|
                self.spec_min() <= d <= self.spec_max() && #[trigger] run_trial(
                    d,
                    ru,
                    self.spec_target(),
                ) == r.1,
            !r.0 ==> r.2@.len() == self.spec_max() + 1 - self.spec_min(),
            !r.0 ==> forall|k: int|
                #![trigger r.2@[k]]
                0 <= k < r.2@.len() ==> r.2@[k].1 <= r.1 && dimension_summary(
                    (self.spec_min() + k) as nat,
                    self.spec_target(),
                    r.2@[k].0 as nat,
                    r.2@[k].1 as nat,
                ),
    {
        let ghost target = self.spec_target();
        let target_len = self.expected_num_set_cells.len();
        let mut best: usize = 0;
        let ghost mut witness: Option<(nat, Rule)> = Option::None;
        let mut summary: Vec<(usize, usize)> = Vec::new();
        let mut dim_len = self.min_dimensions;
        while dim_len <= self.max_dimensions
            invariant
                self.spec_min() >= 1,
                self.spec_min() <= self.spec_max(),
                self.spec_max() < usize::MAX,
                pow3(self.spec_max() as nat) <= usize::MAX,
                target.len() + 2 <= i32::MAX,
                target == self.spec_target(),
                target_len == target.len(),
                self.spec_min() <= dim_len as int <= self.spec_max() + 1,
                best <= target.len(),
                best > 0 ==> witness is Some && {
                    let (d, ru) = witness->Some_0;
                    self.spec_min() <= d <= self.spec_max() && run_trial(d, ru, target) == best
                },
                summary@.len() == dim_len as int - self.spec_min(),
                forall|k: int|
                    #![trigger summary@[k]]
                    0 <= k < summary@.len() ==> summary@[k].1 <= best && dimension_summary(
                        (self.spec_min() + k) as nat,
                        target,
                        summary@[k].0 as nat,
                        summary@[k].1 as nat,
                    ),
            decreases self.spec_max() + 1 - dim_len,
        {
            proof {
                lemma_pow3_mono(dim_len as nat, self.spec_max() as nat);
            }
            let mut rule = Rule::new(dim_len);
            let ghost dim_n = dim_len as nat;
            let ghost mut trace: Seq<Rule> = seq![rule];
            let mut dim_best: usize = 0;
            let ghost mut best_idx: int = 0;
            let mut count: usize = 0;
            proof {
                crate::delta::lemma_pow3_pos(dim_n);
                assert(rule.spec_condition().spec_end() == pow3(dim_n) - 1);
                assert(rule_is_initial(trace[0], dim_n));
            }
            let mut more_rules = true;
            while more_rules
                invariant
                    self.spec_min() >= 1,
                    self.spec_min() <= self.spec_max(),
                    self.spec_max() < usize::MAX,
                    pow3(self.spec_max() as nat) <= usize::MAX,
                    target.len() + 2 <= i32::MAX,
                    target == self.spec_target(),
                    target_len == target.len(),
                    dim_n == dim_len as nat,
                    pow3(dim_n) <= usize::MAX,
                    self.spec_min() <= dim_len as int <= self.spec_max(),
                    rule.wf(),
                    rule.spec_condition().spec_end() == pow3(dim_n) - 1,
                    dim_best <= best <= target.len(),
                    best > 0 ==> witness is Some && {
                        let (d, ru) = witness->Some_0;
                        self.spec_min() <= d <= self.spec_max() && run_trial(d, ru, target)
                            == best
                    },
                    trace.len() >= 1,
                    trace.last() == rule,
                    rule_is_initial(trace[0], dim_n),
                    more_rules ==> count as int == trace.len() - 1 || count == usize::MAX,
                    dim_best > 0 ==> 0 <= best_idx < trace.len() && run_trial(
                        dim_n,
                        trace[best_idx],
                        target,
                    ) == dim_best,
                    forall|i: int|
                        0 <= i < trace.len() - 1 ==> #[trigger] driver_step(
                            trace[i],
                            trace[i + 1],
                        ),
                    forall|i: int|
                        0 <= i < trace.len() - 1 ==> run_trial(dim_n, #[trigger] trace[i], target)
                            < target.len() && run_trial(dim_n, trace[i], target) <= dim_best,
                    !more_rules ==> run_trial(dim_n, trace.last(), target) < target.len()
                        && run_trial(dim_n, trace.last(), target) <= dim_best && driver_stuck(rule)
                        && (count as int == trace.len() || count == usize::MAX),
                    summary@.len() == dim_len as int - self.spec_min(),
                    forall|k: int|
                        #![trigger summary@[k]]
                        0 <= k < summary@.len() ==> summary@[k].1 <= best && dimension_summary(
                            (self.spec_min() + k) as nat,
                            target,
                            summary@[k].0 as nat,
                            summary@[k].1 as nat,
                        ),
                decreases rule.rank(), (if more_rules {
                    1int
                } else {
                    0int
                }),
            {
                let ghost rule_rank0 = rule.rank();
                let mut more_perms = true;
                while more_perms
                    invariant
                        self.spec_min() >= 1,
                        self.spec_min() <= self.spec_max(),
                        self.spec_max() < usize::MAX,
                        pow3(self.spec_max() as nat) <= usize::MAX,
                        target.len() + 2 <= i32::MAX,
                        target == self.spec_target(),
                        target_len == target.len(),
                        dim_n == dim_len as nat,
                        pow3(dim_n) <= usize::MAX,
                        self.spec_min() <= dim_len as int <= self.spec_max(),
                        rule.wf(),
                        rule.spec_condition().spec_end() == pow3(dim_n) - 1,
                        rule.rank() == rule_rank0,
                        dim_best <= best <= target.len(),
                        best > 0 ==> witness is Some && {
                            let (d, ru) = witness->Some_0;
                            self.spec_min() <= d <= self.spec_max() && run_trial(d, ru, target)
                                == best
                        },
                        trace.len() >= 1,
                        trace.last() == rule,
                        rule_is_initial(trace[0], dim_n),
                        more_perms ==> count as int == trace.len() - 1 || count == usize::MAX,
                        dim_best > 0 ==> 0 <= best_idx < trace.len() && run_trial(
                            dim_n,
                            trace[best_idx],
                            target,
                        ) == dim_best,
                        forall|i: int|
                            0 <= i < trace.len() - 1 ==> #[trigger] driver_step(
                                trace[i],
                                trace[i + 1],
                            ),
                        forall|i: int|
                            0 <= i < trace.len() - 1 ==> run_trial(
                                dim_n,
                                #[trigger] trace[i],
                                target,
                            ) < target.len() && run_trial(dim_n, trace[i], target) <= dim_best,
                        !more_perms ==> run_trial(dim_n, trace.last(), target) < target.len()
                            && run_trial(dim_n, trace.last(), target) <= dim_best && !(
                        rule.spec_condition().spec_perm().spec_has_next()) && (count as int
                            == trace.len() || count == usize::MAX),
                        summary@.len() == dim_len as int - self.spec_min(),
                        forall|k: int|
                            #![trigger summary@[k]]
                            0 <= k < summary@.len() ==> summary@[k].1 <= best
                                && dimension_summary(
                                (self.spec_min() + k) as nat,
                                target,
                                summary@[k].0 as nat,
                                summary@[k].1 as nat,
                            ),
                    decreases rule.spec_condition().spec_perm().rank(), (if more_perms {
                        1int
                    } else {
                        0int
                    }),
                {
                    let matched = self.run_single_trial(dim_len, &rule);
                    if count < usize::MAX {
                        count = count + 1;
                    }
                    if matched == target_len {
                        proof {
                            assert(run_trial(dim_len as nat, rule, target) == target.len());
                        }
                        return (true, target_len, summary);
                    }
                    if matched > dim_best {
                        dim_best = matched;
                        proof {
                            best_idx = trace.len() - 1;
                        }
                    }
                    if matched > best {
                        best = matched;
                        proof {
                            witness = Option::Some((dim_len as nat, rule));
                            assert(run_trial(dim_len as nat, rule, target) == best);
                        }
                    }
                    if rule.has_next_eval_permutation() {
                        let ghost rule_before = rule;
                        rule.generate_next_eval_permutation();
                        proof {
                            assert(driver_step(rule_before, rule));
                            lemma_trace_extend(trace, rule_before, rule, dim_n, target,
                                dim_best as nat);
                            trace = trace.push(rule);
                        }
                    } else {
                        more_perms = false;
                    }
                }
                if rule.has_next() {
                    let ghost rule_before = rule;
                    rule.generate_next();
                    proof {
                        assert(!rule_before.spec_condition().spec_perm().spec_has_next());
                        assert(driver_step(rule_before, rule));
                        lemma_trace_extend(trace, rule_before, rule, dim_n, target,
                            dim_best as nat);
                        trace = trace.push(rule);
                    }
                } else {
                    more_rules = false;
                }
            }
            proof {
                assert(driver_trace(dim_n, trace));
                assert forall|i: int|
                    0 <= i < trace.len() implies run_trial(dim_n, #[trigger] trace[i], target)
                    < target.len() && run_trial(dim_n, trace[i], target) <= dim_best as nat by {
                    if i == trace.len() - 1 {
                        assert(trace[i] == trace.last());
                    }
                }
                if dim_best > 0 {
                    assert(run_trial(dim_n, trace[best_idx], target) == dim_best as nat);
                }
                assert(dimension_summary(dim_n, target, count as nat, dim_best as nat));
            }
            let ghost summary_before = summary@;
            summary.push((count, dim_best));
            proof {
                assert forall|k: int|
                    #![trigger summary@[k]]
                    0 <= k < summary@.len() implies summary@[k].1 <= best && dimension_summary(
                    (self.spec_min() + k) as nat,
                    target,
                    summary@[k].0 as nat,
                    summary@[k].1 as nat,
                ) by {
                    if k < summary_before.len() {
                        assert(summary@[k] == summary_before[k]);
                    } else {
                        assert(summary@[k] == (count, dim_best));
                        assert((self.spec_min() + k) as nat == dim_n);
                    }
                }
            }
            dim_len = dim_len + 1;
        }
        (false, best, summary)
    }

    /// Search every dimension, rule structure, action and permutation in the
    /// configured range; report whether some trial reproduced the whole
    /// target sequence, together with the deepest number of leading target
    /// elements any trial matched. On failure, every dimension's enumeration
    /// was walked to exhaustion with every rule falling short.
    pub fn explore_report(&self) -> (r: (bool, usize))
        requires
            self.spec_min() >= 1,
            self.spec_min() <= self.spec_max(),
            self.spec_max() < usize::MAX,
            pow3(self.spec_max() as nat) <= usize::MAX,
            self.spec_target().len() + 2 <= i32::MAX,
        ensures
            r.0 ==> exists|d: nat, ru: Rule|
                self.spec_min() <= d <= self.spec_max() && #[trigger] run_trial(
                    d,
                    ru,
                    self.spec_target(),
                ) == self.spec_target().len(),
            r.1 <= self.spec_target().len(),
            r.0 ==> r.1 == self.spec_target().len(),
            r.1 > 0 ==> exists|d: nat, ru: Rule|
                self.spec_min() <= d <= self.spec_max() && #[trigger] run_trial(
                    d,
                    ru,
                    self.spec_target(),
                ) == r.1,
            !r.0 ==> forall|d: int|
                self.spec_min() <= d <= self.spec_max() ==> #[trigger] dimension_exhausted(
                    d as nat,
                    self.spec_target(),
                    r.1 as nat,
                ),
    {
        let (found, best, summary) = self.explore_summary();
        proof {
            if !found {
                assert forall|d: int|
                    self.spec_min() <= d <= self.spec_max() implies #[trigger] dimension_exhausted(
                    d as nat,
                    self.spec_target(),
                    best as nat,
                ) by {
                    let k = d - self.spec_min();
                    assert(0 <= k < summary@.len());
                    assert(summary@[k].1 <= best && dimension_summary(
                        (self.spec_min() + k) as nat,
                        self.spec_target(),
                        summary@[k].0 as nat,
                        summary@[k].1 as nat,
                    ));
                    lemma_summary_to_exhausted(
                        d as nat,
                        self.spec_target(),
                        summary@[k].0 as nat,
                        summary@[k].1 as nat,
                        best as nat,
                    );
                }
            }
        }
        (found, best)
    }

    /// Simulate one candidate rule in `dim_len` dimensions and count how many
    /// leading target elements it matches.
    fn run_single_trial(&self, dim_len: usize, rule: &Rule) -> (matched: usize)
        requires
            pow3(dim_len as nat) <= usize::MAX,
            self.spec_target().len() + 2 <= i32::MAX,
            rule.wf(),
            rule.spec_condition().spec_end() == pow3(dim_len as nat) - 1,
        ensures
            matched == run_trial(dim_len as nat, *rule, self.spec_target()),
            matched <= self.spec_target().len(),
    {
        let ghost dim_n = dim_len as nat;
        let ghost target = self.spec_target();
        let mut space = Space::new(dim_len);
        let mut seed = Cell::new(dim_len);
        seed.set();
        proof {
            assert(seed@ =~= seed_cell(dim_n));
            assert(actives_in_range(space@));
        }
        space.push_cell(&seed);
        proof {
            assert(space@ == init_space(dim_n));
            let u = upsert(Seq::<CellModel>::empty(), seed_cell(dim_n));
            assert(u =~= Seq::<CellModel>::empty().push(seed_cell(dim_n)));
            assert(actives_abs_le(u, 0));
            assert(coords_abs_le(u, 1));
            lemma_expand_bounds(u, 0, u.len() as int, 0);
            assert(actives_abs_le(space@, 0));
            assert(coords_abs_le(space@, 1));
        }
        let mut el_idx: usize = 0;
        let mut matched: usize = 0;
        let mut aborted = false;
        while !aborted && el_idx < self.expected_num_set_cells.len()
            invariant
                target == self.spec_target(),
                target.len() + 2 <= i32::MAX,
                dim_n == dim_len as nat,
                pow3(dim_n) <= usize::MAX,
                rule.wf(),
                rule.spec_condition().spec_end() == pow3(dim_n) - 1,
                el_idx <= target.len(),
                matched == el_idx,
                space.wf(),
                space.spec_dimension() == dim_len,
                actives_abs_le(space@, el_idx as int),
                coords_abs_le(space@, el_idx + 1),
                !aborted ==> run_trial(dim_n, *rule, target) == el_idx + trial_from(
                    space@,
                    *rule,
                    dim_n,
                    target,
                    el_idx as int,
                ),
                aborted ==> run_trial(dim_n, *rule, target) == matched,
            decreases target.len() - el_idx, (if aborted {
                0int
            } else {
                1int
            }),
        {
            let ghost s_check = space@;
            let count = space.find_number_of_cells(CellValue::Active);
            if count != self.expected_num_set_cells[el_idx] {
                aborted = true;
            } else {
                proof {
                    lemma_abs_le_active_range(space@, el_idx as int, target.len() as int);
                }
                space.gen_next_iteration();
                proof {
                    lemma_expand_bounds(s_check, 0, s_check.len() as int, el_idx as int);
                }
                let ghost s1 = space@;
                // snapshot the expanded lattice
                let mut snap: Vec<Cell> = Vec::new();
                let mut si: usize = 0;
                let total_cells = space.len();
                while si < total_cells
                    invariant
                        si <= total_cells,
                        total_cells == space@.len(),
                        snap@.len() == si,
                        forall|k: int| 0 <= k < si ==> #[trigger] snap@[k]@ == space@[k],
                        space@ == s1,
                    decreases total_cells - si,
                {
                    let c = space.get_ith_cell(si).duplicate();
                    snap.push(c);
                    si = si + 1;
                }
                // re-evaluate and apply the rule to every snapshot cell
                let mut i: usize = 0;
                while i < snap.len()
                    invariant
                        target.len() + 2 <= i32::MAX,
                        dim_n == dim_len as nat,
                        pow3(dim_n) <= usize::MAX,
                        rule.wf(),
                        rule.spec_condition().spec_end() == pow3(dim_n) - 1,
                        el_idx < target.len(),
                        space.wf(),
                        space.spec_dimension() == dim_len,
                        snap@.len() == s1.len(),
                        forall|k: int| 0 <= k < snap@.len() ==> #[trigger] snap@[k]@ == s1[k],
                        uniform_dim(s1, dim_len as int),
                        coords_abs_le(s1, el_idx + 1),
                        actives_abs_le(space@, el_idx + 1),
                        coords_abs_le(space@, el_idx + 2),
                        i <= snap@.len(),
                        apply_from(s1, s1, *rule, dim_n, 0) == apply_from(
                            space@,
                            s1,
                            *rule,
                            dim_n,
                            i as int,
                        ),
                    decreases snap@.len() - i,
                {
                    let mut c = snap[i].duplicate();
                    let ghost s_before = space@;
                    proof {
                        lemma_cell_bound_range(s1, i as int, el_idx + 1, target.len() as int);
                        lemma_abs_le_active_range(space@, el_idx + 1, target.len() as int);
                    }
                    StateExplorer::apply_rule_if_applicable(rule, &mut c, &space);
                    space.push_cell(&c);
                    proof {
                        let c2 = applied_cell(s1[i as int], *rule, s_before, dim_n);
                        assert(c@ == c2);
                        assert(space@ == push_transition(s_before, c2));
                        let u = upsert(s_before, c2);
                        assert(actives_abs_le(u, el_idx + 1));
                        assert(coords_abs_le(u, el_idx + 2));
                        lemma_expand_bounds(u, 0, u.len() as int, el_idx + 1);
                    }
                    i = i + 1;
                }
                proof {
                    assert(apply_from(space@, s1, *rule, dim_n, snap@.len() as int) == space@);
                    assert(space@ == step_space(s_check, *rule, dim_n));
                    assert(trial_from(s_check, *rule, dim_n, target, el_idx as int) == 1
                        + trial_from(space@, *rule, dim_n, target, el_idx + 1));
                }
                matched = matched + 1;
                el_idx = el_idx + 1;
            }
        }
        proof {
            if !aborted {
                assert(trial_from(space@, *rule, dim_n, target, el_idx as int) == 0);
            }
        }
        matched
    }

    /// Whether some rule in the configured search space reproduces the whole
    /// target sequence; false only once every dimension's enumeration has
    /// been walked to exhaustion with every rule falling short.
    pub fn explore(&self) -> (r: bool)
        requires
            self.spec_min() >= 1,
            self.spec_min() <= self.spec_max(),
            self.spec_max() < usize::MAX,
            pow3(self.spec_max() as nat) <= usize::MAX,
            self.spec_target().len() + 2 <= i32::MAX,
        ensures
            r ==> exists|d: nat, ru: Rule|
                self.spec_min() <= d <= self.spec_max() && #[trigger] run_trial(
                    d,
                    ru,
                    self.spec_target(),
                ) == self.spec_target().len(),
            !r ==> forall|d: int|
                self.spec_min() <= d <= self.spec_max() ==> #[trigger] dimension_exhausted(
                    d as nat,
                    self.spec_target(),
                    self.spec_target().len(),
                ),
    {
        let (found, best) = self.explore_report();
        proof {
            if !found {
                assert forall|d: int|
                    self.spec_min() <= d <= self.spec_max() implies #[trigger] dimension_exhausted(
                    d as nat,
                    self.spec_target(),
                    self.spec_target().len(),
                ) by {
                    lemma_exhausted_mono(
                        d as nat,
                        self.spec_target(),
                        best as nat,
                        self.spec_target().len(),
                    );
                }
            }
        }
        found
    }
}

/// Bounded active cells are in range for a +/-1 offset.
proof fn lemma_abs_le_active_range(s: Seq<CellModel>, a: int, cap: int)
    requires
        actives_abs_le(s, a),
        0 <= a,
        a <= cap + 1,
        cap + 2 <= i32::MAX,
    ensures
        actives_in_range(s),
{
    assert forall|i: int|
        0 <= i < s.len() && #[trigger] s[i].value is Active implies s[i].coords_in_range() by {
        assert forall|j: int|
            0 <= j < s[i].coords.len() implies i32::MIN < #[trigger] s[i].coords[j]
                < i32::MAX by {
            assert(-a <= s[i].coords[j] <= a);
        }
    }
}

/// A bounded snapshot cell is in range for a +/-1 offset.
proof fn lemma_cell_bound_range(s: Seq<CellModel>, i: int, b: int, cap: int)
    requires
        coords_abs_le(s, b),
        0 <= i < s.len(),
        0 <= b,
        b <= cap + 1,
        cap + 2 <= i32::MAX,
    ensures
        s[i].coords_in_range(),
{
    assert forall|j: int|
        0 <= j < s[i].coords.len() implies i32::MIN < #[trigger] s[i].coords[j] < i32::MAX by {
        assert(-b <= s[i].coords[j] <= b);
    }
}

} // verus!
