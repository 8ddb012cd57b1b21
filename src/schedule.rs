//! When a batch gradient-descent run stops.
//!
//! A run performs iterations until it reaches its cap, or until the cost has
//! changed by less than the convergence threshold between two consecutive
//! iterations. The caller performs each iteration and tells the rule whether
//! the change of cost was under the threshold.

use vstd::prelude::*;

verus! {

/// The progress of one training run.
#[derive(Debug, Clone, Copy, PartialEq, Eq)]
pub struct StopRule {
    pub max_iterations: usize,
    pub performed: usize,
    pub converged: bool,
}

impl StopRule {
    /// The rule's own invariant: the cap is never passed, and convergence is
    /// only seen once a previous cost exists.
    pub open spec fn wf(&self) -> bool {
        &&& self.performed <= self.max_iterations
        &&& self.converged ==> self.performed >= 2
    }

    pub open spec fn finished(&self) -> bool {
        self.converged || self.performed >= self.max_iterations
    }

    /// A run of at most `max_iterations` iterations, none performed yet.
    pub fn new(max_iterations: usize) -> (r: StopRule)
        ensures
            r.wf(),
            r == (StopRule { max_iterations, performed: 0, converged: false }),
    {
        StopRule { max_iterations, performed: 0, converged: false }
    }

    /// Whether the run stops here.
    pub fn is_finished(&self) -> (r: bool)
        ensures
            r == self.finished(),
    {
        self.converged || self.performed >= self.max_iterations
    }

    /// Records one more iteration. `within_epsilon` tells whether the cost
    /// changed by less than the threshold from the previous iteration (false
    /// where no threshold is set); it is ignored after the first iteration,
    /// which has no previous cost.
    pub fn record_iteration(&mut self, within_epsilon: bool)
        requires
            old(self).wf(),
            !old(self).finished(),
        ensures
            final(self).wf(),
            *final(self) == advanced(*old(self), within_epsilon),
            final(self).performed == old(self).performed + 1,
    {
        self.converged = self.performed >= 1 && within_epsilon;
        self.performed = self.performed + 1;
    }

    /// The number of iterations performed.
    pub fn iterations_run(&self) -> (r: usize)
        ensures
            r == self.performed,
    {
        self.performed
    }
}

/// The rule after one more iteration whose change of cost was, or was not,
/// within the threshold.
pub open spec fn advanced(rule: StopRule, within_epsilon: bool) -> StopRule {
    StopRule {
        max_iterations: rule.max_iterations,
        performed: (rule.performed + 1) as usize,
        converged: rule.performed >= 1 && within_epsilon,
    }
}

/// The rule driven by `within`, one flag per iteration, until it finishes
/// or the flags run out.
pub open spec fn driven(rule: StopRule, within: Seq<bool>) -> StopRule
    decreases within.len(),
{
    if rule.finished() || within.len() == 0 {
        rule
    } else {
        driven(advanced(rule, within[0]), within.drop_first())
    }
}

proof fn lemma_driven_from(rule: StopRule, within: Seq<bool>)
    requires
        rule.wf(),
        !rule.converged,
        rule.performed + within.len() >= rule.max_iterations,
    ensures
        ({
            let e = driven(rule, within);
            &&& e.wf()
            &&& e.finished()
            &&& e.max_iterations == rule.max_iterations
            &&& rule.performed <= e.performed <= rule.performed + within.len()
            &&& e.performed == rule.max_iterations || (rule.performed < e.performed
                && e.performed >= 2 && within[e.performed - rule.performed - 1])
            &&& forall|j: int| 1 <= j && rule.performed <= j < e.performed - 1
                ==> !#[trigger] within[j - rule.performed]
        }),
    decreases within.len(),
{
    if rule.finished() || within.len() == 0 {
    } else {
        let next = advanced(rule, within[0]);
        assert(next.performed == rule.performed + 1);
        if next.converged {
            assert(driven(next, within.drop_first()) == next);
        } else {
            lemma_driven_from(next, within.drop_first());
            let e = driven(next, within.drop_first());
            assert forall|j: int| 1 <= j && rule.performed <= j < e.performed - 1
                implies !#[trigger] within[j - rule.performed] by {
                if j > rule.performed {
                    assert(within[j - rule.performed] == within.drop_first()[j - next.performed]);
                }
            }
            if e.performed != rule.max_iterations {
                let k = e.performed - next.performed - 1;
                assert(within[k + 1] == within.drop_first()[k]);
            }
        }
    }
}

/// A run always stops, after at most `max_iterations` iterations. It stops
/// early, after `k` iterations, only where `k >= 2` and the change of cost at
/// iteration `k` was within the threshold; none of iterations `2 .. k-1` was.
/// (`within[i]` is the flag of iteration `i + 1`.)
pub proof fn lemma_run_stops(max_iterations: usize, within: Seq<bool>)
    requires
        within.len() >= max_iterations,
    ensures
        ({
            let e = driven(StopRule { max_iterations, performed: 0, converged: false }, within);
            &&& e.finished()
            &&& e.performed <= max_iterations
            &&& e.performed == max_iterations || (e.performed >= 2 && within[e.performed - 1])
            &&& forall|j: int| 1 <= j < e.performed - 1 ==> !#[trigger] within[j]
        }),
{
    let start = StopRule { max_iterations, performed: 0, converged: false };
    lemma_driven_from(start, within);
    let e = driven(start, within);
    assert forall|j: int| 1 <= j < e.performed - 1 implies !#[trigger] within[j] by {
        assert(within[j - start.performed] == within[j]);
    }
}

} // verus!
