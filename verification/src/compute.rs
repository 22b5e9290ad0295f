//! A linear chain of compute stages and the worker step that drives a work
//! unit through it.  Feeding work units in and collecting results out is
//! I/O and lives with the caller; the computation itself is here.

use vstd::prelude::*;

verus! {

use crate::transform::Transform;

/// One stage of a linear compute chain, pointing at the next stage if any.
pub struct ComputeNode<S> {
    pub curr: S,
    pub next: Option<Box<ComputeNode<S>>>,
}

impl<S: Transform> ComputeNode<S> {
    /// What driving a value through this stage and everything after it
    /// yields; `None` when some stage fails.
    pub open spec fn chain_spec(&self, xs: Seq<S::Elem>) -> Option<Seq<S::Elem>>
        decreases self,
    {
        match self.curr.spec_apply(xs) {
            Some(ys) => match &self.next {
                Some(n) => n.chain_spec(ys),
                None => Some(ys),
            },
            None => None,
        }
    }
}

/// A unit of work: a datum and the chain stage it is queued at.
pub struct Work<'a, S: Transform> {
    pub datum: Vec<S::Elem>,
    pub compute_node: &'a ComputeNode<S>,
}

/// Drives one unit of work through its chain, stage by stage, and returns
/// the final value, or `None` as soon as a stage fails.
pub fn compute<S: Transform>(work: Work<'_, S>) -> (r: Option<Vec<S::Elem>>)
    ensures
        match r {
            Some(v) => work.compute_node.chain_spec(work.datum@) == Some(v@),
            None => work.compute_node.chain_spec(work.datum@) is None,
        },
    decreases *work.compute_node,
{
    let Work { datum, compute_node } = work;
    match compute_node.curr.apply(&datum) {
        None => None,
        Some(val) => match &compute_node.next {
            Some(n) => compute(Work { datum: val, compute_node: n }),
            None => Some(val),
        },
    }
}

} // verus!
