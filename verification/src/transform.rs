//! The transform abstraction: a pure stage of the dataflow engine.

use vstd::prelude::*;

verus! {

/// A pure transform stage: a function from a sequence of elements to a
/// sequence of elements that may also fail.  Every node of a compute graph
/// carries one, and chain compaction relies on composing stages being
/// equivalent to applying them one by one, which holds exactly because a
/// stage's behaviour is a function of its input alone.
///
/// `spec_apply` is the mathematical meaning of the stage; `apply` runs it and
/// is required to agree with `spec_apply`, returning `None` exactly when the
/// stage fails on that input.
pub trait Transform: Sized {
    type Elem;

    /// What the stage returns on a given input; `None` when it fails there.
    spec fn spec_apply(&self, xs: Seq<Self::Elem>) -> Option<Seq<Self::Elem>>;

    /// Runs the stage on one input vector.
    fn apply(&self, xs: &Vec<Self::Elem>) -> (r: Option<Vec<Self::Elem>>)
        ensures
            match r {
                Some(v) => self.spec_apply(xs@) == Some(v@),
                None => self.spec_apply(xs@) is None,
            },
    ;
}

} // verus!
