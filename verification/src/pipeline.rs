//! Sequential stage pipelines: a list of transforms applied in order, and a
//! three-phase map/shuffle/reduce pipeline.

use vstd::prelude::*;

pub mod map_reduce;
pub mod word_count;

pub use map_reduce::Keyable;

verus! {

use crate::transform::Transform;
use crate::pipeline::map_reduce::{group_by_key, shuffle_post};

/// Applying a list of stages in order: the output of each is the input of
/// the next; a failing stage fails the whole run.
pub open spec fn seq_apply<S: Transform>(fs: Seq<S>, xs: Seq<S::Elem>) -> Option<Seq<S::Elem>>
    decreases fs.len(),
{
    if fs.len() == 0 {
        Some(xs)
    } else {
        match fs[0].spec_apply(xs) {
            Some(ys) => seq_apply(fs.skip(1), ys),
            None => None,
        }
    }
}

/// A pipeline of stages applied one after another.
pub struct MapLikeSeq<S> {
    pub fs: Vec<S>,
}

impl<S: Transform> MapLikeSeq<S> {
    /// A pipeline over the given stages, in order.
    pub fn new(funcs: Vec<S>) -> (r: Self)
        ensures
            r.fs == funcs,
    {
        MapLikeSeq { fs: funcs }
    }

    /// Runs the stages left to right over one input.
    pub fn apply(&self, datum: Vec<S::Elem>) -> (r: Option<Vec<S::Elem>>)
        ensures
            match r {
                Some(v) => seq_apply(self.fs@, datum@) == Some(v@),
                None => seq_apply(self.fs@, datum@) is None,
            },
    {
        let ghost x0 = datum@;
        let mut cur = datum;
        let mut i: usize = 0;
        proof {
            assert(self.fs@.skip(0) =~= self.fs@);
        }
        while i < self.fs.len()
            invariant
                x0 == datum@,
                0 <= i <= self.fs@.len(),
                seq_apply(self.fs@, x0) == seq_apply(self.fs@.skip(i as int), cur@),
            decreases self.fs@.len() - i,
        {
            proof {
                assert(self.fs@.skip(i as int)[0] == self.fs@[i as int]);
                assert(self.fs@.skip(i as int).skip(1) =~= self.fs@.skip(i + 1));
            }
            match self.fs[i].apply(&cur) {
                Some(v) => {
                    cur = v;
                },
                None => {
                    proof {
                        assert(seq_apply(self.fs@.skip(i as int), cur@) is None);
                    }
                    return None;
                },
            }
            i += 1;
        }
        proof {
            assert(self.fs@.skip(self.fs@.len() as int) =~= Seq::<S>::empty());
        }
        Some(cur)
    }
}

/// One stage of a map/shuffle/reduce pipeline, exposing the three phases
/// separately: a map function from raw bytes to keyed records, the
/// grouping of those records by key, and a reduce function folding each
/// group.
pub struct PipelineStage<M, R> {
    pub map_func: M,
    pub reduce_func: R,
}

impl<M, R> PipelineStage<M, R> {
    /// Runs the map phase over one input.
    pub fn apply_map<K: DeepView, V, W: Keyable<K, V>>(&self, bytes: Vec<u8>) -> (r: Vec<
        W,
    >) where M: Fn(Vec<u8>) -> Vec<W>
        requires
            call_requires(self.map_func, (bytes,)),
        ensures
            call_ensures(self.map_func, (bytes,), r),
    {
        (self.map_func)(bytes)
    }

    /// Groups the map phase's records by key: one group per distinct key in
    /// first-occurrence order, each holding that key's values in input
    /// order.
    pub fn apply_shuffle<K: DeepView, V: Copy, W: Keyable<K, V>>(&self, map_outputs: Vec<W>) -> (r:
        Vec<(K, Vec<V>)>)
        ensures
            shuffle_post::<K, V, W>(map_outputs@, r@),
    {
        group_by_key(&map_outputs)
    }

    /// Folds each group with the reduce function.
    pub fn apply_reduce<K, V>(&self, grouped: Vec<(K, Vec<V>)>) -> (r: Vec<(K, V)>) where
        R: Fn(K, &Vec<V>) -> (K, V),

        requires
            forall|i: int|
                0 <= i < grouped@.len() ==> call_requires(
                    self.reduce_func,
                    ((#[trigger] grouped@[i]).0, &grouped@[i].1),
                ),
        ensures
            r@.len() == grouped@.len(),
            forall|i: int|
                0 <= i < grouped@.len() ==> call_ensures(
                    self.reduce_func,
                    ((#[trigger] grouped@[i]).0, &grouped@[i].1),
                    r@[i],
                ),
    {
        let ghost g0 = grouped@;
        let mut rem = grouped;
        let mut out: Vec<(K, V)> = Vec::new();
        proof {
            assert(g0.skip(0) =~= g0);
        }
        while rem.len() > 0
            invariant
                out@.len() + rem@.len() == g0.len(),
                rem@ == g0.skip(out@.len() as int),
                forall|i: int|
                    0 <= i < g0.len() ==> call_requires(
                        self.reduce_func,
                        ((#[trigger] g0[i]).0, &g0[i].1),
                    ),
                forall|i: int|
                    0 <= i < out@.len() ==> call_ensures(
                        self.reduce_func,
                        ((#[trigger] g0[i]).0, &g0[i].1),
                        out@[i],
                    ),
            decreases rem@.len(),
        {
            let ghost done = out@.len() as int;
            let (k, vs) = rem.remove(0);
            proof {
                assert(g0.skip(done)[0] == g0[done]);
                assert(g0.skip(done).skip(1) =~= g0.skip(done + 1));
            }
            let folded = (self.reduce_func)(k, &vs);
            out.push(folded);
        }
        proof {
            assert(out@.len() == g0.len());
        }
        out
    }
}

} // verus!
