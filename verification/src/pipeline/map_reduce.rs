//! A simple map/shuffle/reduce pipeline: the map phase produces keyed
//! records, the shuffle phase groups them by key, and the reduce phase folds
//! each group to one record.

use vstd::prelude::*;

verus! {

/// A keyed record: something the shuffle phase can group.  Implementors
/// say what their key and value are (`key_spec`, `value_spec`), hand them
/// out (`get_key`, `get_value`), and supply the key comparison the grouping
/// runs on, which must agree with key equality.
pub trait Keyable<K: DeepView, V>: Sized {
    /// The record's key, as the mathematical value of `K`.
    spec fn key_spec(&self) -> K::V;

    /// The record's value.
    spec fn value_spec(&self) -> V;

    /// Hands out the record's key.
    fn get_key(&self) -> (k: K)
        ensures
            k.deep_view() == self.key_spec(),
    ;

    /// Hands out the record's value.
    fn get_value(&self) -> (v: &V)
        ensures
            *v == self.value_spec(),
    ;

    /// Compares two keys.
    fn key_eq(a: &K, b: &K) -> (r: bool)
        ensures
            r == (a.deep_view() == b.deep_view()),
    ;
}

/// The distinct keys among the first `i` records, in first-occurrence
/// order.
pub open spec fn key_list<K: DeepView, V, W: Keyable<K, V>>(ws: Seq<W>, i: int) -> Seq<K::V>
    decreases i,
{
    if i <= 0 {
        Seq::empty()
    } else {
        let d = key_list::<K, V, W>(ws, i - 1);
        if d.contains(ws[i - 1].key_spec()) {
            d
        } else {
            d.push(ws[i - 1].key_spec())
        }
    }
}

/// The values of the first `i` records whose key is `k`, in input order.
pub open spec fn group_values<K: DeepView, V, W: Keyable<K, V>>(
    ws: Seq<W>,
    k: K::V,
    i: int,
) -> Seq<V>
    decreases i,
{
    if i <= 0 {
        Seq::empty()
    } else {
        group_values::<K, V, W>(ws, k, i - 1) + if ws[i - 1].key_spec() == k {
            seq![ws[i - 1].value_spec()]
        } else {
            Seq::empty()
        }
    }
}

/// What the shuffle phase returns for the records `ws`: one group per
/// distinct key in first-occurrence order, each group holding exactly that
/// key's values in input order.
pub open spec fn shuffle_post<K: DeepView, V, W: Keyable<K, V>>(
    ws: Seq<W>,
    groups: Seq<(K, Vec<V>)>,
) -> bool {
    let n = ws.len() as int;
    &&& groups.len() == key_list::<K, V, W>(ws, n).len()
    &&& forall|i: int|
        0 <= i < groups.len() ==> (#[trigger] groups[i].0).deep_view() == key_list::<K, V, W>(
            ws,
            n,
        )[i]
    &&& forall|i: int|
        0 <= i < groups.len() ==> (#[trigger] groups[i].1)@ == group_values::<K, V, W>(
            ws,
            key_list::<K, V, W>(ws, n)[i],
            n,
        )
}

/// Groups records by key: the verified shuffle.  Two passes: collect the
/// distinct keys in first-occurrence order, then gather each key's values
/// in input order.
pub(crate) fn group_by_key<K: DeepView, V: Copy, W: Keyable<K, V>>(ws: &Vec<W>) -> (r: Vec<
    (K, Vec<V>),
>)
    ensures
        shuffle_post::<K, V, W>(ws@, r@),
{
    let ghost n = ws@.len() as int;
    let mut keys: Vec<K> = Vec::new();
    let mut j: usize = 0;
    proof {
        assert(keys@.map_values(|k: K| k.deep_view()) =~= key_list::<K, V, W>(ws@, 0));
    }
    while j < ws.len()
        invariant
            0 <= j <= ws@.len(),
            n == ws@.len() as int,
            keys@.map_values(|k: K| k.deep_view()) == key_list::<K, V, W>(ws@, j as int),
        decreases ws@.len() - j,
    {
        let ghost d = key_list::<K, V, W>(ws@, j as int);
        let k = ws[j].get_key();
        let mut found = false;
        let mut idx: usize = 0;
        while idx < keys.len() && !found
            invariant
                0 <= idx <= keys@.len(),
                found ==> exists|q: int|
                    0 <= q < keys@.len() && (#[trigger] keys@[q]).deep_view() == k.deep_view(),
                !found ==> forall|q: int|
                    0 <= q < idx ==> (#[trigger] keys@[q]).deep_view() != k.deep_view(),
            decreases keys@.len() - idx + if found {
                0int
            } else {
                1int
            },
        {
            if W::key_eq(&keys[idx], &k) {
                found = true;
            } else {
                idx += 1;
            }
        }
        proof {
            if found {
                let q = choose|q: int|
                    0 <= q < keys@.len() && (#[trigger] keys@[q]).deep_view() == k.deep_view();
                assert(keys@.map_values(|k2: K| k2.deep_view())[q] == k.deep_view());
                assert(d.contains(ws@[j as int].key_spec()));
            } else {
                if d.contains(ws@[j as int].key_spec()) {
                    let q = choose|q: int| 0 <= q < d.len() && #[trigger] d[q] == ws@[
                        j as int].key_spec();
                    assert(keys@.map_values(|k2: K| k2.deep_view())[q] == d[q]);
                    assert(keys@[q].deep_view() == k.deep_view());
                    assert(false);
                }
            }
        }
        if !found {
            keys.push(k);
            proof {
                assert(keys@.map_values(|k2: K| k2.deep_view()) =~= d.push(
                    ws@[j as int].key_spec(),
                ));
            }
        }
        j += 1;
    }
    let ghost full_keys = key_list::<K, V, W>(ws@, n);
    let ghost keys0 = keys@;
    let mut groups: Vec<(K, Vec<V>)> = Vec::new();
    let mut rem = keys;
    proof {
        assert(keys0.skip(0) =~= keys0);
    }
    while rem.len() > 0
        invariant
            n == ws@.len() as int,
            keys0.map_values(|k: K| k.deep_view()) == full_keys,
            groups@.len() + rem@.len() == keys0.len(),
            rem@ == keys0.skip(groups@.len() as int),
            forall|i: int|
                0 <= i < groups@.len() ==> (#[trigger] groups@[i].0).deep_view() == full_keys[i],
            forall|i: int|
                0 <= i < groups@.len() ==> (#[trigger] groups@[i].1)@ == group_values::<K, V, W>(
                    ws@,
                    full_keys[i],
                    n,
                ),
        decreases rem@.len(),
    {
        let ghost gi = groups@.len() as int;
        let k = rem.remove(0);
        proof {
            assert(keys0.skip(gi)[0] == keys0[gi]);
            assert(keys0.skip(gi).skip(1) =~= keys0.skip(gi + 1));
            assert(keys0.map_values(|k2: K| k2.deep_view())[gi] == full_keys[gi]);
            assert(k.deep_view() == full_keys[gi]);
        }
        let mut vals: Vec<V> = Vec::new();
        let mut j2: usize = 0;
        proof {
            assert(vals@ =~= group_values::<K, V, W>(ws@, k.deep_view(), 0));
        }
        while j2 < ws.len()
            invariant
                0 <= j2 <= ws@.len(),
                n == ws@.len() as int,
                vals@ == group_values::<K, V, W>(ws@, k.deep_view(), j2 as int),
            decreases ws@.len() - j2,
        {
            let wk = ws[j2].get_key();
            if W::key_eq(&wk, &k) {
                let v = ws[j2].get_value();
                vals.push(*v);
                proof {
                    assert(vals@ =~= group_values::<K, V, W>(ws@, k.deep_view(), j2 + 1));
                }
            } else {
                proof {
                    assert(vals@ =~= group_values::<K, V, W>(ws@, k.deep_view(), j2 + 1));
                }
            }
            j2 += 1;
        }
        groups.push((k, vals));
        proof {
            assert(groups@[gi].0.deep_view() == full_keys[gi]);
        }
    }
    proof {
        assert(groups@.len() == full_keys.len());
    }
    groups
}

/// The map/shuffle/reduce pipeline as one unit: `apply` chains the three
/// phases over one input.
pub struct MapReduce<M, R> {
    pub map_func: M,
    pub reduce_func: R,
}

impl<M, R> MapReduce<M, R> {
    /// Runs map, shuffle and reduce in order over one raw input.  The
    /// result is one folded record per distinct key produced by the map
    /// phase, in first-occurrence order of the keys.
    pub fn apply<K: DeepView, V: Copy, W: Keyable<K, V>>(&self, bytes: Vec<u8>) -> (r: Vec<
        (K, V),
    >) where M: Fn(Vec<u8>) -> Vec<W>, R: Fn(K, &Vec<V>) -> (K, V)
        requires
            call_requires(self.map_func, (bytes,)),
            forall|mo: Vec<W>, groups: Seq<(K, Vec<V>)>, i: int|
                #![trigger call_ensures(self.map_func, (bytes,), mo), groups[i]]
                call_ensures(self.map_func, (bytes,), mo) && shuffle_post::<K, V, W>(mo@, groups)
                    && 0 <= i < groups.len() ==> call_requires(
                    self.reduce_func,
                    (groups[i].0, &groups[i].1),
                ),
        ensures
            exists|mo: Vec<W>, groups: Seq<(K, Vec<V>)>|
                {
                    &&& call_ensures(self.map_func, (bytes,), mo)
                    &&& #[trigger] shuffle_post::<K, V, W>(mo@, groups)
                    &&& r@.len() == groups.len()
                    &&& forall|i: int|
                        0 <= i < groups.len() ==> call_ensures(
                            self.reduce_func,
                            ((#[trigger] groups[i]).0, &groups[i].1),
                            r@[i],
                        )
                },
    {
        let map_output = self.apply_map(bytes);
        let shuffle_output = self.apply_shuffle(map_output);
        let ghost groups = shuffle_output@;
        let reduce_output = self.apply_reduce(shuffle_output);
        reduce_output
    }

    /// The map phase.
    fn apply_map<W>(&self, bytes: Vec<u8>) -> (r: Vec<W>) where M: Fn(Vec<u8>) -> Vec<W>
        requires
            call_requires(self.map_func, (bytes,)),
        ensures
            call_ensures(self.map_func, (bytes,), r),
    {
        (self.map_func)(bytes)
    }

    /// The shuffle phase: grouping by key.
    fn apply_shuffle<K: DeepView, V: Copy, W: Keyable<K, V>>(&self, map_outputs: Vec<W>) -> (r:
        Vec<(K, Vec<V>)>)
        ensures
            shuffle_post::<K, V, W>(map_outputs@, r@),
    {
        group_by_key(&map_outputs)
    }

    /// The reduce phase: folding each group.
    fn apply_reduce<K, V>(&self, grouped: Vec<(K, Vec<V>)>) -> (r: Vec<(K, V)>) where R: Fn(
        K,
        &Vec<V>,
    ) -> (K, V)
        requires
            forall|i: int|
                0 <= i < grouped@.len() ==> call_requires(
                    self.reduce_func,
                    ((#[trigger] grouped@[i]).0, &grouped@[i].1),
                ),
        ensures
            r@.len() == grouped@.len(),
            forall|i: int|
                0 <= i < grouped@.len() ==> call_ensures(
                    self.reduce_func,
                    ((#[trigger] grouped@[i]).0, &grouped@[i].1),
                    r@[i],
                ),
    {
        let ghost g0 = grouped@;
        let mut rem = grouped;
        let mut out: Vec<(K, V)> = Vec::new();
        proof {
            assert(g0.skip(0) =~= g0);
        }
        while rem.len() > 0
            invariant
                out@.len() + rem@.len() == g0.len(),
                rem@ == g0.skip(out@.len() as int),
                forall|i: int|
                    0 <= i < g0.len() ==> call_requires(
                        self.reduce_func,
                        ((#[trigger] g0[i]).0, &g0[i].1),
                    ),
                forall|i: int|
                    0 <= i < out@.len() ==> call_ensures(
                        self.reduce_func,
                        ((#[trigger] g0[i]).0, &g0[i].1),
                        out@[i],
                    ),
            decreases rem@.len(),
        {
            let ghost done = out@.len() as int;
            let (k, vs) = rem.remove(0);
            proof {
                assert(g0.skip(done)[0] == g0[done]);
                assert(g0.skip(done).skip(1) =~= g0.skip(done + 1));
            }
            let folded = (self.reduce_func)(k, &vs);
            out.push(folded);
        }
        out
    }
}

} // verus!
