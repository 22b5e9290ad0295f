//! A small library of concrete arithmetic stages over `i64` elements, used to
//! assemble example graphs and to exercise the engine.

use vstd::prelude::*;

verus! {

use crate::transform::Transform;

/// True when adding `d` to every element of `xs` stays within `i64`.
pub open spec fn map_add_ok(xs: Seq<i64>, d: int) -> bool {
    forall|i: int| 0 <= i < xs.len() ==> i64::MIN <= #[trigger] xs[i] + d <= i64::MAX
}

/// Every element of `xs` shifted by `d`.
pub open spec fn map_add(xs: Seq<i64>, d: int) -> Seq<i64> {
    xs.map_values(|x: i64| (x + d) as i64)
}

/// True when squaring every element of `xs` stays within `i64`.
pub open spec fn map_square_ok(xs: Seq<i64>) -> bool {
    forall|i: int| 0 <= i < xs.len() ==> #[trigger] xs[i] * xs[i] <= i64::MAX
}

/// Every element of `xs` squared.
pub open spec fn map_square(xs: Seq<i64>) -> Seq<i64> {
    xs.map_values(|x: i64| (x * x) as i64)
}

/// The sum of `xs` as an unbounded integer.
pub open spec fn sum_int(xs: Seq<i64>) -> int
    decreases xs.len(),
{
    if xs.len() == 0 {
        0
    } else {
        sum_int(xs.drop_last()) + xs.last()
    }
}

/// True when every running prefix sum of `xs` stays within `i64`, so that a
/// left-to-right summation never overflows.
pub open spec fn sum_ok(xs: Seq<i64>) -> bool {
    forall|i: int| 0 <= i <= xs.len() ==> i64::MIN <= sum_int(#[trigger] xs.take(i)) <= i64::MAX
}

/// A ready-made transform stage.  `AddOne`, `AddFive` and `Square` work
/// elementwise; `Sum` collapses its input to a single-element vector, which
/// makes it sensitive to how branches are merged at a join; `Fail` always
/// fails, standing in for a stage that aborts.  The arithmetic stages fail
/// (rather than wrap) when a result leaves `i64`.
#[derive(Clone, Copy, Debug, PartialEq, Eq)]
pub enum EasyFn {
    AddOne,
    AddFive,
    Square,
    Sum,
    Fail,
}

impl Transform for EasyFn {
    type Elem = i64;

    open spec fn spec_apply(&self, xs: Seq<i64>) -> Option<Seq<i64>> {
        match self {
            EasyFn::AddOne => if map_add_ok(xs, 1) {
                Some(map_add(xs, 1))
            } else {
                None
            },
            EasyFn::AddFive => if map_add_ok(xs, 5) {
                Some(map_add(xs, 5))
            } else {
                None
            },
            EasyFn::Square => if map_square_ok(xs) {
                Some(map_square(xs))
            } else {
                None
            },
            EasyFn::Sum => if sum_ok(xs) {
                Some(seq![sum_int(xs) as i64])
            } else {
                None
            },
            EasyFn::Fail => None,
        }
    }

    fn apply(&self, xs: &Vec<i64>) -> (r: Option<Vec<i64>>) {
        match self {
            EasyFn::AddOne => add_elementwise(xs, 1),
            EasyFn::AddFive => add_elementwise(xs, 5),
            EasyFn::Square => square_elementwise(xs),
            EasyFn::Sum => sum_to_single(xs),
            EasyFn::Fail => None,
        }
    }
}

/// Adds `d` to every element, failing on overflow.
fn add_elementwise(xs: &Vec<i64>, d: i64) -> (r: Option<Vec<i64>>)
    ensures
        match r {
            Some(v) => map_add_ok(xs@, d as int) && v@ == map_add(xs@, d as int),
            None => !map_add_ok(xs@, d as int),
        },
{
    let mut out: Vec<i64> = Vec::new();
    let mut i: usize = 0;
    while i < xs.len()
        invariant
            0 <= i <= xs@.len(),
            out@.len() == i,
            forall|j: int| 0 <= j < i ==> i64::MIN <= #[trigger] xs@[j] + d <= i64::MAX,
            forall|j: int| 0 <= j < i ==> out@[j] == (xs@[j] + d) as i64,
        decreases xs@.len() - i,
    {
        match xs[i].checked_add(d) {
            Some(y) => {
                out.push(y);
            },
            None => {
                return None;
            },
        }
        i += 1;
    }
    assert(out@ =~= map_add(xs@, d as int));
    Some(out)
}

/// Squares every element, failing on overflow.
fn square_elementwise(xs: &Vec<i64>) -> (r: Option<Vec<i64>>)
    ensures
        match r {
            Some(v) => map_square_ok(xs@) && v@ == map_square(xs@),
            None => !map_square_ok(xs@),
        },
{
    let mut out: Vec<i64> = Vec::new();
    let mut i: usize = 0;
    while i < xs.len()
        invariant
            0 <= i <= xs@.len(),
            out@.len() == i,
            forall|j: int| 0 <= j < i ==> #[trigger] xs@[j] * xs@[j] <= i64::MAX,
            forall|j: int| 0 <= j < i ==> out@[j] == (xs@[j] * xs@[j]) as i64,
        decreases xs@.len() - i,
    {
        match xs[i].checked_mul(xs[i]) {
            Some(y) => {
                out.push(y);
            },
            None => {
                proof {
                    let xi = xs@[i as int];
                    assert(xi * xi >= 0) by (nonlinear_arith);
                    assert(!map_square_ok(xs@));
                }
                return None;
            },
        }
        i += 1;
    }
    assert(out@ =~= map_square(xs@));
    Some(out)
}

/// Sums all elements into a single-element vector, failing when a running
/// prefix sum overflows.
fn sum_to_single(xs: &Vec<i64>) -> (r: Option<Vec<i64>>)
    ensures
        match r {
            Some(v) => sum_ok(xs@) && v@ == seq![sum_int(xs@) as i64],
            None => !sum_ok(xs@),
        },
{
    let mut acc: i64 = 0;
    let mut i: usize = 0;
    proof {
        assert(xs@.take(0) =~= Seq::<i64>::empty());
    }
    while i < xs.len()
        invariant
            0 <= i <= xs@.len(),
            acc == sum_int(xs@.take(i as int)),
            forall|j: int| 0 <= j <= i ==> i64::MIN <= sum_int(#[trigger] xs@.take(j)) <= i64::MAX,
        decreases xs@.len() - i,
    {
        proof {
            assert(xs@.take(i + 1).drop_last() =~= xs@.take(i as int));
            assert(xs@.take(i + 1).last() == xs@[i as int]);
        }
        match acc.checked_add(xs[i]) {
            Some(y) => {
                acc = y;
            },
            None => {
                return None;
            },
        }
        i += 1;
    }
    proof {
        assert(xs@.take(xs@.len() as int) =~= xs@);
    }
    let mut out: Vec<i64> = Vec::new();
    out.push(acc);
    assert(out@ =~= seq![sum_int(xs@) as i64]);
    Some(out)
}


/// Adds one to every element; the stage behind [`EasyFn::AddOne`].
pub fn add_one(xs: Vec<i64>) -> (r: Option<Vec<i64>>)
    ensures
        match r {
            Some(v) => map_add_ok(xs@, 1) && v@ == map_add(xs@, 1),
            None => !map_add_ok(xs@, 1),
        },
{
    add_elementwise(&xs, 1)
}

/// Adds five to every element; the stage behind [`EasyFn::AddFive`].
pub fn add_five(xs: Vec<i64>) -> (r: Option<Vec<i64>>)
    ensures
        match r {
            Some(v) => map_add_ok(xs@, 5) && v@ == map_add(xs@, 5),
            None => !map_add_ok(xs@, 5),
        },
{
    add_elementwise(&xs, 5)
}

/// Squares every element; the stage behind [`EasyFn::Square`].
pub fn square(xs: Vec<i64>) -> (r: Option<Vec<i64>>)
    ensures
        match r {
            Some(v) => map_square_ok(xs@) && v@ == map_square(xs@),
            None => !map_square_ok(xs@),
        },
{
    square_elementwise(&xs)
}

} // verus!
