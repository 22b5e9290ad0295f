//! Word counting over the map/shuffle/reduce pipeline: the mapper decodes
//! a UTF-8 line, lower-cases it, splits it on spaces and emits one count
//! per token; the reducer sums a token's counts.

use vstd::prelude::*;

verus! {

use vstd::utf8::{decode_utf8, valid_utf8};
use crate::pipeline::map_reduce::Keyable;
use crate::stupid_work::{split_chars, split_spaces, utf8_to_string};

/// One token observation: a word and how often it was seen.
pub struct WordCount {
    word: String,
    count: i32,
}

impl Keyable<String, i32> for WordCount {
    closed spec fn key_spec(&self) -> Seq<char> {
        self.word@
    }

    closed spec fn value_spec(&self) -> i32 {
        self.count
    }

    fn get_key(&self) -> (k: String) {
        self.word.clone()
    }

    fn get_value(&self) -> (v: &i32) {
        &self.count
    }

    fn key_eq(a: &String, b: &String) -> (r: bool) {
        <String as PartialEq>::eq(a, b)
    }
}

/// What lower-casing a character sequence yields.  Unicode lower-casing
/// takes pages to state, but it is a function of the characters alone, so
/// it gets a name; `lowercase` below ties the name to the standard
/// library's implementation.
pub uninterp spec fn lower_of(s: Seq<char>) -> Seq<char>;

/// Relies on `str::to_lowercase`: the result depends on the characters
/// alone, and an empty string stays empty.
#[verifier::external_body]
fn lowercase(s: &str) -> (r: String)
    ensures
        r@ == lower_of(s@),
        s@.len() == 0 ==> r@.len() == 0,
{
    s.to_lowercase()
}

/// The sum of a sequence of counts, as an unbounded integer.
pub open spec fn sum_counts(xs: Seq<i32>) -> int
    decreases xs.len(),
{
    if xs.len() == 0 {
        0
    } else {
        sum_counts(xs.drop_last()) + xs.last()
    }
}

/// True when every running prefix sum of `xs` stays within `i32`.
pub open spec fn sum_counts_ok(xs: Seq<i32>) -> bool {
    forall|i: int| 0 <= i <= xs.len() ==> i32::MIN <= sum_counts(#[trigger] xs.take(i)) <= i32::MAX
}

/// The tokens the mapper emits for a raw line: decode it, lower-case it,
/// split it on spaces keeping empty tokens.
pub open spec fn mapped_tokens(raw: Seq<u8>) -> Seq<Seq<char>> {
    split_chars(lower_of(decode_utf8(raw)))
}

/// The map phase of word counting: decodes the UTF-8 input, lower-cases
/// it, splits it on spaces keeping empty tokens, and emits each token with
/// a count of one.
pub fn word_count_mapper(raw: Vec<u8>) -> (r: Vec<WordCount>)
    requires
        valid_utf8(raw@),
    ensures
        r@.len() == mapped_tokens(raw@).len(),
        forall|k: int|
            0 <= k < r@.len() ==> (#[trigger] r@[k]).key_spec() == mapped_tokens(raw@)[k],
        forall|k: int| 0 <= k < r@.len() ==> (#[trigger] r@[k]).value_spec() == 1i32,
{
    let text = match utf8_to_string(raw) {
        Some(s) => s,
        None => {
            proof {
                assert(false);
            }
            String::new()
        },
    };
    let lowered = lowercase(text.as_str());
    let tokens = split_spaces(lowered.as_str());
    let ghost toks = mapped_tokens(raw@);
    let mut rem = tokens;
    let mut out: Vec<WordCount> = Vec::new();
    proof {
        assert(rem@.map_values(|t: String| t@) == toks);
        assert(rem@.skip(0) =~= rem@);
    }
    let ghost tokens0 = rem@;
    while rem.len() > 0
        invariant
            tokens0.map_values(|t: String| t@) == toks,
            out@.len() + rem@.len() == tokens0.len(),
            rem@ == tokens0.skip(out@.len() as int),
            forall|k: int|
                0 <= k < out@.len() ==> (#[trigger] out@[k]).key_spec() == toks[k],
            forall|k: int| 0 <= k < out@.len() ==> (#[trigger] out@[k]).value_spec() == 1i32,
        decreases rem@.len(),
    {
        let ghost done = out@.len() as int;
        let word = rem.remove(0);
        proof {
            assert(tokens0.skip(done)[0] == tokens0[done]);
            assert(tokens0.skip(done).skip(1) =~= tokens0.skip(done + 1));
            assert(tokens0.map_values(|t: String| t@)[done] == toks[done]);
        }
        out.push(WordCount { word, count: 1 });
    }
    out
}

/// The reduce phase of word counting: sums a token's counts.
pub fn word_count_reducer(key: String, vs: &Vec<i32>) -> (r: (String, i32))
    requires
        sum_counts_ok(vs@),
    ensures
        r.0 == key,
        r.1 == sum_counts(vs@),
{
    let mut acc: i32 = 0;
    let mut i: usize = 0;
    proof {
        assert(vs@.take(0) =~= Seq::<i32>::empty());
    }
    while i < vs.len()
        invariant
            0 <= i <= vs@.len(),
            acc == sum_counts(vs@.take(i as int)),
            sum_counts_ok(vs@),
        decreases vs@.len() - i,
    {
        proof {
            assert(vs@.take(i + 1).drop_last() =~= vs@.take(i as int));
            assert(vs@.take(i + 1).last() == vs@[i as int]);
        }
        match acc.checked_add(vs[i]) {
            Some(y) => {
                acc = y;
            },
            None => {
                proof {
                    assert(false);
                }
            },
        }
        i += 1;
    }
    proof {
        assert(vs@.take(vs@.len() as int) =~= vs@);
    }
    (key, acc)
}

} // verus!
