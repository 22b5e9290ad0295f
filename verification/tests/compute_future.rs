use flowgraph::compute::{compute, ComputeNode, Work};
use flowgraph::future::{Future, PollableFuture, WritableFuture};
use flowgraph::graph::easy_functions::EasyFn;
use flowgraph::stupid_work::{tokenize, Text};

#[test]
fn compute_drives_a_work_unit_through_the_chain() {
    let last = ComputeNode { curr: EasyFn::Square, next: None };
    let first = ComputeNode { curr: EasyFn::AddOne, next: Some(Box::new(last)) };
    let r = compute(Work { datum: vec![2, 3], compute_node: &first });
    assert_eq!(r.unwrap(), vec![9, 16]);
}

#[test]
fn compute_fails_when_a_stage_fails() {
    let last = ComputeNode { curr: EasyFn::Fail, next: None };
    let first = ComputeNode { curr: EasyFn::AddOne, next: Some(Box::new(last)) };
    assert!(compute(Work { datum: vec![2], compute_node: &first }).is_none());
}

#[test]
fn future_is_empty_until_published() {
    let mut f: Future<i64> = Future::new();
    assert_eq!(f.get(), None);
    assert_eq!(f.get(), None);
}

#[test]
fn future_hands_out_the_published_value_once() {
    let mut f: Future<i64> = Future::new();
    f.put(5);
    assert_eq!(f.busy_poll(), Some(5));
}

#[test]
fn future_keeps_the_first_published_value() {
    let mut f: Future<&str> = Future::new();
    f.put("first");
    f.put("second");
    assert_eq!(f.get(), Some("first"));
}

#[test]
fn tokenize_splits_text_and_keeps_metadata() {
    let t = Text { text: String::from("one two  three"), ts: 42, version: String::from("v1") };
    let toks = tokenize(&t);
    assert_eq!(toks.ts, 42);
    assert_eq!(toks.version, "v1");
    assert_eq!(toks.tokens, vec!["one", "two", "", "three"]);
}

#[test]
fn tokenize_handles_text_beyond_ascii() {
    let t = Text { text: String::from("héllo wörld ação"), ts: 7, version: String::from("v1") };
    let toks = tokenize(&t);
    assert_eq!(toks.tokens, vec!["héllo", "wörld", "ação"]);
}
