use flowgraph::graph::easy_functions::{add_five, add_one, square, EasyFn};
use flowgraph::pipeline::map_reduce::{Keyable, MapReduce};
use flowgraph::pipeline::word_count::{word_count_mapper, word_count_reducer};
use flowgraph::pipeline::{MapLikeSeq, PipelineStage};

#[test]
fn map_like_seq_applies_stages_in_order() {
    let seq = MapLikeSeq::new(vec![EasyFn::AddOne, EasyFn::AddFive]);
    assert_eq!(seq.apply(vec![1, 2]).unwrap(), vec![7, 8]);
}

#[test]
fn map_like_seq_with_no_stages_is_identity() {
    let seq: MapLikeSeq<EasyFn> = MapLikeSeq::new(vec![]);
    assert_eq!(seq.apply(vec![4, 5]).unwrap(), vec![4, 5]);
}

#[test]
fn map_like_seq_fails_when_a_stage_fails() {
    let seq = MapLikeSeq::new(vec![EasyFn::AddOne, EasyFn::Fail, EasyFn::AddFive]);
    assert!(seq.apply(vec![1]).is_none());
}

#[test]
fn word_count_mapper_tokenizes_and_lowercases() {
    let words = word_count_mapper(b"Hello World".to_vec());
    assert_eq!(words.len(), 2);
    assert_eq!(words[0].get_key(), "hello");
    assert_eq!(*words[0].get_value(), 1);
    assert_eq!(words[1].get_key(), "world");
}

#[test]
fn word_count_mapper_keeps_empty_tokens() {
    let words = word_count_mapper(b"a  b".to_vec());
    assert_eq!(words.len(), 3);
    assert_eq!(words[0].get_key(), "a");
    assert_eq!(words[1].get_key(), "");
    assert_eq!(words[2].get_key(), "b");
}

#[test]
fn word_count_reducer_sums_counts() {
    let (k, n) = word_count_reducer(String::from("x"), &vec![1, 2, 3]);
    assert_eq!(k, "x");
    assert_eq!(n, 6);
}

#[test]
fn word_count_end_to_end() {
    let line = b"hello world yo universe hello yp yo yop".to_vec();
    let pipeline = MapReduce { map_func: word_count_mapper, reduce_func: word_count_reducer };
    let counts = pipeline.apply(line);
    assert_eq!(counts.len(), 6);
    assert_eq!(counts[0], (String::from("hello"), 2));
    assert_eq!(counts[1], (String::from("world"), 1));
    assert_eq!(counts[2], (String::from("yo"), 2));
    assert_eq!(counts[3], (String::from("universe"), 1));
    assert_eq!(counts[4], (String::from("yp"), 1));
    assert_eq!(counts[5], (String::from("yop"), 1));
}

#[test]
fn pipeline_stage_phases_compose() {
    let stage = PipelineStage { map_func: word_count_mapper, reduce_func: word_count_reducer };
    let mapped = stage.apply_map(b"a b a".to_vec());
    let grouped = stage.apply_shuffle(mapped);
    assert_eq!(grouped.len(), 2);
    assert_eq!(grouped[0].0, "a");
    assert_eq!(grouped[0].1, vec![1, 1]);
    assert_eq!(grouped[1].0, "b");
    assert_eq!(grouped[1].1, vec![1]);
    let reduced = stage.apply_reduce(grouped);
    assert_eq!(reduced, vec![(String::from("a"), 2), (String::from("b"), 1)]);
}

#[test]
fn named_stages_match_their_enum_forms() {
    assert_eq!(add_one(vec![1, 2]).unwrap(), vec![2, 3]);
    assert_eq!(add_five(vec![1, 2]).unwrap(), vec![6, 7]);
    assert_eq!(square(vec![-3, 4]).unwrap(), vec![9, 16]);
    assert!(add_one(vec![i64::MAX]).is_none());
    assert!(square(vec![i64::MAX]).is_none());
}

#[test]
fn word_count_lowercases_beyond_ascii() {
    let line = "Héllo HÉLLO wörld".as_bytes().to_vec();
    let pipeline = MapReduce { map_func: word_count_mapper, reduce_func: word_count_reducer };
    let counts = pipeline.apply(line);
    assert_eq!(counts, vec![(String::from("héllo"), 2), (String::from("wörld"), 1)]);
}
