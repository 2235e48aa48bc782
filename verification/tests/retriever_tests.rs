use ranked_cache::retriever::{AttrValue, Predicate, RankedRetriever, Record, Score, ScoredResult};
use ranked_cache::CoreError;

fn rec(id: &str, vector: Vec<i16>) -> Record {
    Record { id: id.to_string(), vector, attributes: Vec::new() }
}

fn rec_with(id: &str, vector: Vec<i16>, attributes: Vec<(String, AttrValue)>) -> Record {
    Record { id: id.to_string(), vector, attributes }
}

fn cosine(s: &Score) -> f64 {
    match s {
        Score::NotComparable => f64::NEG_INFINITY,
        Score::Cos { dot, qnorm2, vnorm2 } => {
            (*dot as f64) / ((*qnorm2 as f64).sqrt() * (*vnorm2 as f64).sqrt())
        }
    }
}

#[test]
fn score_exact_values() {
    let r = RankedRetriever;
    let q = vec![1i16, 0];
    assert_eq!(
        r.score(&q, &vec![1i16, 0]).unwrap(),
        Score::Cos { dot: 1, qnorm2: 1, vnorm2: 1 }
    );
    assert_eq!(
        r.score(&q, &vec![0i16, 1]).unwrap(),
        Score::Cos { dot: 0, qnorm2: 1, vnorm2: 1 }
    );
    assert_eq!(
        r.score(&q, &vec![-1i16, 0]).unwrap(),
        Score::Cos { dot: -1, qnorm2: 1, vnorm2: 1 }
    );
}

#[test]
fn score_dimension_mismatch() {
    let r = RankedRetriever;
    let q = vec![1i16, 0];
    assert_eq!(r.score(&q, &vec![1i16, 0, 0]), Err(CoreError::DimensionMismatch));
}

#[test]
fn score_zero_norm_is_not_comparable() {
    let r = RankedRetriever;
    let q = vec![1i16, 0];
    assert_eq!(r.score(&q, &vec![0i16, 0]).unwrap(), Score::NotComparable);
    assert_eq!(r.score(&vec![0i16, 0], &q).unwrap(), Score::NotComparable);
}

#[test]
fn score_scale_invariant() {
    // cosine of a vector and of a positively scaled copy are equal
    let r = RankedRetriever;
    let q = vec![3i16, 4];
    let v = vec![2i16, 1];
    let w = vec![6i16, 3];
    let sv = r.score(&q, &v).unwrap();
    let sw = r.score(&q, &w).unwrap();
    assert!((cosine(&sv) - cosine(&sw)).abs() < 1e-12);
    // and exactly, by cross-multiplication of the squared quotients
    match (sv, sw) {
        (Score::Cos { dot: dv, vnorm2: nv, .. }, Score::Cos { dot: dw, vnorm2: nw, .. }) => {
            assert!(dv >= 0 && dw >= 0);
            assert_eq!((dv as i128) * (dv as i128) * (nw as i128), (dw as i128) * (dw as i128) * (nv as i128));
        }
        _ => panic!("expected comparable scores"),
    }
}

#[test]
fn rank_scenario_top_two() {
    // query [1,0] over {x:[1,0], y:[0,1], z:[-1,0]}, k = 2:
    // x scores 1.0, y scores 0.0, z scores -1.0 and is cut off
    let r = RankedRetriever;
    let q = vec![1i16, 0];
    let records = vec![rec("x", vec![1, 0]), rec("y", vec![0, 1]), rec("z", vec![-1, 0])];
    let out: Vec<ScoredResult> = r.rank(records, &q, 2).unwrap();
    assert_eq!(out.len(), 2);
    assert_eq!(out[0].record.id, "x");
    assert_eq!(cosine(&out[0].score), 1.0);
    assert_eq!(out[1].record.id, "y");
    assert_eq!(cosine(&out[1].score), 0.0);
}

#[test]
fn rank_k_at_least_len_returns_all_sorted() {
    let r = RankedRetriever;
    let q = vec![1i16, 0];
    let records = vec![rec("z", vec![-1, 0]), rec("y", vec![0, 1]), rec("x", vec![1, 0])];
    let out = r.rank(records, &q, 10).unwrap();
    assert_eq!(out.len(), 3);
    let ids: Vec<&str> = out.iter().map(|s| s.record.id.as_str()).collect();
    assert_eq!(ids, vec!["x", "y", "z"]);
    for w in out.windows(2) {
        assert!(cosine(&w[0].score) >= cosine(&w[1].score));
    }
}

#[test]
fn rank_zero_k_is_empty() {
    let r = RankedRetriever;
    let q = vec![1i16, 0];
    let records = vec![rec("x", vec![1, 0])];
    let out = r.rank(records, &q, 0).unwrap();
    assert!(out.is_empty());
}

#[test]
fn rank_dimension_mismatch_fails_whole_call() {
    let r = RankedRetriever;
    let q = vec![1i16, 0];
    let records = vec![rec("x", vec![1, 0]), rec("bad", vec![1, 0, 0])];
    assert_eq!(r.rank(records, &q, 5), Err(CoreError::DimensionMismatch));
}

#[test]
fn rank_zero_norm_sorts_last() {
    let r = RankedRetriever;
    let q = vec![1i16, 0];
    let records = vec![rec("null", vec![0, 0]), rec("worst", vec![-1, 0]), rec("best", vec![1, 0])];
    let out = r.rank(records, &q, 3).unwrap();
    let ids: Vec<&str> = out.iter().map(|s| s.record.id.as_str()).collect();
    assert_eq!(ids, vec!["best", "worst", "null"]);
    assert_eq!(out[2].score, Score::NotComparable);
}

#[test]
fn rank_ties_keep_input_order() {
    let r = RankedRetriever;
    let q = vec![1i16, 1];
    // equal vectors score equally; the earlier record stays first
    let records = vec![rec("first", vec![2, 2]), rec("second", vec![2, 2]), rec("third", vec![4, 4])];
    let out = r.rank(records, &q, 3).unwrap();
    let ids: Vec<&str> = out.iter().map(|s| s.record.id.as_str()).collect();
    // all three are scalings of the query: all tied, input order kept
    assert_eq!(ids, vec!["first", "second", "third"]);
}

fn range(attr: &str, min: i64, max: i64) -> Predicate {
    Predicate::Range { attr: attr.to_string(), min, max }
}

fn set_intersects(attr: &str, values: &[&str]) -> Predicate {
    Predicate::SetIntersects {
        attr: attr.to_string(),
        values: values.iter().map(|s| s.to_string()).collect(),
    }
}

fn num_attr(name: &str, x: i64) -> (String, AttrValue) {
    (name.to_string(), AttrValue::Num(x))
}

fn words_attr(name: &str, words: &[&str]) -> (String, AttrValue) {
    (
        name.to_string(),
        AttrValue::Words(words.iter().map(|s| s.to_string()).collect()),
    )
}

#[test]
fn filter_empty_predicates_keeps_everything_in_order() {
    let r = RankedRetriever;
    let records = vec![rec("a", vec![1]), rec("b", vec![2]), rec("c", vec![3])];
    let out = r.filter(records, &Vec::new());
    let ids: Vec<&str> = out.iter().map(|x| x.id.as_str()).collect();
    assert_eq!(ids, vec!["a", "b", "c"]);
}

#[test]
fn filter_by_range_is_inclusive() {
    let r = RankedRetriever;
    let records = vec![
        rec_with("young", vec![1], vec![num_attr("age", 19)]),
        rec_with("low", vec![1], vec![num_attr("age", 20)]),
        rec_with("high", vec![1], vec![num_attr("age", 40)]),
        rec_with("old", vec![1], vec![num_attr("age", 41)]),
    ];
    let out = r.filter(records, &vec![range("age", 20, 40)]);
    let ids: Vec<&str> = out.iter().map(|x| x.id.as_str()).collect();
    assert_eq!(ids, vec!["low", "high"]);
}

#[test]
fn filter_by_set_intersection() {
    let r = RankedRetriever;
    let records = vec![
        rec_with("hiker", vec![1], vec![words_attr("interests", &["reading", "hiking"])]),
        rec_with("gamer", vec![1], vec![words_attr("interests", &["gaming", "cooking"])]),
    ];
    let out = r.filter(records, &vec![set_intersects("interests", &["hiking"])]);
    let ids: Vec<&str> = out.iter().map(|x| x.id.as_str()).collect();
    assert_eq!(ids, vec!["hiker"]);
}

#[test]
fn filter_missing_attribute_does_not_match() {
    let r = RankedRetriever;
    let records = vec![
        rec_with("with", vec![1], vec![num_attr("age", 30)]),
        rec_with("without", vec![1], vec![]),
    ];
    let out = r.filter(records, &vec![range("age", 0, 100)]);
    let ids: Vec<&str> = out.iter().map(|x| x.id.as_str()).collect();
    assert_eq!(ids, vec!["with"]);
}

#[test]
fn filter_wrong_shape_does_not_match() {
    let r = RankedRetriever;
    let records = vec![
        rec_with("words", vec![1], vec![words_attr("age", &["thirty"])]),
        rec_with("num", vec![1], vec![num_attr("age", 30)]),
    ];
    let out = r.filter(records, &vec![range("age", 0, 100)]);
    let ids: Vec<&str> = out.iter().map(|x| x.id.as_str()).collect();
    assert_eq!(ids, vec!["num"]);
}

#[test]
fn filter_is_monotonic_in_predicates() {
    let r = RankedRetriever;
    let make = || {
        vec![
            rec_with("a", vec![1], vec![num_attr("age", 30), words_attr("tags", &["x"])]),
            rec_with("b", vec![1], vec![num_attr("age", 50), words_attr("tags", &["x"])]),
            rec_with("c", vec![1], vec![num_attr("age", 30), words_attr("tags", &["y"])]),
        ]
    };
    let one = r.filter(make(), &vec![range("age", 0, 40)]);
    let two = r.filter(make(), &vec![range("age", 0, 40), set_intersects("tags", &["x"])]);
    assert!(two.len() <= one.len());
    for kept in &two {
        assert!(one.iter().any(|x| x.id == kept.id));
    }
    assert_eq!(one.len(), 2);
    assert_eq!(two.len(), 1);
    assert_eq!(two[0].id, "a");
}

#[test]
fn filter_then_rank_composes() {
    let r = RankedRetriever;
    let q = vec![1i16, 0];
    let records = vec![
        rec_with("far", vec![-1, 0], vec![num_attr("age", 30)]),
        rec_with("out", vec![1, 0], vec![num_attr("age", 99)]),
        rec_with("near", vec![1, 0], vec![num_attr("age", 30)]),
    ];
    let kept = r.filter(records, &vec![range("age", 20, 40)]);
    let out = r.rank(kept, &q, 10).unwrap();
    let ids: Vec<&str> = out.iter().map(|s| s.record.id.as_str()).collect();
    assert_eq!(ids, vec!["near", "far"]);
}
