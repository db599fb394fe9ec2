//! The laws of the library on concrete values, and its edge cases.

use prompt_eval_rubric::average::overall_score;
use prompt_eval_rubric::score::{clip01, first_named};
use prompt_eval_rubric::text::list;
use prompt_eval_rubric::{
    Binary64, PanicPayload, Report, Rubric, RubricSet, RubricSetError, Score,
};
use serde_json::Value;

type Simple = Box<dyn Fn(&str, Option<&Value>) -> Result<Binary64, PanicPayload>>;
type Reasoned =
    Box<dyn Fn(&str, Option<&Value>) -> Result<(Binary64, Option<String>), PanicPayload>>;
type BoxedRubric = Rubric<Simple, Reasoned>;
type BoxedSet = RubricSet<Simple, Reasoned>;

fn num(x: f64) -> Binary64 {
    Binary64 { bits: x.to_bits() }
}

fn float(x: Binary64) -> f64 {
    f64::from_bits(x.bits)
}

/// A rubric from a scorer that gives a value.
fn simple(name: &str, f: impl Fn(&str, Option<&Value>) -> f64 + 'static) -> BoxedRubric {
    let scorer: Simple = Box::new(move |out, ctx| Ok(num(f(out, ctx))));
    Rubric::new(name.to_string(), scorer)
}

/// A rubric from a scorer that gives a value and a reason.
fn reasoned(
    name: &str,
    f: impl Fn(&str, Option<&Value>) -> (f64, Option<String>) + 'static,
) -> BoxedRubric {
    let scorer: Reasoned = Box::new(move |out, ctx| {
        let (value, reason) = f(out, ctx);
        Ok((num(value), reason))
    });
    Rubric::with_reason(name.to_string(), scorer)
}

/// A rubric whose scorer panics with a message.
fn panicking(name: &str, message: &'static str) -> BoxedRubric {
    let scorer: Simple = Box::new(move |_, _| Err(PanicPayload::Message(message.to_string())));
    Rubric::new(name.to_string(), scorer)
}

fn overall(values: &[f64], weights: &[f64]) -> f64 {
    let v: Vec<Binary64> = values.iter().map(|x| num(*x)).collect();
    let w: Vec<Binary64> = weights.iter().map(|x| num(*x)).collect();
    float(overall_score(&v, &w))
}

#[test]
fn clipping_keeps_the_unit_interval_and_the_order() {
    for v in [0.0, -0.0, 0.25, 1.0, 5e-324] {
        assert_eq!(clip01(num(v)).bits, num(v).bits);
    }
    assert_eq!(float(clip01(num(-1.0))), 0.0);
    assert_eq!(float(clip01(num(2.0))), 1.0);
    assert_eq!(float(clip01(num(f64::INFINITY))), 1.0);
    assert_eq!(float(clip01(num(f64::NEG_INFINITY))), 0.0);
    assert!(float(clip01(num(-3.0))) <= float(clip01(num(0.5))));
    assert!(float(clip01(num(0.5))) <= float(clip01(num(7.0))));
}

#[test]
fn no_total_weight_gives_zero() {
    assert_eq!(overall(&[1.0, 1.0], &[0.0, 0.0]), 0.0);
    assert_eq!(overall(&[1.0, 1.0], &[0.0, -0.0]), 0.0);
    assert_eq!(overall(&[1.0, 1.0], &[1.0, f64::NAN]), 0.0);
    assert_eq!(overall(&[1.0, 1.0], &[1.0, f64::INFINITY]), 0.0);
}

#[test]
fn a_zero_weight_can_be_left_out() {
    assert_eq!(overall(&[0.3, 1.0, 0.7], &[2.0, 0.0, 3.0]), overall(&[0.3, 0.7], &[2.0, 3.0]));
}

#[test]
fn a_zero_weight_rubric_never_counts() {
    let build = |v: f64| {
        RubricSet::new(vec![
            (simple("a", |_, _| 0.3), num(2.0)),
            (simple("b", move |_, _| v), num(0.0)),
            (simple("c", |_, _| 0.7), num(3.0)),
        ])
        .unwrap()
    };
    let expected = build(0.0).evaluate("x", None).overall;
    for v in [0.2, 1.0, -4.0, f64::INFINITY, f64::NAN] {
        assert!(build(v).evaluate("x", None).overall == expected);
    }
}

#[test]
fn scaling_keeps_weights_without_a_finite_sum_at_zero() {
    for w in [f64::INFINITY, f64::NAN] {
        assert_eq!(overall(&[0.5, 1.0], &[w, 3.0]), overall(&[0.5, 1.0], &[w * 4.0, 12.0]));
        assert_eq!(overall(&[0.5, 1.0], &[w, 3.0]), 0.0);
    }
}

#[test]
fn names_are_found_by_place() {
    let (a, b) = ("a".to_string(), "b".to_string());
    assert_eq!(first_named(&vec![&b, &a, &b, &a], "a"), Some(1));
    assert_eq!(first_named(&vec![&b], "a"), None);
    assert_eq!(first_named(&vec![], "a"), None);
}

#[test]
fn all_ones_and_all_zeros() {
    assert_eq!(overall(&[1.0, 1.0, 1.0], &[0.1, 0.2, 0.7]), 1.0);
    assert_eq!(overall(&[0.0, 0.0, 0.0], &[0.1, 0.2, 0.7]), 0.0);
    assert_eq!(overall(&[0.0], &[f64::INFINITY]), 0.0);
}

#[test]
fn better_scores_rank_higher() {
    let weights = [0.2, 0.3, 0.5];
    assert!(overall(&[0.1, 0.5, 0.9], &weights) <= overall(&[0.1, 0.6, 0.9], &weights));
    assert!(overall(&[0.1, 0.5, 0.9], &weights) <= overall(&[0.4, 0.5, 1.0], &weights));
}

#[test]
fn only_the_ratios_of_weights_matter() {
    let values = [0.1, 0.5, 0.9];
    let weights = [0.2, 0.3, 0.5];
    let expected = overall(&values, &weights);
    for k in -300..300 {
        let p = 2.0f64.powi(k);
        let scaled: Vec<f64> = weights.iter().map(|w| w * p).collect();
        assert_eq!(overall(&values, &scaled), expected);
    }
    assert_eq!(overall(&[1.0, 0.0], &[2.0, 6.0]), 0.25);

    let build = |p: f64| {
        RubricSet::new(vec![
            (simple("a", |out, _| out.len() as f64 / 7.0), num(0.3 * p)),
            (reasoned("b", |_, _| (0.6, Some("so".to_string()))), num(0.9 * p)),
        ])
        .unwrap()
    };
    let report = build(1.0).evaluate("abc", None);
    let larger = build(1024.0).evaluate("abc", None);
    assert!(larger.scores == report.scores);
    assert!(larger.overall == report.overall);
}

#[test]
fn scaling_holds_at_the_smallest_normal_number_and_for_exact_products() {
    let tiny = f64::MIN_POSITIVE;
    assert_eq!(overall(&[1.0, 0.0], &[tiny, tiny]), overall(&[1.0, 0.0], &[1.0, 1.0]));
    let unit = 5e-324;
    assert_eq!(overall(&[1.0, 0.0], &[unit, 3.0 * unit]), overall(&[1.0, 0.0], &[1.0, 3.0]));
    // Half a unit is lost where a whole one is not.
    assert_eq!(overall(&[0.5, 0.0], &[unit, unit]), 0.0);
    assert_eq!(overall(&[0.5, 0.0], &[1.0, 1.0]), 0.25);
    // Both sums overflow.
    assert_eq!(overall(&[1.0, 1.0], &[f64::MAX, f64::MAX]), 0.0);
}

#[test]
fn a_single_rubric_is_the_overall() {
    for v in [0.0, 0.02, 0.3, 0.9, 1.0] {
        let set = RubricSet::uniform(vec![simple("only", move |_, _| v)]).unwrap();
        assert_eq!(float(set.evaluate("x", None).overall), v);
    }
}

#[test]
fn the_first_fault_is_reported() {
    let build = |entries: Vec<(&str, f64)>| {
        BoxedSet::new(
            entries.into_iter().map(|(n, w)| (simple(n, |_, _| 1.0), num(w))).collect(),
        )
        .err()
    };
    assert_eq!(
        build(vec![("a", 1.0), ("a", 1.0), ("b", -1.0)]),
        Some(RubricSetError::DuplicateName("a".to_string()))
    );
    assert_eq!(
        build(vec![("a", 1.0), ("b", -1.0), ("a", 1.0)]),
        Some(RubricSetError::NegativeWeight("b".to_string()))
    );
    assert_eq!(
        build(vec![("a", 1.0), ("a", -1.0)]),
        Some(RubricSetError::NegativeWeight("a".to_string()))
    );
    assert_eq!(build(vec![]), Some(RubricSetError::Empty));
    assert_eq!(build(vec![("a", -0.0), ("b", f64::NAN), ("c", f64::INFINITY)]), None);
    assert_eq!(
        build(vec![("a", f64::NEG_INFINITY)]),
        Some(RubricSetError::NegativeWeight("a".to_string()))
    );
}

#[test]
fn uniform_sets_reject_duplicates_and_nothing() {
    assert_eq!(BoxedSet::uniform(vec![]).err(), Some(RubricSetError::Empty));
    assert_eq!(
        RubricSet::uniform(vec![simple("x", |_, _| 1.0), simple("x", |_, _| 1.0)]).err(),
        Some(RubricSetError::DuplicateName("x".to_string()))
    );
}

#[test]
fn messages_are_exact() {
    assert_eq!(
        RubricSetError::DuplicateName("n".to_string()).to_string(),
        "duplicate rubric name: n"
    );
    assert_eq!(
        RubricSetError::NegativeWeight("n".to_string()).to_string(),
        "negative weight for rubric: n"
    );
    assert_eq!(PanicPayload::Message("oops".to_string()).reason(), "panic: oops");
    assert_eq!(PanicPayload::Opaque.reason(), "panic in rubric scorer");
}

#[test]
fn panics_are_isolated_and_weigh_as_zero() {
    let opaque: Reasoned = Box::new(|_, _| Err(PanicPayload::Opaque));
    let set = RubricSet::uniform(vec![
        simple("good", |_, _| 0.8),
        panicking("bad", "no"),
        Rubric::with_reason("worse".to_string(), opaque),
        reasoned("fine", |_, _| (0.4, None)),
    ])
    .unwrap();
    let report = set.evaluate("x", None);
    assert_eq!(float(report.scores[0].value), 0.8);
    assert_eq!(report.scores[0].reason, None);
    assert_eq!(report.scores[1].reason.as_deref(), Some("panic: no"));
    assert_eq!(report.scores[2].reason.as_deref(), Some("panic in rubric scorer"));
    assert_eq!(float(report.scores[3].value), 0.4);
    assert_eq!(report.scores[3].reason, None);
    assert_eq!(float(report.overall), overall(&[0.8, 0.0, 0.0, 0.4], &[1.0; 4]));
}

#[test]
fn reports_follow_the_set() {
    let set = RubricSet::new(vec![
        (simple("b", |_, _| 5.0), num(3.0)),
        (simple("a", |_, _| 0.25), num(1.0)),
    ])
    .unwrap();
    let report = set.evaluate("x", None);
    let names: Vec<&str> = report.scores.iter().map(|s| s.name.as_str()).collect();
    assert_eq!(names, set.rubric_names());
    assert!(report.by_name("a") == Some(&report.scores[1]));
    assert!(report.by_name("c").is_none());
    assert_eq!(float(report.overall), 0.8125);
    let again = set.report(report.scores.clone());
    assert!(again.overall == report.overall);
}

#[test]
fn lookup_gives_the_first_of_a_name() {
    let score = |v: f64| Score { name: "n".to_string(), value: num(v), reason: None };
    let report = Report { scores: vec![score(0.1), score(0.2)], overall: num(0.0) };
    assert_eq!(report.by_name("n").map(|s| float(s.value)), Some(0.1));
}

#[test]
fn outcomes_become_scores() {
    let s = Score::from_outcome("n".to_string(), Ok((num(7.0), Some("why".to_string()))));
    let expected =
        Score { name: "n".to_string(), value: num(1.0), reason: Some("why".to_string()) };
    assert!(s == expected);
    let s = Score::from_outcome("n".to_string(), Err(PanicPayload::Opaque));
    assert_eq!(float(s.value), 0.0);
}

#[test]
fn debug_output_names_the_rubrics() {
    assert_eq!(simple("length", |_, _| 1.0).debug_string(), "Rubric(length)");
    let set =
        RubricSet::uniform(vec![simple("al\"pha", |_, _| 1.0), simple("beta", |_, _| 0.0)]).unwrap();
    assert_eq!(set.debug_string(), format!("RubricSet({:?})", set.rubric_names()));
    assert_eq!(set.debug_string(), "RubricSet([\"al\\\"pha\", \"beta\"])");
    assert_eq!(list(&vec![]), "[]");
    assert_eq!(list(&vec!["a".to_string()]), "[a]");
    assert_eq!(list(&vec!["a".to_string(), "b".to_string()]), "[a, b]");
}
