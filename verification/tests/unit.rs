//! Rubrics, sets of them and their reports, one behaviour at a time.

use prompt_eval_rubric::{Binary64, PanicPayload, Rubric, RubricSet, RubricSetError};
use serde_json::Value;

type Simple = Box<dyn Fn(&str, Option<&Value>) -> Result<Binary64, PanicPayload>>;
type Reasoned =
    Box<dyn Fn(&str, Option<&Value>) -> Result<(Binary64, Option<String>), PanicPayload>>;
type BoxedRubric = Rubric<Simple, Reasoned>;
type BoxedSet = RubricSet<Simple, Reasoned>;

fn num(x: f64) -> Binary64 {
    Binary64 { bits: x.to_bits() }
}

fn float(x: Binary64) -> f64 {
    f64::from_bits(x.bits)
}

/// A rubric from a scorer that gives a value.
fn simple(name: &str, f: impl Fn(&str, Option<&Value>) -> f64 + 'static) -> BoxedRubric {
    let scorer: Simple = Box::new(move |out, ctx| Ok(num(f(out, ctx))));
    Rubric::new(name.to_string(), scorer)
}

/// A rubric from a scorer that gives a value and a reason.
fn reasoned(
    name: &str,
    f: impl Fn(&str, Option<&Value>) -> (f64, Option<String>) + 'static,
) -> BoxedRubric {
    let scorer: Reasoned = Box::new(move |out, ctx| {
        let (value, reason) = f(out, ctx);
        Ok((num(value), reason))
    });
    Rubric::with_reason(name.to_string(), scorer)
}

/// A rubric whose scorer panics with a message.
fn panicking(name: &str, message: &'static str) -> BoxedRubric {
    let scorer: Simple = Box::new(move |_, _| Err(PanicPayload::Message(message.to_string())));
    Rubric::new(name.to_string(), scorer)
}

fn rubric(name: &str, v: f64) -> BoxedRubric {
    simple(name, move |_, _| v)
}

#[test]
fn single_rubric_evaluate() {
    let r = simple("length", |out, _| if out.len() >= 5 { 1.0 } else { 0.0 });
    let s = r.evaluate("hello world", None);
    assert_eq!(s.name, "length");
    assert_eq!(float(s.value), 1.0);
    assert!(s.reason.is_none());
}

#[test]
fn single_rubric_with_reason() {
    let r = reasoned("check", |out, _| {
        let n = out.len();
        if n > 5 {
            (1.0, Some(format!("len={n} ok")))
        } else {
            (0.0, Some("too short".to_owned()))
        }
    });
    let s = r.evaluate("hello world", None);
    assert_eq!(float(s.value), 1.0);
    assert!(s.reason.unwrap().contains("ok"));

    let s2 = r.evaluate("hi", None);
    assert_eq!(float(s2.value), 0.0);
    assert_eq!(s2.reason.as_deref(), Some("too short"));
}

#[test]
fn clips_value_below_zero() {
    let r = simple("neg", |_, _| -5.0);
    assert_eq!(float(r.evaluate("x", None).value), 0.0);
}

#[test]
fn clips_value_above_one() {
    let r = simple("high", |_, _| 99.0);
    assert_eq!(float(r.evaluate("x", None).value), 1.0);
}

#[test]
fn panicking_rubric_scores_zero() {
    let r = panicking("panic_rubric", "oops");
    let s = r.evaluate("anything", None);
    assert_eq!(float(s.value), 0.0);
    assert!(s.reason.as_deref().unwrap_or("").contains("panic"));
}

#[test]
fn rubric_set_uniform_overall() {
    let set = RubricSet::uniform(vec![
        rubric("r1", 1.0),
        rubric("r2", 0.5),
        rubric("r3", 0.0),
    ])
    .unwrap();
    let r = set.evaluate("x", None);
    // (1.0 + 0.5 + 0.0) / 3 = 0.5
    assert!((float(r.overall) - 0.5).abs() < 1e-9);
}

#[test]
fn rubric_set_weighted() {
    let a = simple("a", |_, _| 1.0);
    let b = simple("b", |_, _| 0.0);
    let set = RubricSet::new(vec![(a, num(0.8)), (b, num(0.2))]).unwrap();
    let r = set.evaluate("x", None);
    // (1.0*0.8 + 0.0*0.2) / 1.0 = 0.8
    assert!((float(r.overall) - 0.8).abs() < 1e-9);
}

#[test]
fn report_by_name() {
    let set = RubricSet::uniform(vec![
        simple("alpha", |_, _| 0.9),
        simple("beta", |_, _| 0.3),
    ])
    .unwrap();
    let r = set.evaluate("test", None);
    let alpha = r.by_name("alpha").unwrap();
    assert_eq!(float(alpha.value), 0.9);
    let beta = r.by_name("beta").unwrap();
    assert_eq!(float(beta.value), 0.3);
    assert!(r.by_name("gamma").is_none());
}

#[test]
fn empty_rubric_set_errors() {
    let err = BoxedSet::new(vec![]).err().unwrap();
    assert_eq!(err, RubricSetError::Empty);
}

#[test]
fn duplicate_name_errors() {
    let a = simple("dup", |_, _| 1.0);
    let b = simple("dup", |_, _| 0.5);
    let err = RubricSet::new(vec![(a, num(1.0)), (b, num(1.0))]).err().unwrap();
    assert!(matches!(err, RubricSetError::DuplicateName(_)));
}

#[test]
fn negative_weight_errors() {
    let a = simple("a", |_, _| 1.0);
    let err = RubricSet::new(vec![(a, num(-1.0))]).err().unwrap();
    assert!(matches!(err, RubricSetError::NegativeWeight(_)));
}

#[test]
fn rubric_receives_context() {
    let r = simple("ctx_check", |_out, ctx| {
        if ctx.and_then(|c| c.as_str()) == Some("expected") {
            1.0
        } else {
            0.0
        }
    });
    let s = r.evaluate("anything", Some(&Value::String("expected".to_string())));
    assert_eq!(float(s.value), 1.0);
    let s2 = r.evaluate("anything", Some(&Value::String("wrong".to_string())));
    assert_eq!(float(s2.value), 0.0);
}

#[test]
fn rubric_no_context() {
    let r = simple("no_ctx", |out, ctx| {
        assert!(ctx.is_none());
        out.len() as f64 / 100.0
    });
    let s = r.evaluate("hi", None);
    assert_eq!(float(s.value), 0.02);
}

#[test]
fn zero_weight_in_set_excluded_from_overall() {
    let a = simple("a", |_, _| 0.0);
    let b = simple("b", |_, _| 1.0);
    let set = RubricSet::new(vec![(a, num(0.0)), (b, num(1.0))]).unwrap();
    let r = set.evaluate("x", None);
    assert!((float(r.overall) - 1.0).abs() < 1e-9);
}

#[test]
fn scores_count_matches_rubric_count() {
    let set = RubricSet::uniform(vec![
        simple("r1", |_, _| 1.0),
        simple("r2", |_, _| 0.5),
        simple("r3", |_, _| 0.0),
    ])
    .unwrap();
    let r = set.evaluate("x", None);
    assert_eq!(r.scores.len(), 3);
}

#[test]
fn rubric_names_accessor() {
    let set = RubricSet::uniform(vec![
        simple("alpha", |_, _| 1.0),
        simple("beta", |_, _| 0.0),
    ])
    .unwrap();
    let names = set.rubric_names();
    assert_eq!(names, vec!["alpha", "beta"]);
}

#[test]
fn nan_output_from_scorer_clips_to_zero() {
    let r = simple("nan_r", |_, _| f64::NAN);
    assert_eq!(float(r.evaluate("x", None).value), 0.0);
}
