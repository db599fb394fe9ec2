//! Whole evaluations, as a downstream crate would run them.

use prompt_eval_rubric::{Binary64, PanicPayload, Rubric, RubricSet, RubricSetError};
use serde_json::Value;

type Simple = Box<dyn Fn(&str, Option<&Value>) -> Result<Binary64, PanicPayload>>;
type Reasoned =
    Box<dyn Fn(&str, Option<&Value>) -> Result<(Binary64, Option<String>), PanicPayload>>;
type BoxedRubric = Rubric<Simple, Reasoned>;
type BoxedSet = RubricSet<Simple, Reasoned>;

fn num(x: f64) -> Binary64 {
    Binary64 { bits: x.to_bits() }
}

fn float(x: Binary64) -> f64 {
    f64::from_bits(x.bits)
}

/// A rubric from a scorer that gives a value.
fn simple(name: &str, f: impl Fn(&str, Option<&Value>) -> f64 + 'static) -> BoxedRubric {
    let scorer: Simple = Box::new(move |out, ctx| Ok(num(f(out, ctx))));
    Rubric::new(name.to_string(), scorer)
}

/// A rubric from a scorer that gives a value and a reason.
fn reasoned(
    name: &str,
    f: impl Fn(&str, Option<&Value>) -> (f64, Option<String>) + 'static,
) -> BoxedRubric {
    let scorer: Reasoned = Box::new(move |out, ctx| {
        let (value, reason) = f(out, ctx);
        Ok((num(value), reason))
    });
    Rubric::with_reason(name.to_string(), scorer)
}

/// A rubric whose scorer panics with a message.
fn panicking(name: &str, message: &'static str) -> BoxedRubric {
    let scorer: Simple = Box::new(move |_, _| Err(PanicPayload::Message(message.to_string())));
    Rubric::new(name.to_string(), scorer)
}

/// The end-to-end example should aggregate to a score above 0.5 for a short,
/// valid JSON payload.
#[test]
fn readme_example_end_to_end() {
    let length = simple("length", |out: &str, _| {
        let n = out.len();
        if (10..=200).contains(&n) {
            1.0
        } else {
            0.0
        }
    });
    let has_json = simple("has_json", |out: &str, _| {
        if serde_json::from_str::<serde_json::Value>(out).is_ok() {
            1.0
        } else {
            0.0
        }
    });

    let set = RubricSet::new(vec![(length, num(0.4)), (has_json, num(0.6))]).unwrap();
    let report = set.evaluate(r#"{"key": "value"}"#, None);

    assert!(float(report.overall) > 0.5, "overall was {}", float(report.overall));
    assert_eq!(report.scores.len(), 2);
    assert_eq!(float(report.by_name("has_json").unwrap().value), 1.0);
    assert_eq!(float(report.by_name("length").unwrap().value), 1.0);
}

/// Weights need not sum to 1.0; they are normalized by their total.
/// (1.0 * 2 + 0.0 * 6) / (2 + 6) = 0.25
#[test]
fn unnormalized_weights_are_normalized() {
    let good = simple("good", |_, _| 1.0);
    let bad = simple("bad", |_, _| 0.0);
    let set = RubricSet::new(vec![(good, num(2.0)), (bad, num(6.0))]).unwrap();
    let report = set.evaluate("anything", None);
    assert!(
        (float(report.overall) - 0.25).abs() < 1e-9,
        "got {}",
        float(report.overall)
    );
}

/// A panicking rubric must not abort the whole set: its score becomes 0.0
/// while the other rubrics still contribute.
#[test]
fn one_panicking_rubric_does_not_poison_the_set() {
    let solid = simple("solid", |_, _| 1.0);
    let boom = panicking("boom", "kaboom");
    let set = RubricSet::uniform(vec![solid, boom]).unwrap();
    let report = set.evaluate("x", None);

    // (1.0 + 0.0) / 2
    assert!(
        (float(report.overall) - 0.5).abs() < 1e-9,
        "got {}",
        float(report.overall)
    );
    let boom_score = report.by_name("boom").unwrap();
    assert_eq!(float(boom_score.value), 0.0);
    assert!(boom_score.reason.as_deref().unwrap_or("").contains("panic"));
}

/// Context (the second scorer argument) is threaded through to every rubric.
#[test]
fn context_is_passed_to_rubrics() {
    let expects_paris = simple("matches_expected", |out: &str, ctx| {
        let expected = ctx.and_then(|c| c.get("expected")).and_then(|v| v.as_str());
        if expected == Some(out) {
            1.0
        } else {
            0.0
        }
    });
    let set = RubricSet::uniform(vec![expects_paris]).unwrap();

    let mut fields = serde_json::Map::new();
    fields.insert("expected".to_string(), Value::String("Paris".to_string()));
    let ctx = Value::Object(fields);
    assert_eq!(float(set.evaluate("Paris", Some(&ctx)).overall), 1.0);
    assert_eq!(float(set.evaluate("London", Some(&ctx)).overall), 0.0);
}

/// `with_reason` rubrics surface their explanation string in the report.
#[test]
fn with_reason_surfaces_explanation() {
    let r = reasoned("verbosity", |out: &str, _| {
        let words = out.split_whitespace().count();
        if words >= 3 {
            (1.0, Some(format!("{words} words")))
        } else {
            (0.0, Some("too terse".to_owned()))
        }
    });
    let set = RubricSet::uniform(vec![r]).unwrap();

    let report = set.evaluate("one two three four", None);
    let score = report.by_name("verbosity").unwrap();
    assert_eq!(float(score.value), 1.0);
    assert_eq!(score.reason.as_deref(), Some("4 words"));
}

/// Construction errors are reported rather than panicking.
#[test]
fn construction_errors_are_typed() {
    assert_eq!(BoxedSet::new(vec![]).err().unwrap(), RubricSetError::Empty);

    let dup_err = RubricSet::new(vec![
        (simple("same", |_, _| 1.0), num(1.0)),
        (simple("same", |_, _| 0.0), num(1.0)),
    ])
    .err()
    .unwrap();
    assert!(matches!(dup_err, RubricSetError::DuplicateName(name) if name == "same"));

    let neg_err = RubricSet::new(vec![(simple("a", |_, _| 1.0), num(-0.5))]).err().unwrap();
    assert!(matches!(neg_err, RubricSetError::NegativeWeight(name) if name == "a"));
}

/// Errors have human-readable messages.
#[test]
fn errors_display_human_messages() {
    let err = BoxedSet::new(vec![]).err().unwrap();
    assert_eq!(err.to_string(), "RubricSet requires at least one rubric");

    let dup = RubricSetError::DuplicateName("foo".to_owned());
    assert!(dup.to_string().contains("foo"));
}

/// Out-of-range scorer outputs are clamped into [0.0, 1.0] and NaN becomes 0.0.
#[test]
fn scores_are_clamped_into_unit_interval() {
    let high = simple("high", |_, _| 12.0);
    let low = simple("low", |_, _| -3.0);
    let nan = simple("nan", |_, _| f64::NAN);
    let set = RubricSet::uniform(vec![high, low, nan]).unwrap();
    let report = set.evaluate("x", None);

    assert_eq!(float(report.by_name("high").unwrap().value), 1.0);
    assert_eq!(float(report.by_name("low").unwrap().value), 0.0);
    assert_eq!(float(report.by_name("nan").unwrap().value), 0.0);
    // (1.0 + 0.0 + 0.0) / 3
    assert!((float(report.overall) - 1.0 / 3.0).abs() < 1e-9);
}

/// `rubric_names` preserves insertion order.
#[test]
fn rubric_names_preserve_order() {
    let set = RubricSet::uniform(vec![
        simple("first", |_, _| 1.0),
        simple("second", |_, _| 1.0),
        simple("third", |_, _| 1.0),
    ])
    .unwrap();
    assert_eq!(set.rubric_names(), vec!["first", "second", "third"]);
}
