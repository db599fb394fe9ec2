//! One scoring axis.

use crate::binary64::Binary64;
use crate::score;
use crate::score::{Outcome, PanicPayload, Score};
use serde_json::Value;
use vstd::prelude::*;
use vstd::string::*;

verus! {

/// `serde_json::Value`, the reference data that is handed to every scorer. It
/// is carried through and never looked into: nothing is claimed of it.
#[verifier::external_type_specification]
#[verifier::external_body]
pub struct ExValue(serde_json::Value);

/// A scorer, with or without a reason for its value.
pub enum Scorer<S, R> {
    Simple(S),
    WithReason(R),
}

/// One scoring axis, wrapping a callable from an output and a context to a
/// score.
///
/// A scorer hands back the panic that ended it as an `Err`: whoever wraps a
/// function that can panic catches the panic and says what it left behind.
pub struct Rubric<S, R> {
    pub name: String,
    pub scorer: Scorer<S, R>,
}

/// Whether the simple scorer `score` may come to `outcome`, which carries no
/// reason.
pub open spec fn simple_outcome<S>(
    score: S,
    output: &str,
    context: Option<&Value>,
    outcome: Outcome,
) -> bool
where
    S: Fn(&str, Option<&Value>) -> Result<Binary64, PanicPayload>,
{
    match outcome {
        Ok((value, reason)) => reason is None && call_ensures(score, (output, context), Ok(value)),
        Err(payload) => call_ensures(score, (output, context), Err(payload)),
    }
}

impl<S, R> Rubric<S, R>
where
    S: Fn(&str, Option<&Value>) -> Result<Binary64, PanicPayload>,
    R: Fn(&str, Option<&Value>) -> Outcome,
{
    /// Whether the scorer may be called with this output and context. A scorer
    /// that unwinds instead of handing its panic back may not be called.
    pub open spec fn accepts(self, output: &str, context: Option<&Value>) -> bool {
        match self.scorer {
            Scorer::Simple(f) => call_requires(f, (output, context)),
            Scorer::WithReason(f) => call_requires(f, (output, context)),
        }
    }

    /// Whether the scorer may come to `outcome` on this output and context.
    pub open spec fn gives(self, output: &str, context: Option<&Value>, outcome: Outcome) -> bool {
        match self.scorer {
            Scorer::Simple(f) => simple_outcome(f, output, context, outcome),
            Scorer::WithReason(f) => call_ensures(f, (output, context), outcome),
        }
    }

    /// Whether `s` scores what the scorer may return for exactly this output and
    /// context.
    pub open spec fn scored(self, output: &str, context: Option<&Value>, s: Score) -> bool {
        match self.scorer {
            Scorer::Simple(f) => {
                ||| exists|v: Binary64|
                    {
                        &&& #[trigger] call_ensures(f, (output, context), Ok(v))
                        &&& s.value == v.clipped()
                        &&& s.reason is None
                    }
                ||| exists|p: PanicPayload|
                    {
                        &&& #[trigger] call_ensures(f, (output, context), Err(p))
                        &&& s.value.bits == 0
                        &&& s.reason is Some
                        &&& p matches PanicPayload::Message(m) ==> s.reason->0@ == "panic: "@
                            + m@
                        &&& p is Opaque ==> s.reason->0@ == "panic in rubric scorer"@
                    }
            },
            Scorer::WithReason(f) => {
                ||| exists|v: Binary64, reason: Option<String>|
                    {
                        &&& #[trigger] call_ensures(f, (output, context), Ok((v, reason)))
                        &&& s.value == v.clipped()
                        &&& s.reason == reason
                    }
                ||| exists|p: PanicPayload|
                    {
                        &&& #[trigger] call_ensures(f, (output, context), Err(p))
                        &&& s.value.bits == 0
                        &&& s.reason is Some
                        &&& p matches PanicPayload::Message(m) ==> s.reason->0@ == "panic: "@
                            + m@
                        &&& p is Opaque ==> s.reason->0@ == "panic in rubric scorer"@
                    }
            },
        }
    }

    /// Create from a simple scorer, which gives a value and no reason.
    pub fn new(name: String, score: S) -> (r: Self)
        ensures
            r.name == name,
            r.scorer == Scorer::<S, R>::Simple(score),
            forall|output: &str, context: Option<&Value>|
                #[trigger] r.accepts(output, context) <==> call_requires(score, (output, context)),
            forall|output: &str, context: Option<&Value>, outcome: Outcome|
                #[trigger] r.gives(output, context, outcome)
                    <==> simple_outcome(score, output, context, outcome),
            forall|output: &str, context: Option<&Value>, v: Binary64, reason: Option<String>|
                #[trigger] r.gives(output, context, Ok((v, reason)))
                    <==> reason is None && call_ensures(score, (output, context), Ok(v)),
            forall|output: &str, context: Option<&Value>, p: PanicPayload|
                #[trigger] r.gives(output, context, Err(p))
                    <==> call_ensures(score, (output, context), Err(p)),
    {
        Rubric { name, scorer: Scorer::Simple(score) }
    }

    /// Create from a scorer that also gives an optional reason.
    pub fn with_reason(name: String, score: R) -> (r: Self)
        ensures
            r.name == name,
            r.scorer == Scorer::<S, R>::WithReason(score),
            forall|output: &str, context: Option<&Value>|
                #[trigger] r.accepts(output, context) <==> call_requires(score, (output, context)),
            forall|output: &str, context: Option<&Value>, outcome: Outcome|
                #[trigger] r.gives(output, context, outcome)
                    <==> call_ensures(score, (output, context), outcome),
    {
        Rubric { name, scorer: Scorer::WithReason(score) }
    }

    /// Evaluate this rubric against `output`. Panics produce zero.
    pub fn evaluate(&self, output: &str, context: Option<&Value>) -> (s: Score)
        requires
            self.accepts(output, context),
        ensures
            exists|outcome: Outcome| #[trigger]
                self.gives(output, context, outcome) && s@ == score::score_of(self.name@, outcome),
            s.value.in_unit_interval(),
            s.name == self.name,
            match self.scorer {
                Scorer::Simple(f) => {
                    ||| exists|v: Binary64|
                        {
                            &&& #[trigger] call_ensures(f, (output, context), Ok(v))
                            &&& s.value == v.clipped()
                            &&& s.reason is None
                        }
                    ||| exists|p: PanicPayload|
                        {
                            &&& #[trigger] call_ensures(f, (output, context), Err(p))
                            &&& s.value.bits == 0
                            &&& s.reason is Some
                            &&& p matches PanicPayload::Message(m) ==> s.reason->0@ == "panic: "@
                                + m@
                            &&& p is Opaque ==> s.reason->0@ == "panic in rubric scorer"@
                        }
                },
                Scorer::WithReason(f) => {
                    ||| exists|v: Binary64, reason: Option<String>|
                        {
                            &&& #[trigger] call_ensures(f, (output, context), Ok((v, reason)))
                            &&& s.value == v.clipped()
                            &&& s.reason == reason
                        }
                    ||| exists|p: PanicPayload|
                        {
                            &&& #[trigger] call_ensures(f, (output, context), Err(p))
                            &&& s.value.bits == 0
                            &&& s.reason is Some
                            &&& p matches PanicPayload::Message(m) ==> s.reason->0@ == "panic: "@
                                + m@
                            &&& p is Opaque ==> s.reason->0@ == "panic in rubric scorer"@
                        }
                },
            },
            self.scored(output, context, s),
    {
        let outcome: Outcome = match &self.scorer {
            Scorer::Simple(f) => match f(output, context) {
                Ok(value) => Ok((value, None)),
                Err(payload) => Err(payload),
            },
            Scorer::WithReason(f) => f(output, context),
        };
        assert(self.gives(output, context, outcome));
        proof {
            if let Ok((v, _)) = outcome {
                crate::number_laws::law_clipped_value(v);
            }
        }
        Score::from_outcome(self.name.clone(), outcome)
    }

    /// How this rubric prints for debugging.
    pub fn debug_string(&self) -> (r: String)
        ensures
            r@ == "Rubric("@ + self.name@ + ")"@,
    {
        "Rubric(".to_owned().concat(self.name.as_str()).concat(")")
    }
}

} // verus!
