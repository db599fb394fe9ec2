//! Scores, and the report that collects them.

use crate::binary64::Binary64;
use vstd::arithmetic::power2::*;
use vstd::prelude::*;
use vstd::string::*;

verus! {

/// One rubric's score for one output.
#[derive(Clone, PartialEq)]
pub struct Score {
    pub name: String,
    /// Clipped to the unit interval.
    pub value: Binary64,
    /// Optional human-readable reason or debug note.
    pub reason: Option<String>,
}

/// What a score says, with its texts as character sequences.
pub struct ScoreView {
    pub name: Seq<char>,
    pub value: Binary64,
    pub reason: Option<Seq<char>>,
}

/// The characters of an optional text.
pub open spec fn text(s: Option<String>) -> Option<Seq<char>> {
    match s {
        Some(s) => Some(s@),
        None => None,
    }
}

impl View for Score {
    type V = ScoreView;

    open spec fn view(&self) -> ScoreView {
        ScoreView { name: self.name@, value: self.value, reason: text(self.reason) }
    }
}

/// What a scorer left behind when it panicked.
#[derive(Debug, Clone, PartialEq, Eq)]
pub enum PanicPayload {
    /// The message that it panicked with.
    Message(String),
    /// A payload that is no text.
    Opaque,
}

/// What running a scorer came to: a raw value with an optional reason, or the
/// panic that ended it.
pub type Outcome = Result<(Binary64, Option<String>), PanicPayload>;

/// The reason that a panic is reported with.
pub open spec fn panic_text(payload: PanicPayload) -> Seq<char> {
    match payload {
        PanicPayload::Message(message) => "panic: "@ + message@,
        PanicPayload::Opaque => "panic in rubric scorer"@,
    }
}

/// The score that the rubric `name` gives for an outcome: the raw value
/// clipped, with its reason; or zero, with the panic as the reason.
pub open spec fn score_of(name: Seq<char>, outcome: Outcome) -> ScoreView {
    match outcome {
        Ok((value, reason)) => ScoreView { name, value: value.clipped(), reason: text(reason) },
        Err(payload) => ScoreView {
            name,
            value: Binary64::zero(),
            reason: Some(panic_text(payload)),
        },
    }
}

/// Clips a raw score to the unit interval; what is not a number becomes zero.
pub fn clip01(v: Binary64) -> (r: Binary64)
    ensures
        r == v.clipped(),
        r.in_unit_interval(),
        v.is_nan() || v.value() < 0 ==> r.bits == 0,
        !v.is_nan() && v.value() > pow2(1074) ==> r.bits == 0x3ff0_0000_0000_0000,
        !v.is_nan() && 0 <= v.value() <= pow2(1074) ==> r == v,
{
    proof {
        crate::binary64::lemma_one_value();
    }
    if v.is_not_a_number() {
        Binary64::zero()
    } else if v.less_than(Binary64::zero()) {
        Binary64::zero()
    } else if Binary64::one().less_than(v) {
        Binary64::one()
    } else {
        v
    }
}

impl PanicPayload {
    /// The reason that this panic is reported with.
    pub fn reason(&self) -> (r: String)
        ensures
            r@ == panic_text(*self),
            match *self {
                PanicPayload::Message(message) => r@ == "panic: "@ + message@,
                PanicPayload::Opaque => r@ == "panic in rubric scorer"@,
            },
    {
        match self {
            PanicPayload::Message(message) => "panic: ".to_owned().concat(message.as_str()),
            PanicPayload::Opaque => "panic in rubric scorer".to_owned(),
        }
    }
}

impl Score {
    /// The score that the rubric `name` gives for an outcome.
    pub fn from_outcome(name: String, outcome: Outcome) -> (s: Score)
        ensures
            s@ == score_of(name@, outcome),
            s.value.in_unit_interval(),
            s.name == name,
            outcome matches Ok((v, reason)) ==> {
                &&& s.reason == reason
                &&& v.is_nan() || v.value() < 0 ==> s.value.bits == 0
                &&& !v.is_nan() && v.value() > pow2(1074) ==> s.value.bits == 0x3ff0_0000_0000_0000
                &&& !v.is_nan() && 0 <= v.value() <= pow2(1074) ==> s.value == v
            },
            outcome matches Err(payload) ==> {
                &&& s.value.bits == 0
                &&& s.reason is Some
                &&& payload matches PanicPayload::Message(message) ==> s.reason->0@ == "panic: "@
                    + message@
                &&& payload is Opaque ==> s.reason->0@ == "panic in rubric scorer"@
            },
    {
        match outcome {
            Ok((v, reason)) => Score { name, value: clip01(v), reason },
            Err(payload) => {
                proof {
                    crate::binary64::lemma_one_value();
                }
                Score { name, value: Binary64::zero(), reason: Some(payload.reason()) }
            },
        }
    }
}

/// Aggregate result of evaluating a set of rubrics.
#[derive(Clone)]
pub struct Report {
    pub scores: Vec<Score>,
    /// Weighted average of all scores, in the unit interval.
    pub overall: Binary64,
}

/// What a report says.
pub struct ReportView {
    pub scores: Seq<ScoreView>,
    pub overall: Binary64,
}

impl View for Report {
    type V = ReportView;

    open spec fn view(&self) -> ReportView {
        ReportView {
            scores: self.scores@.map_values(|s: Score| s@),
            overall: self.overall,
        }
    }
}

/// Whether `r` is the first score of the given name, or nothing where there is
/// none.
pub open spec fn first_of_name(scores: Seq<Score>, name: Seq<char>, r: Option<&Score>) -> bool {
    match r {
        Some(s) => exists|i: int|
            #![trigger scores[i]]
            {
                &&& 0 <= i < scores.len()
                &&& *s == scores[i]
                &&& s.name@ == name
                &&& forall|j: int| 0 <= j < i ==> (#[trigger] scores[j]).name@ != name
            },
        None => forall|i: int| 0 <= i < scores.len() ==> (#[trigger] scores[i]).name@ != name,
    }
}

/// The place of the first of the names that is `name`.
pub fn first_named(names: &Vec<&String>, name: &str) -> (r: Option<usize>)
    ensures
        match r {
            Some(i) => {
                &&& i < names.len()
                &&& names@[i as int]@ == name@
                &&& forall|j: int| 0 <= j < i ==> (#[trigger] names@[j])@ != name@
            },
            None => forall|j: int| 0 <= j < names.len() ==> (#[trigger] names@[j])@ != name@,
        },
{
    let wanted: String = name.to_owned();
    for i in 0..names.len()
        invariant
            wanted@ == name@,
            forall|j: int| 0 <= j < i ==> (#[trigger] names@[j])@ != name@,
    {
        if *names[i] == wanted {
            return Some(i);
        }
    }
    None
}

impl Report {
    /// Look up a score by rubric name: the first one of that name.
    pub fn by_name(&self, name: &str) -> (r: Option<&Score>)
        ensures
            first_of_name(self.scores@, name@, r),
            r matches Some(s) ==> exists|i: int|
                0 <= i < self.scores@.len() && *s == #[trigger] self.scores@[i] && s.name@ == name@
                    && forall|j: int| 0 <= j < i ==> (#[trigger] self.scores@[j]).name@ != name@,
            r is None ==> forall|i: int|
                0 <= i < self.scores@.len() ==> (#[trigger] self.scores@[i]).name@ != name@,
    {
        let mut names: Vec<&String> = Vec::new();
        for i in 0..self.scores.len()
            invariant
                names.len() == i,
                forall|j: int| 0 <= j < i ==> *(#[trigger] names@[j]) == self.scores@[j].name,
        {
            names.push(&self.scores[i].name);
        }
        match first_named(&names, name) {
            Some(i) => {
                assert forall|j: int| 0 <= j < i implies (#[trigger] self.scores@[j]).name@
                    != name@ by {
                    assert(names@[j]@ != name@);
                }
                Some(&self.scores[i])
            },
            None => {
                assert forall|j: int| 0 <= j < self.scores@.len() implies (#[trigger]
                    self.scores@[j]).name@ != name@ by {
                    assert(names@[j]@ != name@);
                }
                None
            },
        }
    }
}

} // verus!
