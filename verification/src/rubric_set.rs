//! Weighted sets of rubrics.

use crate::accuracy_laws;
use crate::average;
use crate::average::overall_score;
use crate::binary64;
use crate::binary64::Binary64;
use crate::rubric::Rubric;
use crate::score;
use crate::score::{Outcome, PanicPayload, Report, ReportView, Score, ScoreView};
use crate::set_laws;
use crate::text;
use crate::text::quote;
use serde_json::Value;
use vstd::arithmetic::power2::*;
use vstd::hash_set::StringHashSet;
use vstd::math::abs;
use vstd::prelude::*;
use vstd::string::*;

verus! {

/// Why a set of rubrics could not be built.
#[derive(Debug, Clone, PartialEq, Eq)]
pub enum RubricSetError {
    Empty,
    DuplicateName(String),
    NegativeWeight(String),
}

impl RubricSetError {
    /// The human-readable message.
    pub open spec fn message(self) -> Seq<char> {
        match self {
            RubricSetError::Empty => "RubricSet requires at least one rubric"@,
            RubricSetError::DuplicateName(name) => "duplicate rubric name: "@ + name@,
            RubricSetError::NegativeWeight(name) => "negative weight for rubric: "@ + name@,
        }
    }

    /// The human-readable message.
    pub fn to_string(&self) -> (r: String)
        ensures
            r@ == self.message(),
            match *self {
                RubricSetError::Empty => r@ == "RubricSet requires at least one rubric"@,
                RubricSetError::DuplicateName(name) => r@ == "duplicate rubric name: "@ + name@,
                RubricSetError::NegativeWeight(name) => r@ == "negative weight for rubric: "@ + name@,
            },
    {
        match self {
            RubricSetError::Empty => "RubricSet requires at least one rubric".to_owned(),
            RubricSetError::DuplicateName(name) => {
                "duplicate rubric name: ".to_owned().concat(name.as_str())
            },
            RubricSetError::NegativeWeight(name) => {
                "negative weight for rubric: ".to_owned().concat(name.as_str())
            },
        }
    }
}

/// Rubrics, each with its weight.
pub type Entries<S, R> = Seq<(Rubric<S, R>, Binary64)>;

/// The names of the rubrics.
pub open spec fn names<S, R>(entries: Entries<S, R>) -> Seq<Seq<char>> {
    entries.map_values(|e: (Rubric<S, R>, Binary64)| e.0.name@)
}

/// The weights of the rubrics.
pub open spec fn weights<S, R>(entries: Entries<S, R>) -> Seq<Binary64> {
    entries.map_values(|e: (Rubric<S, R>, Binary64)| e.1)
}

/// What is wrong with the entry at `i`, given those before it.
pub open spec fn fault<S, R>(entries: Entries<S, R>, i: int) -> Option<RubricSetError> {
    if entries[i].1.below(Binary64::zero()) {
        Some(RubricSetError::NegativeWeight(entries[i].0.name))
    } else if names(entries).take(i).contains(entries[i].0.name@) {
        Some(RubricSetError::DuplicateName(entries[i].0.name))
    } else {
        None
    }
}

/// Whether a set may hold these entries: there is one, no name occurs twice and
/// no weight is negative.
pub open spec fn valid_entries<S, R>(entries: Entries<S, R>) -> bool {
    &&& entries.len() > 0
    &&& names(entries).no_duplicates()
    &&& forall|i: int| 0 <= i < entries.len() ==> !(#[trigger] entries[i]).1.below(Binary64::zero())
}

/// Aggregate multiple rubrics with optional weights.
///
/// Weights need not sum to one: they are normalized during `evaluate`.
pub struct RubricSet<S, R> {
    entries: Vec<(Rubric<S, R>, Binary64)>,
}

impl<S, R> RubricSet<S, R> {
    #[verifier::type_invariant]
    spec fn well_formed(self) -> bool {
        valid_entries(self.entries@)
    }
}

impl<S, R> View for RubricSet<S, R> {
    type V = Entries<S, R>;

    closed spec fn view(&self) -> Entries<S, R> {
        self.entries@
    }
}

/// Whether `result` is what building a set of `entries` comes to: the set, or
/// the first fault.
pub open spec fn built<S, R>(
    entries: Entries<S, R>,
    result: Result<RubricSet<S, R>, RubricSetError>,
) -> bool {
    match result {
        Ok(set) => {
            &&& set@ == entries
            &&& entries.len() > 0
            &&& forall|i: int| 0 <= i < entries.len() ==> #[trigger] fault(entries, i) is None
        },
        Err(RubricSetError::Empty) => entries.len() == 0,
        Err(error) => exists|i: int|
            {
                &&& 0 <= i < entries.len()
                &&& #[trigger] fault(entries, i) == Some(error)
                &&& forall|j: int| 0 <= j < i ==> #[trigger] fault(entries, j) is None
            },
    }
}

/// The report on `entries` when their scorers came to `outcomes`.
pub open spec fn report_of<S, R>(entries: Entries<S, R>, outcomes: Seq<Outcome>) -> ReportView {
    let scores = Seq::new(
        entries.len(),
        |i: int| score::score_of(entries[i].0.name@, outcomes[i]),
    );
    ReportView {
        scores,
        overall: average::overall(
            scores.map_values(|s: ScoreView| s.value), weights(entries)),
    }
}

/// Entries without a fault are valid.
pub proof fn lemma_no_fault_valid<S, R>(entries: Entries<S, R>)
    requires
        entries.len() > 0,
        forall|i: int| 0 <= i < entries.len() ==> #[trigger] fault(entries, i) is None,
    ensures
        valid_entries(entries),
{
    let ns = names(entries);
    assert forall|i: int, j: int| 0 <= i < j < ns.len() implies ns[i] != ns[j] by {
        assert(fault(entries, j) is None);
        assert(ns.take(j)[i] == ns[i]);
    }
    assert forall|i: int| 0 <= i < entries.len() implies !(#[trigger] entries[i]).1.below(Binary64::zero()) by {
        assert(fault(entries, i) is None);
    }
}

impl<S, R> RubricSet<S, R>
where
    S: Fn(&str, Option<&Value>) -> Result<Binary64, PanicPayload>,
    R: Fn(&str, Option<&Value>) -> Outcome,
{
    /// Build a set of rubrics with their weights.
    pub fn new(entries: Vec<(Rubric<S, R>, Binary64)>) -> (result: Result<Self, RubricSetError>)
        ensures
            built(entries@, result),
            result matches Ok(set) ==> set@ == entries@,
            entries@.len() == 0 <==> (result is Err && result->Err_0 is Empty),
            result is Ok <==> {
                &&& entries@.len() > 0
                &&& forall|i: int, j: int|
                    #![trigger entries@[i], entries@[j]]
                    0 <= i < j < entries@.len() ==> entries@[i].0.name@ != entries@[j].0.name@
                &&& forall|i: int|
                    0 <= i < entries@.len() ==> (#[trigger] entries@[i]).1.is_nan()
                        || entries@[i].1.value() >= 0
            },
            result matches Err(RubricSetError::DuplicateName(n)) ==> exists|i: int, j: int|
                #![trigger entries@[i], entries@[j]]
                {
                    &&& 0 <= i < j < entries@.len()
                    &&& entries@[i].0.name@ == n@
                    &&& entries@[j].0.name@ == n@
                    &&& forall|k: int|
                        0 <= k <= j ==> (#[trigger] entries@[k]).1.is_nan() || entries@[k].1.value()
                            >= 0
                    &&& forall|a: int, b: int|
                        #![trigger entries@[a], entries@[b]]
                        0 <= a < b < j ==> entries@[a].0.name@ != entries@[b].0.name@
                },
            result matches Err(RubricSetError::NegativeWeight(n)) ==> exists|j: int|
                #![trigger entries@[j]]
                {
                    &&& 0 <= j < entries@.len()
                    &&& entries@[j].0.name@ == n@
                    &&& !entries@[j].1.is_nan()
                    &&& entries@[j].1.value() < 0
                    &&& forall|k: int|
                        0 <= k < j ==> (#[trigger] entries@[k]).1.is_nan() || entries@[k].1.value()
                            >= 0
                    &&& forall|a: int, b: int|
                        #![trigger entries@[a], entries@[b]]
                        0 <= a < b < j ==> entries@[a].0.name@ != entries@[b].0.name@
                },
    {
        if entries.len() == 0 {
            return Err(RubricSetError::Empty);
        }
        let mut seen: StringHashSet = StringHashSet::new();
        let ghost ns = names(entries@);
        for i in 0..entries.len()
            invariant
                ns == names(entries@),
                seen@ == ns.take(i as int).to_set(),
                forall|j: int| 0 <= j < i ==> #[trigger] fault(entries@, j) is None,
        {
            proof {
                assert(ns.take(i + 1) =~= ns.take(i as int).push(ns[i as int]));
                ns.take(i as int).lemma_push_to_set_commute(ns[i as int]);
            }
            if entries[i].1.less_than(Binary64::zero()) {
                let name: String = entries[i].0.name.clone();
                let ghost n = name;
                let result: Result<Self, RubricSetError> = Err(RubricSetError::NegativeWeight(name));
                proof {
                    assert(fault(entries@, i as int) is Some);
                    set_laws::law_built_set_holds_its_entries(entries@, result);
                    set_laws::law_negative_weight_is_one(entries@, result, n);
                }
                return result;
            }
            if !seen.insert(entries[i].0.name.clone()) {
                let name: String = entries[i].0.name.clone();
                let ghost n = name;
                let result: Result<Self, RubricSetError> = Err(RubricSetError::DuplicateName(name));
                proof {
                    assert(fault(entries@, i as int) is Some);
                    set_laws::law_built_set_holds_its_entries(entries@, result);
                    set_laws::law_duplicate_name_is_one(entries@, result, n);
                }
                return result;
            }
        }
        proof {
            lemma_no_fault_valid(entries@);
            set_laws::law_validity_written_out(entries@);
        }
        Ok(RubricSet { entries })
    }

    /// Create with equal weights, all one.
    pub fn uniform(rubrics: Vec<Rubric<S, R>>) -> (result: Result<Self, RubricSetError>)
        ensures
            built(rubrics@.map_values(|r: Rubric<S, R>| (r, Binary64::one())), result),
            result matches Ok(set) ==> {
                &&& set@.len() == rubrics@.len()
                &&& forall|i: int|
                    0 <= i < rubrics@.len() ==> (#[trigger] set@[i]).0 == rubrics@[i]
                        && set@[i].1.bits == 0x3ff0_0000_0000_0000
            },
            rubrics@.len() == 0 <==> (result is Err && result->Err_0 is Empty),
            result is Ok <==> {
                &&& rubrics@.len() > 0
                &&& forall|i: int, j: int|
                    #![trigger rubrics@[i], rubrics@[j]]
                    0 <= i < j < rubrics@.len() ==> rubrics@[i].name@ != rubrics@[j].name@
            },
            !(result is Err && result->Err_0 is NegativeWeight),
            result matches Err(RubricSetError::DuplicateName(n)) ==> exists|i: int, j: int|
                #![trigger rubrics@[i], rubrics@[j]]
                {
                    &&& 0 <= i < j < rubrics@.len()
                    &&& rubrics@[i].name@ == n@
                    &&& rubrics@[j].name@ == n@
                    &&& forall|a: int, b: int|
                        #![trigger rubrics@[a], rubrics@[b]]
                        0 <= a < b < j ==> rubrics@[a].name@ != rubrics@[b].name@
                },
    {
        let ghost given = rubrics@;
        let ghost all = rubrics@.map_values(|r: Rubric<S, R>| (r, Binary64::one()));
        let mut entries: Vec<(Rubric<S, R>, Binary64)> = Vec::new();
        for rubric in it: rubrics
            invariant
                entries@ =~= it.seq().take(it.index()).map_values(|r: Rubric<S, R>| (r, Binary64::one())),
        {
            entries.push((rubric, Binary64::one()));
        }
        assert(entries@ =~= all);
        let result: Result<Self, RubricSetError> = Self::new(entries);
        proof {
            set_laws::law_uniform_written_out(given, result);
        }
        result
    }

    /// The rubric names, in insertion order.
    pub fn rubric_names(&self) -> (result: Vec<&str>)
        ensures
            result@.map_values(|n: &str| n@) == names(self@),
            result@.len() == self@.len(),
            forall|i: int| 0 <= i < self@.len() ==> (#[trigger] result@[i])@ == self@[i].0.name@,
            valid_entries(self@),
    {
        proof {
            use_type_invariant(self);
        }
        let mut result: Vec<&str> = Vec::new();
        for i in 0..self.entries.len()
            invariant
                result@.map_values(|n: &str| n@) =~= names(self@).take(i as int),
        {
            let name: &str = self.entries[i].0.name.as_str();
            assert(name@ == names(self@)[i as int]);
            result.push(name);
            assert(names(self@).take(i + 1) =~= names(self@).take(i as int).push(name@));
        }
        assert(names(self@).take(self@.len() as int) =~= names(self@));
        assert forall|i: int| 0 <= i < self@.len() implies (#[trigger] result@[i])@
            == self@[i].0.name@ by {
            assert(result@.map_values(|n: &str| n@)[i] == names(self@)[i]);
        }
        result
    }

    /// The report on scores that are already known, one for each rubric.
    pub fn report(&self, scores: Vec<Score>) -> (r: Report)
        requires
            scores.len() == self@.len(),
        ensures
            r.scores == scores,
            ({
                let t = Seq::new(self@.len(), |i: int| self@[i].1).fold_left(
                    Binary64::negative_zero(),
                    |a: Binary64, x: Binary64| a.sum(x),
                );
                let a = Seq::new(
                    self@.len(),
                    |i: int| r.scores@[i].value.product(self@[i].1),
                ).fold_left(Binary64::negative_zero(), |a: Binary64, x: Binary64| a.sum(x));
                r.overall == if t.is_nan() || t.value() == 0 {
                    Binary64::zero()
                } else {
                    a.quotient(t).clipped()
                }
            }),
            r.overall == average::overall(
                scores@.map_values(|s: Score| s.value), weights(self@)),
            r.overall.in_unit_interval(),
    {
        let mut values: Vec<Binary64> = Vec::new();
        let mut ws: Vec<Binary64> = Vec::new();
        for i in 0..self.entries.len()
            invariant
                scores.len() == self.entries.len(),
                values@ =~= scores@.map_values(|s: Score| s.value).take(i as int),
                ws@ =~= weights(self.entries@).take(i as int),
        {
            values.push(scores[i].value);
            ws.push(self.entries[i].1);
        }
        assert(values@ =~= scores@.map_values(|s: Score| s.value));
        assert(ws@ =~= weights(self@));
        let overall: Binary64 = overall_score(&values, &ws);
        let r: Report = Report { scores, overall };
        proof {
            let values = scores@.map_values(|s: Score| s.value);
            accuracy_laws::law_overall_step_by_step(values, weights(self@));
            assert(Seq::new(self@.len(), |i: int| self@[i].1) =~= weights(self@));
            assert(Seq::new(self@.len(), |i: int| r.scores@[i].value.product(self@[i].1))
                =~= Seq::new(self@.len(), |i: int| values[i].product(weights(self@)[i])));
        }
        r
    }

    /// Evaluate all rubrics and compute a weighted overall score.
    pub fn evaluate(&self, output: &str, context: Option<&Value>) -> (r: Report)
        requires
            forall|i: int| 0 <= i < self@.len() ==> (#[trigger] self@[i]).0.accepts(output, context),
        ensures
            exists|outcomes: Seq<Outcome>|
                {
                    &&& outcomes.len() == self@.len()
                    &&& forall|i: int|
                        0 <= i < self@.len() ==> self@[i].0.gives(
                            output,
                            context,
                            #[trigger] outcomes[i],
                        )
                    &&& r@ == #[trigger] report_of(self@, outcomes)
                },
            valid_entries(self@),
            r.overall.in_unit_interval(),
            r.scores@.len() == self@.len(),
            forall|i: int|
                0 <= i < self@.len() ==> (#[trigger] r.scores@[i]).name@ == self@[i].0.name@,
            forall|i: int|
                0 <= i < self@.len() ==> self@[i].0.scored(output, context, #[trigger] r.scores@[i]),
            ({
                let t = Seq::new(self@.len(), |i: int| self@[i].1).fold_left(
                    Binary64::negative_zero(),
                    |a: Binary64, x: Binary64| a.sum(x),
                );
                let a = Seq::new(
                    self@.len(),
                    |i: int| r.scores@[i].value.product(self@[i].1),
                ).fold_left(Binary64::negative_zero(), |a: Binary64, x: Binary64| a.sum(x));
                r.overall == if t.is_nan() || t.value() == 0 {
                    Binary64::zero()
                } else {
                    a.quotient(t).clipped()
                }
            }),
            ({
                let n = self@.len();
                let one = pow2(1074);
                let w = Seq::new(self@.len(), |i: int| self@[i].1.value()).fold_left(
                    0int,
                    |a: int, x: int| a + x,
                );
                let s = Seq::new(
                    self@.len(),
                    |i: int| r.scores@[i].value.value() * self@[i].1.value(),
                ).fold_left(0int, |a: int, x: int| a + x);
                n <= 0x10_0000_0000_0000 && w <= pow2(2096) && (forall|i: int|
                    0 <= i < self@.len() ==> !(#[trigger] self@[i]).1.is_nan()) ==> abs(
                    r.overall.value() * w - s,
                ) * 0x20_0000_0000_0000 <= (4 * n + 5) * (one * w) + n * (0x10_0000_0000_0000 * one)
            }),
    {
        proof {
            use_type_invariant(self);
        }
        let mut scores: Vec<Score> = Vec::new();
        let ghost mut outcomes: Seq<Outcome> = Seq::empty();
        for i in 0..self.entries.len()
            invariant
                forall|i: int| 0 <= i < self@.len() ==> (#[trigger] self@[i]).0.accepts(output, context),
                scores.len() == i,
                outcomes.len() == i,
                forall|j: int|
                    0 <= j < i ==> self@[j].0.gives(output, context, #[trigger] outcomes[j]),
                forall|j: int|
                    0 <= j < i ==> (#[trigger] scores@[j])@ == score::score_of(
                        self@[j].0.name@,
                        outcomes[j],
                    ),
                forall|j: int|
                    0 <= j < i ==> (#[trigger] scores@[j]).name@ == self@[j].0.name@,
                forall|j: int|
                    0 <= j < i ==> (#[trigger] scores@[j]).value.in_unit_interval(),
                forall|j: int|
                    0 <= j < i ==> self@[j].0.scored(output, context, #[trigger] scores@[j]),
        {
            assert(self@[i as int].0.accepts(output, context));
            let s: Score = self.entries[i].0.evaluate(output, context);
            proof {
                let rubric = self@[i as int].0;
                let outcome = choose|o: Outcome| #[trigger]
                    rubric.gives(output, context, o) && s@ == score::score_of(rubric.name@, o);
                outcomes = outcomes.push(outcome);
            }
            scores.push(s);
        }
        let r: Report = self.report(scores);
        proof {
            let expected = report_of(self@, outcomes);
            assert(r@.scores =~= expected.scores);
            assert(scores@.map_values(|s: Score| s.value)
                =~= expected.scores.map_values(|s: ScoreView| s.value)) by {
                assert forall|i: int| 0 <= i < scores.len() implies
                    scores@[i].value == (#[trigger] expected.scores[i]).value by {
                    assert(scores@[i]@ == expected.scores[i]);
                }
            }
            assert(r@ == expected);
            binary64::lemma_one_value();
            assert(Seq::new(self@.len(), |i: int| self@[i].1.value())
                =~= Seq::new(self@.len(), |i: int| weights(self@)[i].value()));
            let values = scores@.map_values(|s: Score| s.value);
            let ws = weights(self@);
            assert(Seq::new(self@.len(), |i: int| r.scores@[i].value.value() * self@[i].1.value())
                =~= Seq::new(self@.len(), |i: int| values[i].value() * ws[i].value()));
            if self@.len() <= 0x10_0000_0000_0000 && Seq::new(
                self@.len(),
                |i: int| self@[i].1.value(),
            ).fold_left(0int, |a: int, x: int| a + x) <= pow2(2096) && (forall|i: int|
                0 <= i < self@.len() ==> !(#[trigger] self@[i]).1.is_nan()) {
                assert forall|i: int| 0 <= i < ws.len() implies !(#[trigger] ws[i]).is_nan()
                    && ws[i].value() >= 0 by {
                    assert(!self@[i].1.is_nan() && !self@[i].1.below(Binary64::zero()));
                }
                assert forall|i: int| 0 <= i < values.len() implies !(#[trigger] values[i]).is_nan()
                    && 0 <= values[i].value() <= pow2(1074) by {
                    assert(scores@[i].value.in_unit_interval());
                }
                accuracy_laws::law_overall_is_the_weighted_average(values, ws);
            }
        }
        r
    }

    /// How this set prints for debugging: the names, quoted, as a list.
    pub fn debug_string(&self) -> (r: String)
        ensures
            r@ == "RubricSet("@ + text::list_text(
                names(self@).map_values(|n: Seq<char>| text::quoted(n)),
            ) + ")"@,
            r@ == "RubricSet("@ + text::list_text(
                Seq::new(self@.len(), |i: int| text::quoted(self@[i].0.name@)),
            ) + ")"@,
    {
        let ghost expected = names(self@).map_values(|n: Seq<char>| text::quoted(n));
        let mut items: Vec<String> = Vec::new();
        for i in 0..self.entries.len()
            invariant
                expected == names(self@).map_values(|n: Seq<char>| text::quoted(n)),
                items.len() == i,
                forall|j: int| 0 <= j < i ==> (#[trigger] items@[j])@ == expected[j],
        {
            items.push(quote(self.entries[i].0.name.as_str()));
        }
        assert(items@.map_values(|s: String| s@) =~= expected);
        assert(Seq::new(self@.len(), |i: int| text::quoted(self@[i].0.name@)) =~= expected);
        "RubricSet(".to_owned().concat(text::list(&items).as_str()).concat(")")
    }
}

} // verus!
