//! What holds of sets of rubrics and of their reports.

use crate::accuracy_laws;
use crate::average;
use crate::average_laws;
use crate::binary64;
use crate::binary64::Binary64;
use crate::number_laws;
use crate::rubric;
use crate::rubric::{Rubric, Scorer};
use crate::rubric_set;
use crate::rubric_set::{Entries, RubricSet, RubricSetError};
use crate::score;
use crate::score::{Outcome, PanicPayload, Report, Score, ScoreView};
use crate::text;
use serde_json::Value;
use vstd::arithmetic::power2::*;
use vstd::math::abs;
use vstd::prelude::*;

verus! {

/// A set is built exactly where there is a rubric, no name occurs twice and no
/// weight is negative.
pub proof fn law_built_exactly_where_valid<S, R>(
    entries: Entries<S, R>,
    result: Result<RubricSet<S, R>, RubricSetError>,
)
    requires
        rubric_set::built(entries, result),
    ensures
        result is Ok <==> rubric_set::valid_entries(entries),
{
    let names = rubric_set::names(entries);
    match result {
        Ok(_) => {
            rubric_set::lemma_no_fault_valid(entries);
        },
        Err(RubricSetError::Empty) => {},
        Err(error) => {
            let i = choose|i: int|
                0 <= i < entries.len() && #[trigger] rubric_set::fault(entries, i) == Some(error);
            if !entries[i].1.below(Binary64::zero()) {
                let j = choose|j: int| 0 <= j < i && names.take(i)[j] == names[i];
                assert(names.take(i).contains(names[i]));
                assert(names[j] == names[i]);
            }
        },
    }
}

/// A set is built exactly where there is an entry, the names are pairwise
/// different and no weight is negative, however many entries there are; and it
/// holds the entries as they were given.
pub proof fn law_built_set_holds_its_entries<S, R>(
    entries: Entries<S, R>,
    result: Result<RubricSet<S, R>, RubricSetError>,
)
    requires
        rubric_set::built(entries, result),
    ensures
        result matches Ok(set) ==> set@ == entries,
        entries.len() == 0 <==> (result is Err && result->Err_0 is Empty),
        result is Ok <==> {
            &&& entries.len() > 0
            &&& forall|i: int, j: int|
                #![trigger entries[i], entries[j]]
                0 <= i < j < entries.len() ==> entries[i].0.name@ != entries[j].0.name@
            &&& forall|i: int|
                0 <= i < entries.len() ==> (#[trigger] entries[i]).1.is_nan()
                    || entries[i].1.value() >= 0
        },
{
    law_validity_written_out(entries);
    law_built_exactly_where_valid(entries, result);
}

/// A name is reported as a duplicate only where two entries have it, and only
/// where nothing before the second of them is wrong.
pub proof fn law_duplicate_name_is_one<S, R>(
    entries: Entries<S, R>,
    result: Result<RubricSet<S, R>, RubricSetError>,
    n: String,
)
    requires
        rubric_set::built(entries, result),
        result == Err::<RubricSet<S, R>, RubricSetError>(RubricSetError::DuplicateName(n)),
    ensures
        exists|i: int, j: int|
            #![trigger entries[i], entries[j]]
            {
                &&& 0 <= i < j < entries.len()
                &&& entries[i].0.name@ == n@
                &&& entries[j].0.name@ == n@
                &&& forall|k: int|
                    0 <= k <= j ==> (#[trigger] entries[k]).1.is_nan() || entries[k].1.value() >= 0
                &&& forall|a: int, b: int|
                    #![trigger entries[a], entries[b]]
                    0 <= a < b < j ==> entries[a].0.name@ != entries[b].0.name@
            },
{
    let error = RubricSetError::DuplicateName(n);
    let j = choose|i: int|
        {
            &&& 0 <= i < entries.len()
            &&& #[trigger] rubric_set::fault(entries, i) == Some(error)
            &&& forall|k: int| 0 <= k < i ==> #[trigger] rubric_set::fault(entries, k) is None
        };
    lemma_first_fault(entries, j);
    let i = choose|i: int| 0 <= i < j && (#[trigger] entries[i]).0.name@ == entries[j].0.name@;
    assert(entries[i].0.name@ == n@ && entries[j].0.name@ == n@);
}

/// A negative weight is reported only for an entry that has one, and only where
/// nothing before it is wrong.
pub proof fn law_negative_weight_is_one<S, R>(
    entries: Entries<S, R>,
    result: Result<RubricSet<S, R>, RubricSetError>,
    n: String,
)
    requires
        rubric_set::built(entries, result),
        result == Err::<RubricSet<S, R>, RubricSetError>(RubricSetError::NegativeWeight(n)),
    ensures
        exists|j: int|
            #![trigger entries[j]]
            {
                &&& 0 <= j < entries.len()
                &&& entries[j].0.name@ == n@
                &&& !entries[j].1.is_nan()
                &&& entries[j].1.value() < 0
                &&& forall|k: int|
                    0 <= k < j ==> (#[trigger] entries[k]).1.is_nan() || entries[k].1.value() >= 0
                &&& forall|a: int, b: int|
                    #![trigger entries[a], entries[b]]
                    0 <= a < b < j ==> entries[a].0.name@ != entries[b].0.name@
            },
{
    let error = RubricSetError::NegativeWeight(n);
    let j = choose|i: int|
        {
            &&& 0 <= i < entries.len()
            &&& #[trigger] rubric_set::fault(entries, i) == Some(error)
            &&& forall|k: int| 0 <= k < i ==> #[trigger] rubric_set::fault(entries, k) is None
        };
    lemma_first_fault(entries, j);
    assert(entries[j].0.name@ == n@);
}

/// Entries are valid, however many there are, exactly where there is one, the
/// names are pairwise different and no weight is negative.
pub proof fn law_validity_written_out<S, R>(entries: Entries<S, R>)
    ensures
        rubric_set::valid_entries(entries) <==> {
            &&& entries.len() > 0
            &&& forall|i: int, j: int|
                #![trigger entries[i], entries[j]]
                0 <= i < j < entries.len() ==> entries[i].0.name@ != entries[j].0.name@
            &&& forall|i: int|
                0 <= i < entries.len() ==> (#[trigger] entries[i]).1.is_nan()
                    || entries[i].1.value() >= 0
        },
{
    binary64::lemma_one_value();
    let names = rubric_set::names(entries);
    if names.no_duplicates() {
        assert forall|i: int, j: int|
            #![trigger entries[i], entries[j]]
            0 <= i < j < entries.len() implies entries[i].0.name@ != entries[j].0.name@ by {
            assert(names[i] != names[j]);
        }
    }
    if forall|i: int, j: int|
        #![trigger entries[i], entries[j]]
        0 <= i < j < entries.len() ==> entries[i].0.name@ != entries[j].0.name@ {
        assert forall|i: int, j: int| 0 <= i < j < names.len() implies names[i] != names[j] by {
            assert(entries[i].0.name@ != entries[j].0.name@);
        }
        assert(names.no_duplicates());
    }
    if forall|i: int|
        0 <= i < entries.len() ==> (#[trigger] entries[i]).1.is_nan() || entries[i].1.value() >= 0 {
        assert forall|i: int| 0 <= i < entries.len() implies !(#[trigger] entries[i]).1.below(
            Binary64::zero(),
        ) by {}
    }
}

/// What the first fault says of its entry and of those before it.
proof fn lemma_first_fault<S, R>(entries: Entries<S, R>, j: int)
    requires
        0 <= j < entries.len(),
        rubric_set::fault(entries, j) is Some,
        forall|k: int| 0 <= k < j ==> #[trigger] rubric_set::fault(entries, k) is None,
    ensures
        forall|k: int|
            0 <= k < j ==> (#[trigger] entries[k]).1.is_nan() || entries[k].1.value() >= 0,
        forall|a: int, b: int|
            #![trigger entries[a], entries[b]]
            0 <= a < b < j ==> entries[a].0.name@ != entries[b].0.name@,
        rubric_set::fault(entries, j)->0 == RubricSetError::NegativeWeight(entries[j].0.name)
            || rubric_set::fault(entries, j)->0 == RubricSetError::DuplicateName(
            entries[j].0.name,
        ),
        rubric_set::fault(entries, j)->0 is NegativeWeight ==> !entries[j].1.is_nan()
            && entries[j].1.value() < 0,
        rubric_set::fault(entries, j)->0 is DuplicateName ==> (entries[j].1.is_nan()
            || entries[j].1.value() >= 0) && exists|i: int|
            0 <= i < j && (#[trigger] entries[i]).0.name@ == entries[j].0.name@,
{
    binary64::lemma_one_value();
    let names = rubric_set::names(entries);
    assert forall|k: int| 0 <= k < j implies (#[trigger] entries[k]).1.is_nan()
        || entries[k].1.value() >= 0 by {
        assert(rubric_set::fault(entries, k) is None);
    }
    assert forall|a: int, b: int|
        #![trigger entries[a], entries[b]]
        0 <= a < b < j implies entries[a].0.name@ != entries[b].0.name@ by {
        assert(rubric_set::fault(entries, b) is None);
        assert(names.take(b)[a] == names[a]);
    }
    if rubric_set::fault(entries, j)->0 is DuplicateName {
        assert(names.take(j).contains(entries[j].0.name@));
        let i = choose|i: int| 0 <= i < names.take(j).len() && names.take(j)[i] == entries[j].0.name@;
        assert(entries[i].0.name@ == entries[j].0.name@);
    }
}

/// What building a uniform set comes to, over the names of its rubrics.
pub proof fn law_uniform_written_out<S, R>(
    rubrics: Seq<Rubric<S, R>>,
    result: Result<RubricSet<S, R>, RubricSetError>,
)
    requires
        rubric_set::built(rubrics.map_values(|r: Rubric<S, R>| (r, Binary64::one())), result),
    ensures
        result matches Ok(set) ==> {
            &&& set@.len() == rubrics.len()
            &&& forall|i: int|
                0 <= i < rubrics.len() ==> (#[trigger] set@[i]).0 == rubrics[i]
                    && set@[i].1.bits == 0x3ff0_0000_0000_0000
            },
        rubrics.len() == 0 <==> (result is Err && result->Err_0 is Empty),
        result is Ok <==> {
            &&& rubrics.len() > 0
            &&& forall|i: int, j: int|
                #![trigger rubrics[i], rubrics[j]]
                0 <= i < j < rubrics.len() ==> rubrics[i].name@ != rubrics[j].name@
            },
        !(result is Err && result->Err_0 is NegativeWeight),
        result matches Err(RubricSetError::DuplicateName(n)) ==> exists|i: int, j: int|
            #![trigger rubrics[i], rubrics[j]]
            {
                &&& 0 <= i < j < rubrics.len()
                &&& rubrics[i].name@ == n@
                &&& rubrics[j].name@ == n@
                &&& forall|a: int, b: int|
                    #![trigger rubrics[a], rubrics[b]]
                    0 <= a < b < j ==> rubrics[a].name@ != rubrics[b].name@
            },
{
    let entries = rubrics.map_values(|r: Rubric<S, R>| (r, Binary64::one()));
    binary64::lemma_one_value();
    law_built_set_holds_its_entries(entries, result);
    if let Err(RubricSetError::DuplicateName(n)) = result {
        law_duplicate_name_is_one(entries, result, n);
    }
    if let Err(RubricSetError::NegativeWeight(n)) = result {
        law_negative_weight_is_one(entries, result, n);
    }
    assert forall|i: int| 0 <= i < rubrics.len() implies #[trigger] entries[i] == (
        rubrics[i],
        Binary64::one(),
    ) by {}
    if forall|i: int, j: int|
        #![trigger rubrics[i], rubrics[j]]
        0 <= i < j < rubrics.len() ==> rubrics[i].name@ != rubrics[j].name@ {
        assert forall|i: int, j: int|
            #![trigger entries[i], entries[j]]
            0 <= i < j < entries.len() implies entries[i].0.name@ != entries[j].0.name@ by {
            assert(rubrics[i].name@ != rubrics[j].name@);
        }
    }
    if result is Ok {
        assert forall|i: int, j: int|
            #![trigger rubrics[i], rubrics[j]]
            0 <= i < j < rubrics.len() implies rubrics[i].name@ != rubrics[j].name@ by {
            assert(entries[i].0.name@ != entries[j].0.name@);
        }
    }
    if let Err(RubricSetError::DuplicateName(n)) = result {
        let (i, j) = choose|i: int, j: int|
            #![trigger entries[i], entries[j]]
            {
                &&& 0 <= i < j < entries.len()
                &&& entries[i].0.name@ == n@
                &&& entries[j].0.name@ == n@
                &&& forall|a: int, b: int|
                    #![trigger entries[a], entries[b]]
                    0 <= a < b < j ==> entries[a].0.name@ != entries[b].0.name@
            };
        assert forall|a: int, b: int|
            #![trigger rubrics[a], rubrics[b]]
            0 <= a < b < j implies rubrics[a].name@ != rubrics[b].name@ by {
            assert(entries[a].0.name@ != entries[b].0.name@);
        }
        assert(rubrics[i].name@ == n@ && rubrics[j].name@ == n@);
    }
}

/// Whichever way entries are built into a set, the answer is the same.
pub proof fn law_building_has_one_answer<S, R>(
    entries: Entries<S, R>,
    a: Result<RubricSet<S, R>, RubricSetError>,
    b: Result<RubricSet<S, R>, RubricSetError>,
)
    requires
        rubric_set::built(entries, a),
        rubric_set::built(entries, b),
    ensures
        a is Ok <==> b is Ok,
        a is Ok ==> a->Ok_0@ == b->Ok_0@,
        a is Err ==> a->Err_0 == b->Err_0,
{
    law_built_exactly_where_valid(entries, a);
    law_built_exactly_where_valid(entries, b);
    if a is Err && entries.len() > 0 {
        let e = a->Err_0;
        let f = b->Err_0;
        let i = choose|i: int|
            {
                &&& 0 <= i < entries.len()
                &&& #[trigger] rubric_set::fault(entries, i) == Some(e)
                &&& forall|j: int| 0 <= j < i ==> #[trigger] rubric_set::fault(entries, j) is None
            };
        let k = choose|i: int|
            {
                &&& 0 <= i < entries.len()
                &&& #[trigger] rubric_set::fault(entries, i) == Some(f)
                &&& forall|j: int| 0 <= j < i ==> #[trigger] rubric_set::fault(entries, j) is None
            };
        assert(i == k);
    }
}

/// A uniform set is never refused for a weight.
pub proof fn law_uniform_is_never_negative<S, R>(
    rubrics: Seq<Rubric<S, R>>,
    result: Result<RubricSet<S, R>, RubricSetError>,
)
    requires
        rubric_set::built(rubrics.map_values(|r: Rubric<S, R>| (r, Binary64::one())), result),
    ensures
        !(result is Err && result->Err_0 is NegativeWeight),
{
    binary64::lemma_one_value();
}

/// A report holds one score for each rubric, under its name, in insertion
/// order, each between zero and one, and so is the overall score.
pub proof fn law_report_follows_the_set<S, R>(
    entries: Entries<S, R>,
    outcomes: Seq<Outcome>,
)
    ensures
        rubric_set::report_of(entries, outcomes).scores.map_values(|s: ScoreView| s.name)
            == rubric_set::names(entries),
        forall|i: int|
            0 <= i < entries.len() ==> (#[trigger] rubric_set::report_of(
                entries,
                outcomes,
            ).scores[i]).value.in_unit_interval(),
        rubric_set::report_of(entries, outcomes).overall.in_unit_interval(),
{
    binary64::lemma_one_value();
    assert(rubric_set::report_of(entries, outcomes).scores.map_values(|s: ScoreView| s.name)
        =~= rubric_set::names(entries));
}

/// A scorer that panics scores zero, and the reason tells of the panic.
pub proof fn law_panic_scores_zero(name: Seq<char>, payload: PanicPayload)
    ensures
        score::score_of(name, Err(payload)).value == Binary64::zero(),
        score::score_of(name, Err(payload)).reason is Some,
        "panic"@.is_prefix_of(score::score_of(name, Err(payload)).reason->0),
{
    reveal_strlit("panic");
    reveal_strlit("panic: ");
    reveal_strlit("panic in rubric scorer");
    let text = score::panic_text(payload);
    assert("panic"@ =~= text.subrange(0, 5));
}

/// A rubric from a simple scorer gives a reason for no score but that of a
/// panic.
pub proof fn law_simple_rubric_gives_no_reason<S>(
    name: Seq<char>,
    scorer: S,
    output: &str,
    context: Option<&Value>,
    outcome: Outcome,
) where S: Fn(&str, Option<&Value>) -> Result<Binary64, PanicPayload>
    requires
        rubric::simple_outcome(scorer, output, context, outcome),
    ensures
        score::score_of(name, outcome).reason is Some <==> outcome is Err,
{
}

/// A score comes from what the scorer may return for exactly the given output
/// and context: its value clipped, with its reason where it gives one; or zero,
/// with the panic as the reason.
pub proof fn law_score_comes_from_the_scorer<S, R>(
    rubric: Rubric<S, R>,
    output: &str,
    context: Option<&Value>,
    s: Score,
) where
    S: Fn(&str, Option<&Value>) -> Result<Binary64, PanicPayload>,
    R: Fn(&str, Option<&Value>) -> Outcome,

    requires
        rubric.scored(output, context, s),
    ensures
        rubric.scorer matches Scorer::Simple(f) ==> {
            ||| exists|v: Binary64|
                {
                    &&& #[trigger] call_ensures(f, (output, context), Ok(v))
                    &&& s.value == v.clipped()
                    &&& s.reason is None
                }
            ||| exists|p: PanicPayload|
                {
                    &&& #[trigger] call_ensures(f, (output, context), Err(p))
                    &&& s.value.bits == 0
                    &&& s.reason is Some
                    &&& p matches PanicPayload::Message(m) ==> s.reason->0@ == "panic: "@ + m@
                    &&& p is Opaque ==> s.reason->0@ == "panic in rubric scorer"@
                }
        },
        rubric.scorer matches Scorer::WithReason(f) ==> {
            ||| exists|v: Binary64, reason: Option<String>|
                {
                    &&& #[trigger] call_ensures(f, (output, context), Ok((v, reason)))
                    &&& s.value == v.clipped()
                    &&& s.reason == reason
                }
            ||| exists|p: PanicPayload|
                {
                    &&& #[trigger] call_ensures(f, (output, context), Err(p))
                    &&& s.value.bits == 0
                    &&& s.reason is Some
                    &&& p matches PanicPayload::Message(m) ==> s.reason->0@ == "panic: "@ + m@
                    &&& p is Opaque ==> s.reason->0@ == "panic in rubric scorer"@
                }
        },
{
}

/// A rubric comes to an outcome exactly where its scorer may return it for this
/// output and context, and may be called exactly where its scorer may.
pub proof fn law_rubric_runs_its_scorer<S, R>(
    rubric: Rubric<S, R>,
    output: &str,
    context: Option<&Value>,
    outcome: Outcome,
) where
    S: Fn(&str, Option<&Value>) -> Result<Binary64, PanicPayload>,
    R: Fn(&str, Option<&Value>) -> Outcome,

    ensures
        rubric.scorer matches Scorer::Simple(f) ==> {
            &&& rubric.accepts(output, context) <==> call_requires(f, (output, context))
            &&& outcome matches Ok((v, reason)) ==> (rubric.gives(output, context, outcome)
                <==> reason is None && call_ensures(f, (output, context), Ok(v)))
            &&& outcome matches Err(p) ==> (rubric.gives(output, context, outcome)
                <==> call_ensures(f, (output, context), Err(p)))
        },
        rubric.scorer matches Scorer::WithReason(f) ==> {
            &&& rubric.accepts(output, context) <==> call_requires(f, (output, context))
            &&& rubric.gives(output, context, outcome) <==> call_ensures(
                f,
                (output, context),
                outcome,
            )
        },
{
}

/// A scorer's value and its reason go into the score together and apart from
/// each other: the reason as it is, the value clipped, whatever the reason.
pub proof fn law_value_and_reason_are_kept(
    name: Seq<char>,
    v: Binary64,
    reason: Option<String>,
)
    ensures
        score::score_of(name, Ok((v, reason))).name == name,
        reason is None ==> score::score_of(name, Ok((v, reason))).reason is None,
        reason matches Some(t) ==> score::score_of(name, Ok((v, reason))).reason == Some(t@),
        v.is_nan() || v.value() < 0 ==> score::score_of(name, Ok((v, reason))).value.bits == 0,
        !v.is_nan() && v.value() > pow2(1074) ==> score::score_of(
            name,
            Ok((v, reason)),
        ).value.bits == 0x3ff0_0000_0000_0000,
        !v.is_nan() && 0 <= v.value() <= pow2(1074) ==> score::score_of(
            name,
            Ok((v, reason)),
        ).value == v,
{
    number_laws::law_clipped_value(v);
}

/// A panic's message stands behind the word that tells of the panic; without a
/// message a fixed text tells of it.
pub proof fn law_panic_texts(name: Seq<char>, message: String)
    ensures
        score::score_of(name, Err(PanicPayload::Message(message))).name == name,
        score::score_of(name, Err(PanicPayload::Message(message))).value.bits == 0,
        score::score_of(name, Err(PanicPayload::Message(message))).reason == Some(
            "panic: "@ + message@,
        ),
        score::score_of(name, Err(PanicPayload::Opaque)).name == name,
        score::score_of(name, Err(PanicPayload::Opaque)).value.bits == 0,
        score::score_of(name, Err(PanicPayload::Opaque)).reason == Some(
            "panic in rubric scorer"@,
        ),
{
}

/// The views of scores and reports leave nothing out.
pub proof fn law_views_are_whole(s: Score, r: Report)
    ensures
        s@.name == s.name@,
        s@.value == s.value,
        s.reason is None <==> s@.reason is None,
        s.reason matches Some(t) ==> s@.reason == Some(t@),
        r@.overall == r.overall,
        r@.scores.len() == r.scores@.len(),
        forall|i: int| 0 <= i < r.scores@.len() ==> #[trigger] r@.scores[i] == r.scores@[i]@,
{
}

/// The messages of the errors.
pub proof fn law_error_messages(name: String)
    ensures
        RubricSetError::Empty.message() == "RubricSet requires at least one rubric"@,
        RubricSetError::DuplicateName(name).message() == "duplicate rubric name: "@ + name@,
        RubricSetError::NegativeWeight(name).message() == "negative weight for rubric: "@ + name@,
{
}

/// A list of texts grows by a comma, a space and the text; the first stands
/// alone.
pub proof fn law_list_grows(items: Seq<Seq<char>>, item: Seq<char>)
    ensures
        text::list_text(seq![]) == "[]"@,
        items.len() == 0 ==> text::list_text(items.push(item)) == "["@ + item + "]"@,
        items.len() > 0 ==> text::list_text(items.push(item)) == text::list_text(items).drop_last()
            + ", "@ + item + "]"@,
{
    reveal_strlit("[");
    reveal_strlit("]");
    reveal_strlit("[]");
    let more = items.push(item);
    assert(more.drop_last() =~= items);
    assert(text::list_text(seq![]) =~= "[]"@);
    if items.len() > 0 {
        assert(text::list_text(items).drop_last() =~= "["@ + text::joined(items));
        assert(text::list_text(more) =~= text::list_text(items).drop_last() + ", "@ + item + "]"@);
    }
}

/// The overall score of a report is the weighted average of its scores: times
/// the exact sum of the weights, it is the exact sum of each score times its
/// weight, but for the rounding of each step.
pub proof fn law_report_overall_is_the_weighted_average<S, R>(
    entries: Entries<S, R>,
    outcomes: Seq<Outcome>,
)
    requires
        entries.len() <= 0x10_0000_0000_0000,
        forall|i: int|
            0 <= i < entries.len() ==> !(#[trigger] entries[i]).1.is_nan() && entries[i].1.value()
                >= 0,
        Seq::new(entries.len(), |i: int| entries[i].1.value()).fold_left(
            0int,
            |a: int, x: int| a + x,
        ) <= pow2(2096),
    ensures
        ({
            let n = entries.len();
            let one = pow2(1074);
            let report = rubric_set::report_of(entries, outcomes);
            let w = Seq::new(entries.len(), |i: int| entries[i].1.value()).fold_left(
                0int,
                |a: int, x: int| a + x,
            );
            let s = Seq::new(
                entries.len(),
                |i: int| report.scores[i].value.value() * entries[i].1.value(),
            ).fold_left(0int, |a: int, x: int| a + x);
            abs(report.overall.value() * w - s) * 0x20_0000_0000_0000 <= (4 * n + 5) * (one * w) + n
                * (0x10_0000_0000_0000 * one)
        }),
{
    let report = rubric_set::report_of(entries, outcomes);
    let values = report.scores.map_values(|s: ScoreView| s.value);
    let ws = rubric_set::weights(entries);
    lemma_report_values(entries, outcomes);
    assert(Seq::new(ws.len(), |i: int| ws[i].value())
        =~= Seq::new(entries.len(), |i: int| entries[i].1.value()));
    assert(Seq::new(ws.len(), |i: int| values[i].value() * ws[i].value())
        =~= Seq::new(entries.len(), |i: int| report.scores[i].value.value() * entries[i].1.value()));
    assert forall|i: int| 0 <= i < ws.len() implies !(#[trigger] ws[i]).is_nan() && ws[i].value()
        >= 0 by {
        assert(!entries[i].1.is_nan() && entries[i].1.value() >= 0);
    }
    accuracy_laws::law_overall_is_the_weighted_average(values, ws);
}

proof fn lemma_report_values<S, R>(entries: Entries<S, R>, outcomes: Seq<Outcome>)
    ensures
        ({
            let values = rubric_set::report_of(entries, outcomes).scores.map_values(
                |s: ScoreView| s.value,
            );
            &&& values.len() == entries.len()
            &&& forall|i: int|
                0 <= i < values.len() ==> !(#[trigger] values[i]).is_nan() && 0 <= values[i].value()
                    <= pow2(1074)
        }),
{
    let scores = rubric_set::report_of(entries, outcomes).scores;
    let values = scores.map_values(|s: ScoreView| s.value);
    binary64::lemma_one_value();
    law_report_follows_the_set(entries, outcomes);
    assert forall|i: int| 0 <= i < values.len() implies !(#[trigger] values[i]).is_nan() && 0
        <= values[i].value() <= pow2(1074) by {
        assert(scores[i].value.in_unit_interval());
    }
}

/// To the last bit, the overall score of a report is what rounded additions in
/// insertion order, rounded products and one rounded division give; zero where
/// the weights add up to zero or to what is not a number.
pub proof fn law_report_overall_step_by_step<S, R>(
    entries: Entries<S, R>,
    outcomes: Seq<Outcome>,
)
    ensures
        ({
            let report = rubric_set::report_of(entries, outcomes);
            let t = Seq::new(entries.len(), |i: int| entries[i].1).fold_left(
                Binary64::negative_zero(),
                |a: Binary64, x: Binary64| a.sum(x),
            );
            let a = Seq::new(
                entries.len(),
                |i: int| report.scores[i].value.product(entries[i].1),
            ).fold_left(Binary64::negative_zero(), |a: Binary64, x: Binary64| a.sum(x));
            report.overall == if t.is_nan() || t.value() == 0 {
                Binary64::zero()
            } else {
                a.quotient(t).clipped()
            }
        }),
{
    let report = rubric_set::report_of(entries, outcomes);
    let values = report.scores.map_values(|s: ScoreView| s.value);
    let ws = rubric_set::weights(entries);
    accuracy_laws::law_overall_step_by_step(values, ws);
    assert(Seq::new(entries.len(), |i: int| entries[i].1) =~= ws);
    assert(Seq::new(ws.len(), |i: int| values[i].product(ws[i]))
        =~= Seq::new(entries.len(), |i: int| report.scores[i].value.product(entries[i].1)));
}

/// Where one scorer's outcome changes, the overall score moves by that rubric's
/// share of the weight times the change of its score, but for rounding: a clear
/// rise of a score with a clear share is a rise of the overall score.
pub proof fn law_report_overall_moves_by_the_share<S, R>(
    entries: Entries<S, R>,
    outcomes: Seq<Outcome>,
    k: int,
    outcome: Outcome,
)
    requires
        outcomes.len() == entries.len(),
        0 <= k < entries.len(),
        entries.len() <= 0x10_0000_0000_0000,
        forall|i: int|
            0 <= i < entries.len() ==> !(#[trigger] entries[i]).1.is_nan() && entries[i].1.value()
                >= 0,
        Seq::new(entries.len(), |i: int| entries[i].1.value()).fold_left(
            0int,
            |a: int, x: int| a + x,
        ) <= pow2(2096),
    ensures
        ({
            let n = entries.len();
            let one = pow2(1074);
            let old_report = rubric_set::report_of(entries, outcomes);
            let new_report = rubric_set::report_of(entries, outcomes.update(k, outcome));
            let w = Seq::new(entries.len(), |i: int| entries[i].1.value()).fold_left(
                0int,
                |a: int, x: int| a + x,
            );
            let rise = new_report.overall.value() - old_report.overall.value();
            let share = (new_report.scores[k].value.value() - old_report.scores[k].value.value())
                * entries[k].1.value();
            abs(rise * w - share) * 0x20_0000_0000_0000 <= 2 * ((4 * n + 5) * (one * w) + n * (
                0x10_0000_0000_0000 * one))
        }),
{
    let other = outcomes.update(k, outcome);
    let a = rubric_set::report_of(entries, outcomes).scores;
    let b = rubric_set::report_of(entries, other).scores;
    let v1 = a.map_values(|s: ScoreView| s.value);
    let v2 = b.map_values(|s: ScoreView| s.value);
    let ws = rubric_set::weights(entries);
    lemma_report_values(entries, outcomes);
    lemma_report_values(entries, other);
    assert(Seq::new(ws.len(), |i: int| ws[i].value())
        =~= Seq::new(entries.len(), |i: int| entries[i].1.value()));
    assert forall|i: int| 0 <= i < ws.len() implies !(#[trigger] ws[i]).is_nan() && ws[i].value()
        >= 0 by {
        assert(!entries[i].1.is_nan() && entries[i].1.value() >= 0);
    }
    assert forall|i: int| 0 <= i < ws.len() && i != k implies #[trigger] v1[i] == v2[i] by {
        assert(a[i] == b[i]);
    }
    assert(!v2[k].is_nan() && 0 <= v2[k].value() <= pow2(1074));
    accuracy_laws::law_overall_moves_by_the_share(v1, v2, ws, k);
}

/// One scorer's outcome touches no other rubric's score.
pub proof fn law_scores_are_isolated<S, R>(
    entries: Entries<S, R>,
    outcomes: Seq<Outcome>,
    i: int,
    outcome: Outcome,
    j: int,
)
    requires
        outcomes.len() == entries.len(),
        0 <= i < entries.len(),
        0 <= j < entries.len(),
        i != j,
    ensures
        rubric_set::report_of(entries, outcomes.update(i, outcome)).scores[j]
            == rubric_set::report_of(entries, outcomes).scores[j],
{
}

/// A scorer that panics weighs on the overall score as one that gives zero.
pub proof fn law_panic_weighs_as_zero<S, R>(
    entries: Entries<S, R>,
    outcomes: Seq<Outcome>,
    i: int,
    payload: PanicPayload,
)
    requires
        outcomes.len() == entries.len(),
        0 <= i < entries.len(),
    ensures
        rubric_set::report_of(entries, outcomes.update(i, Err(payload))).overall
            == rubric_set::report_of(
            entries,
            outcomes.update(i, Ok((Binary64::zero(), None))),
        ).overall,
{
    binary64::lemma_one_value();
    let a = rubric_set::report_of(entries, outcomes.update(i, Err(payload)));
    let b = rubric_set::report_of(entries, outcomes.update(i, Ok((Binary64::zero(), None))));
    assert(a.scores.map_values(|s: ScoreView| s.value)
        =~= b.scores.map_values(|s: ScoreView| s.value));
}

/// Looking up a rubric's name in the report of its set finds that rubric's
/// score.
pub proof fn law_lookup_finds_each_rubric<S, R>(
    entries: Entries<S, R>,
    outcomes: Seq<Outcome>,
    report: Report,
    i: int,
    found: Option<&Score>,
)
    requires
        rubric_set::valid_entries(entries),
        report@ == rubric_set::report_of(entries, outcomes),
        0 <= i < entries.len(),
        score::first_of_name(report.scores@, entries[i].0.name@, found),
    ensures
        found is Some,
        found->0@ == score::score_of(entries[i].0.name@, outcomes[i]),
{
    let names = rubric_set::names(entries);
    let scores = report.scores@;
    assert forall|k: int| 0 <= k < entries.len() implies (#[trigger] scores[k])@
        == score::score_of(entries[k].0.name@, outcomes[k]) && scores[k].name@ == names[k] by {
        assert(report@.scores[k] == scores[k]@);
    }
    assert(report@.scores.len() == scores.len());
    assert(scores[i].name@ == names[i]);
}

/// Looking a name up stops at the first score when it has the name, and goes on
/// with the rest when it has not; it finds nothing among no scores.
pub proof fn law_lookup_goes_in_order(
    first: Score,
    rest: Seq<Score>,
    name: Seq<char>,
    r: Option<&Score>,
)
    ensures
        score::first_of_name(Seq::empty(), name, r) <==> r is None,
        score::first_of_name(seq![first] + rest, name, r) <==> if first.name@ == name {
            r is Some && *r->0 == first
        } else {
            score::first_of_name(rest, name, r)
        },
{
    let all = seq![first] + rest;
    assert(all[0] == first);
    assert forall|i: int| 0 <= i < rest.len() implies #[trigger] rest[i] == all[i + 1] by {}
    if score::first_of_name(all, name, r) && r is Some {
        let i = choose|i: int|
            #![trigger all[i]]
            {
                &&& 0 <= i < all.len()
                &&& *r->0 == all[i]
                &&& r->0.name@ == name
                &&& forall|j: int| 0 <= j < i ==> (#[trigger] all[j]).name@ != name
            };
        if first.name@ != name {
            assert(rest[i - 1] == all[i]);
        }
    }
    if first.name@ != name && score::first_of_name(rest, name, r) {
        assert forall|j: int| 0 < j < all.len() implies #[trigger] all[j] == rest[j - 1] by {}
        if r is Some {
            let i = choose|i: int|
                #![trigger rest[i]]
                {
                    &&& 0 <= i < rest.len()
                    &&& *r->0 == rest[i]
                    &&& r->0.name@ == name
                    &&& forall|j: int| 0 <= j < i ==> (#[trigger] rest[j]).name@ != name
                };
            assert(all[i + 1] == rest[i]);
        }
    }
}

/// Looking up a name that no rubric of the set has finds nothing.
pub proof fn law_lookup_misses_other_names<S, R>(
    entries: Entries<S, R>,
    outcomes: Seq<Outcome>,
    report: Report,
    name: Seq<char>,
    found: Option<&Score>,
)
    requires
        report@ == rubric_set::report_of(entries, outcomes),
        !rubric_set::names(entries).contains(name),
        score::first_of_name(report.scores@, name, found),
    ensures
        found is None,
{
    let names = rubric_set::names(entries);
    let scores = report.scores@;
    assert(report@.scores.len() == scores.len());
    assert forall|k: int| 0 <= k < scores.len() implies (#[trigger] scores[k]).name@ != name by {
        assert(report@.scores[k] == scores[k]@);
        assert(names[k] == scores[k].name@);
    }
}

/// Rubrics rank: where an output scores at least as much as another on every
/// rubric of a set, its overall score is at least as high.
pub proof fn law_set_ranks<S, R>(
    entries: Entries<S, R>,
    low: Seq<Outcome>,
    high: Seq<Outcome>,
)
    requires
        rubric_set::valid_entries(entries),
        forall|i: int|
            0 <= i < entries.len() ==> (#[trigger] rubric_set::report_of(
                entries,
                low,
            ).scores[i]).value.value() <= rubric_set::report_of(
                entries,
                high,
            ).scores[i].value.value(),
    ensures
        rubric_set::report_of(entries, low).overall.value()
            <= rubric_set::report_of(entries, high).overall.value(),
{
    let a = rubric_set::report_of(entries, low).scores;
    let b = rubric_set::report_of(entries, high).scores;
    let v1 = a.map_values(|s: ScoreView| s.value);
    let v2 = b.map_values(|s: ScoreView| s.value);
    let ws = rubric_set::weights(entries);
    law_report_follows_the_set(entries, low);
    law_report_follows_the_set(entries, high);
    assert forall|i: int| 0 <= i < ws.len() implies (#[trigger] v1[i]).in_unit_interval()
        && v1[i].value() <= v2[i].value() by {
        assert(a[i].value.in_unit_interval());
    }
    assert forall|i: int| 0 <= i < ws.len() implies (#[trigger] v2[i]).in_unit_interval() by {
        assert(b[i].value.in_unit_interval());
    }
    assert forall|i: int| 0 <= i < ws.len() implies !(#[trigger] ws[i]).below(Binary64::zero()) by {
        assert(!entries[i].1.below(Binary64::zero()));
    }
    average_laws::law_overall_ranks(v1, v2, ws);
}

/// A rubric of weight zero is excluded from the overall score of its set:
/// whatever its scorer comes to, and even without it, the overall score is the
/// same.
pub proof fn law_zero_weight_rubric_is_excluded<S, R>(
    entries: Entries<S, R>,
    outcomes: Seq<Outcome>,
    k: int,
    outcome: Outcome,
)
    requires
        outcomes.len() == entries.len(),
        0 <= k < entries.len(),
        entries[k].1.equals(Binary64::zero()),
    ensures
        rubric_set::report_of(entries, outcomes).overall.equals(
            rubric_set::report_of(entries, outcomes.update(k, outcome)).overall,
        ),
        rubric_set::report_of(entries, outcomes).overall.equals(
            rubric_set::report_of(entries.remove(k), outcomes.remove(k)).overall,
        ),
{
    let other = outcomes.update(k, outcome);
    let v1 = rubric_set::report_of(entries, outcomes).scores.map_values(|s: ScoreView| s.value);
    let v2 = rubric_set::report_of(entries, other).scores.map_values(|s: ScoreView| s.value);
    let rest = rubric_set::report_of(entries.remove(k), outcomes.remove(k)).scores.map_values(
        |s: ScoreView| s.value,
    );
    let ws = rubric_set::weights(entries);
    law_report_follows_the_set(entries, outcomes);
    law_report_follows_the_set(entries, other);
    assert(rubric_set::report_of(entries, outcomes).scores[k].value.in_unit_interval());
    assert(rubric_set::report_of(entries, other).scores[k].value.in_unit_interval());
    average_laws::law_zero_weight_is_excluded(v1, ws, k);
    average_laws::law_zero_weight_is_excluded(v2, ws, k);
    assert(v1.remove(k) =~= rest);
    assert(v2.remove(k) =~= rest);
    assert(ws.remove(k) =~= rubric_set::weights(entries.remove(k)));
}

/// Only the ratios of the weights matter: a set whose weights are those of
/// another, all multiplied by the same power of two, gives the same report on
/// the same outcomes, as long as no score underflows when it is weighted and a
/// finite sum of the weights does not overflow.
pub proof fn law_only_weight_ratios_matter<S, R>(
    entries: Entries<S, R>,
    scaled: Entries<S, R>,
    outcomes: Seq<Outcome>,
    k: nat,
)
    requires
        rubric_set::valid_entries(entries),
        scaled.len() == entries.len(),
        forall|i: int| 0 <= i < entries.len() ==> (#[trigger] scaled[i]).0 == entries[i].0,
        forall|i: int|
            0 <= i < entries.len() ==> average_laws::scaled_weight(
                entries[i].1,
                (#[trigger] scaled[i]).1,
                k,
            ),
        average::total(rubric_set::weights(entries)).is_finite() ==> average::total(
            rubric_set::weights(scaled),
        ).is_finite(),
        average::total(rubric_set::weights(entries)).is_finite() ==> forall|i: int|
            0 <= i < entries.len() ==> average_laws::weighs_without_underflow(
                (#[trigger] rubric_set::report_of(entries, outcomes).scores[i]).value,
                entries[i].1,
            ),
    ensures
        rubric_set::report_of(scaled, outcomes).scores
            == rubric_set::report_of(entries, outcomes).scores,
        rubric_set::report_of(scaled, outcomes).overall.equals(
            rubric_set::report_of(entries, outcomes).overall,
        ),
{
    let scores = rubric_set::report_of(entries, outcomes).scores;
    let values = scores.map_values(|s: ScoreView| s.value);
    let ws = rubric_set::weights(entries);
    let big = rubric_set::weights(scaled);
    law_report_follows_the_set(entries, outcomes);
    assert forall|i: int| 0 <= i < scores.len() implies
        #[trigger] rubric_set::report_of(scaled, outcomes).scores[i] == scores[i] by {
        assert(scaled[i].0 == entries[i].0);
    }
    assert(rubric_set::report_of(scaled, outcomes).scores =~= scores);
    assert forall|i: int| 0 <= i < values.len() implies (#[trigger] values[i]).in_unit_interval() by {
        assert(scores[i].value.in_unit_interval());
    }
    assert forall|i: int| 0 <= i < values.len() implies !(#[trigger] ws[i]).below(Binary64::zero()) by {
        assert(!entries[i].1.below(Binary64::zero()));
    }
    assert forall|i: int| 0 <= i < values.len() implies average_laws::scaled_weight(
        ws[i],
        #[trigger] big[i],
        k,
    ) by {
        assert(average_laws::scaled_weight(entries[i].1, scaled[i].1, k));
    }
    if average::total(ws).is_finite() {
        assert forall|i: int| 0 <= i < values.len() implies average_laws::weighs_without_underflow(
            values[i],
            #[trigger] ws[i],
        ) by {
            assert(average_laws::weighs_without_underflow(scores[i].value, entries[i].1));
        }
    }
    average_laws::law_scaling_weights_changes_nothing(values, ws, big, k);
}

} // verus!
