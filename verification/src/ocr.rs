//! Order-preserving OCR outcome logic: per-event text assembly from the
//! recognized line texts, result ordering bound to input indices, and
//! aggregation of the final outcome list.

use crate::preprocessor::TimeSpan;
use vstd::prelude::*;

verus! {

/// What can go wrong while orchestrating recognition. Variants that wrap an
/// engine or encoding failure carry the failure's description.
#[derive(Clone, Debug, PartialEq, Eq)]
pub enum Error {
    /// The worker pool could not be built. Fatal to the run.
    BuildThreadPool { message: String },
    /// A worker could not construct its engine instance. Fatal to the run:
    /// the same configuration fails for every worker.
    Initialize { message: String },
    /// An engine variable could not be set while configuring a new engine
    /// instance. Fatal to the run for the same reason.
    SetVariable { message: String },
    /// A line image could not be encoded for the engine. Recoverable: it
    /// fails that event only.
    WriteImage { message: String },
    /// The engine rejected a line image. Recoverable likewise.
    SetImage { message: String },
    /// The engine's output was not valid text. Recoverable likewise.
    GetText { message: String },
    /// A worker was asked for text before its engine existed. Recoverable
    /// likewise.
    TesseractNotInitialized,
}

/// Whether a failure is a configuration or engine-construction failure. Such
/// a failure is fatal to the whole run: an engine that cannot be built from
/// the configured data directory, language and variables cannot be built by
/// any worker, and retrying with identical configuration cannot succeed.
pub open spec fn is_fatal(e: Error) -> bool {
    ||| e is BuildThreadPool
    ||| e is Initialize
    ||| e is SetVariable
}

/// Runtime test for `is_fatal`.
pub fn is_fatal_error(e: &Error) -> (r: bool)
    ensures
        r == is_fatal(*e),
{
    match e {
        Error::BuildThreadPool { .. } => true,
        Error::Initialize { .. } => true,
        Error::SetVariable { .. } => true,
        _ => false,
    }
}

/// The text of one event from its per-line recognition results, read in
/// order from line `i` on: the concatenation of the lines' texts, or the
/// first failure. Lines after a failure are never read.
pub open spec fn event_text_from(results: Seq<Result<String, Error>>, i: int) -> Result<
    Seq<char>,
    Error,
>
    decreases results.len() - i,
{
    if i < 0 || i >= results.len() {
        Result::Ok(Seq::empty())
    } else {
        match results[i] {
            Result::Err(e) => Result::Err(e),
            Result::Ok(s) => match event_text_from(results, i + 1) {
                Result::Ok(rest) => Result::Ok(s@ + rest),
                Result::Err(e) => Result::Err(e),
            },
        }
    }
}

/// The text of one event: its lines' texts concatenated top to bottom, or
/// the first line failure.
pub open spec fn event_text(results: Seq<Result<String, Error>>) -> Result<Seq<char>, Error> {
    event_text_from(results, 0)
}

/// What one event's outcome must be, given its time span and per-line
/// recognition results.
pub open spec fn outcome_of(
    time_span: TimeSpan,
    results: Seq<Result<String, Error>>,
    out: Result<(TimeSpan, String), Error>,
) -> bool {
    match event_text(results) {
        Result::Ok(t) => out is Ok && (out->Ok_0).0 == time_span && (out->Ok_0).1@ == t,
        Result::Err(e) => out is Err && out->Err_0 == e,
    }
}

/// Assembles one event's outcome: the recognized line texts concatenated
/// strictly in top-to-bottom order, or the first failure, which abandons the
/// remaining lines of this event only.
pub fn event_outcome(time_span: TimeSpan, line_results: Vec<Result<String, Error>>) -> (r: Result<
    (TimeSpan, String),
    Error,
>)
    ensures
        outcome_of(time_span, line_results@, r),
{
    let ghost all = line_results@;
    let mut rest = line_results;
    let mut text = String::new();
    let mut failure: Option<Error> = None;
    let ghost mut i: int = 0;
    loop
        invariant_except_break
            0 <= i <= all.len(),
            rest@ == all.subrange(i, all.len() as int),
            failure is None,
            forall|k: int| 0 <= k < i ==> (#[trigger] all[k]) is Ok,
            event_text(all) == match event_text_from(all, i) {
                Result::Ok(t) => Result::<Seq<char>, Error>::Ok(text@ + t),
                Result::Err(e) => Result::<Seq<char>, Error>::Err(e),
            },
        ensures
            match failure {
                Option::Some(e) => event_text(all) == Result::<Seq<char>, Error>::Err(e),
                Option::None => event_text(all) == Result::<Seq<char>, Error>::Ok(text@),
            },
        decreases rest@.len(),
    {
        if rest.len() == 0 {
            proof {
                assert(event_text_from(all, i) == Result::<Seq<char>, Error>::Ok(
                    Seq::<char>::empty(),
                ));
                assert(text@ + Seq::<char>::empty() =~= text@);
            }
            break;
        }
        let ghost old_rest = rest@;
        let head = rest.remove(0);
        proof {
            assert(old_rest[0] == all[i]);
            assert(rest@ =~= all.subrange(i + 1, all.len() as int));
        }
        match head {
            Result::Ok(s) => {
                proof {
                    if event_text_from(all, i + 1) is Ok {
                        assert((text@ + s@) + event_text_from(all, i + 1)->Ok_0 =~= text@ + (s@
                            + event_text_from(all, i + 1)->Ok_0));
                    }
                }
                text.append(s.as_str());
                proof {
                    i = i + 1;
                }
            },
            Result::Err(e) => {
                proof {
                    assert(event_text_from(all, i) == Result::<Seq<char>, Error>::Err(e));
                }
                failure = Some(e);
                break;
            },
        }
    }
    match failure {
        Some(e) => Result::Err(e),
        None => Result::Ok((time_span, text)),
    }
}

/// Whether an event's per-line results carry a configuration or
/// engine-construction failure as the event's (first) failure.
pub open spec fn event_fatal(results: Seq<Result<String, Error>>) -> bool {
    event_text(results) is Err && is_fatal(event_text(results)->Err_0)
}

/// OCR Orchestrator outcome assembly: one outcome per event, bound to the
/// event's input position, so the output order equals the input order
/// whatever order the per-line results were produced in. A configuration or
/// engine-construction failure is fatal: the first event carrying one aborts
/// the whole run with that failure. Per-image failures are recoverable: they
/// fail their own event only.
pub fn process(vobsubs: Vec<(TimeSpan, Vec<Result<String, Error>>)>) -> (r: Result<
    Vec<Result<(TimeSpan, String), Error>>,
    Error,
>)
    ensures
        r is Err <==> exists|i: int|
            0 <= i < vobsubs@.len() && event_fatal((#[trigger] vobsubs@[i]).1@),
        r is Err ==> exists|i: int|
            {
                &&& 0 <= i < vobsubs@.len()
                &&& event_fatal((#[trigger] vobsubs@[i]).1@)
                &&& (forall|j: int| 0 <= j < i ==> !event_fatal((#[trigger] vobsubs@[j]).1@))
                &&& r->Err_0 == event_text(vobsubs@[i].1@)->Err_0
            },
        r is Ok ==> (r->Ok_0)@.len() == vobsubs@.len() && forall|i: int|
            0 <= i < vobsubs@.len() ==> outcome_of(
                (#[trigger] vobsubs@[i]).0,
                vobsubs@[i].1@,
                (r->Ok_0)@[i],
            ),
{
    let ghost all = vobsubs@;
    let mut rest = vobsubs;
    let mut r: Vec<Result<(TimeSpan, String), Error>> = Vec::new();
    let mut fatal: Option<Error> = None;
    let ghost mut i: int = 0;
    loop
        invariant_except_break
            0 <= i <= all.len(),
            rest@ == all.subrange(i, all.len() as int),
            r@.len() == i,
            fatal is None,
            forall|k: int|
                0 <= k < i ==> outcome_of((#[trigger] all[k]).0, all[k].1@, r@[k]) && !event_fatal(
                    all[k].1@,
                ),
        ensures
            match fatal {
                Option::Some(e) => exists|k: int|
                    {
                        &&& 0 <= k < all.len()
                        &&& event_fatal((#[trigger] all[k]).1@)
                        &&& (forall|j: int| 0 <= j < k ==> !event_fatal((#[trigger] all[j]).1@))
                        &&& event_text(all[k].1@)->Err_0 == e
                    },
                Option::None => r@.len() == all.len() && forall|k: int|
                    0 <= k < all.len() ==> outcome_of((#[trigger] all[k]).0, all[k].1@, r@[k])
                        && !event_fatal(all[k].1@),
            },
        decreases rest@.len(),
    {
        if rest.len() == 0 {
            break;
        }
        let ghost old_rest = rest@;
        let (time_span, line_results) = rest.remove(0);
        let ghost lines = line_results@;
        proof {
            assert(old_rest[0] == all[i]);
            assert(rest@ =~= all.subrange(i + 1, all.len() as int));
        }
        let outcome = event_outcome(time_span, line_results);
        match outcome {
            Result::Err(e) => {
                if is_fatal_error(&e) {
                    proof {
                        assert(event_fatal(all[i].1@));
                        assert(event_text(all[i].1@)->Err_0 == e);
                    }
                    fatal = Some(e);
                    break;
                }
                proof {
                    assert(!event_fatal(all[i].1@));
                }
                r.push(Result::Err(e));
            },
            Result::Ok(v) => {
                proof {
                    assert(!event_fatal(all[i].1@));
                }
                r.push(Result::Ok(v));
            },
        }
        proof {
            i = i + 1;
        }
    }
    match fatal {
        Some(e) => Result::Err(e),
        None => Result::Ok(r),
    }
}

/// The successful outcomes, in order.
pub open spec fn successes(outcomes: Seq<Result<(TimeSpan, String), Error>>) -> Seq<
    (TimeSpan, String),
>
    decreases outcomes.len(),
{
    if outcomes.len() == 0 {
        Seq::empty()
    } else if outcomes[0] is Ok {
        seq![outcomes[0]->Ok_0] + successes(outcomes.drop_first())
    } else {
        successes(outcomes.drop_first())
    }
}

/// Whether any outcome is a failure.
pub open spec fn any_failure(outcomes: Seq<Result<(TimeSpan, String), Error>>) -> bool {
    exists|i: int| 0 <= i < outcomes.len() && (#[trigger] outcomes[i]) is Err
}

/// Result Aggregator: keeps the successful (time span, text) pairs in order,
/// and reports a non-zero status exactly when some event failed. The
/// outcomes it sees carry per-image failures only (a construction failure
/// never gets this far): such an event is excluded and the run continues.
pub fn aggregate_outcomes(outcomes: Vec<Result<(TimeSpan, String), Error>>) -> (r: (
    Vec<(TimeSpan, String)>,
    i32,
))
    ensures
        r.0@ == successes(outcomes@),
        r.1 == if any_failure(outcomes@) {
            1i32
        } else {
            0i32
        },
{
    let ghost all = outcomes@;
    let mut rest = outcomes;
    let mut subs: Vec<(TimeSpan, String)> = Vec::new();
    let mut return_code: i32 = 0;
    let ghost mut i: int = 0;
    loop
        invariant
            0 <= i <= all.len(),
            rest@ == all.subrange(i, all.len() as int),
            successes(all) =~= subs@ + successes(rest@),
            return_code == if exists|k: int| 0 <= k < i && (#[trigger] all[k]) is Err {
                1i32
            } else {
                0i32
            },
        ensures
            subs@ == successes(all),
            return_code == if any_failure(all) {
                1i32
            } else {
                0i32
            },
        decreases rest@.len(),
    {
        if rest.len() == 0 {
            proof {
                assert(subs@ + successes(rest@) =~= subs@);
                if return_code == 1i32 {
                    let k = choose|k: int| 0 <= k < i && (#[trigger] all[k]) is Err;
                    assert(any_failure(all));
                }
            }
            break;
        }
        let ghost old_rest = rest@;
        let head = rest.remove(0);
        proof {
            assert(old_rest[0] == all[i]);
            assert(rest@ =~= all.subrange(i + 1, all.len() as int));
            assert(old_rest.drop_first() =~= rest@);
        }
        match head {
            Result::Ok(sub) => {
                let ghost old_subs = subs@;
                subs.push(sub);
                proof {
                    assert(old_subs + (seq![old_rest[0]->Ok_0] + successes(rest@)) =~= subs@
                        + successes(rest@));
                }
            },
            Result::Err(_) => {
                return_code = 1;
            },
        }
        proof {
            i = i + 1;
        }
    }
    (subs, return_code)
}

} // verus!
