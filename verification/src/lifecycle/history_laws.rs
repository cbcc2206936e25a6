//! What holds of any sequence of submissions.

use vstd::prelude::*;

use crate::lifecycle::manager;
use crate::lifecycle::manager::{Action, NextView, Progress};
use crate::lifecycle::plan;
use crate::lifecycle::plan::{DesiredView, EndpointSource, PlanView};
use crate::lifecycle::reconcile;
use crate::lifecycle::reconcile::{
    AnswerView, ApplyStageView, ApplyingView, GenerationState, PendingView, ReconcilerView, ResponseView, StepNext,
    StepView,
};
use crate::lifecycle::restore;
use crate::lifecycle::restore::RestoringView;
use crate::lifecycle::run_laws;
use crate::lifecycle::types::Generation;

verus! {

/// A submission and the answers to what it waits for.
pub struct Submission<V> {
    pub generation: Generation,
    pub endpoints: Seq<DesiredView<V>>,
    pub answers: Seq<AnswerView<V>>,
}

/// What one answer leads to.
///
/// This is [`reconcile::resumed`]. It is kept opaque so that a sequence of
/// submissions can be spoken of without looking into each of its steps.
#[verifier::opaque]
pub open spec fn answered<S: EndpointSource>(
    r: ReconcilerView<S::V>,
    pending: PendingView<S::V>,
    answer: AnswerView<S::V>,
) -> StepView<S::V> {
    reconcile::resumed::<S>(r, pending, answer)
}

/// Go on with a submission until it is through or there are no more answers.
pub open spec fn carried_on<S: EndpointSource>(
    x: StepView<S::V>,
    answers: Seq<AnswerView<S::V>>,
) -> StepView<S::V>
    decreases answers.len(),
{
    match x.next {
        StepNext::More(pending) => if answers.len() == 0 {
            x
        } else {
            carried_on::<S>(
                answered::<S>(x.reconciler, pending, answers[0]).after(x.actions),
                answers.drop_first(),
            )
        },
        _ => x,
    }
}

/// What becomes of a submission.
pub open spec fn served<S: EndpointSource>(r: ReconcilerView<S::V>, s: Submission<S::V>) -> StepView<S::V> {
    carried_on::<S>(reconcile::submitted(r, s.generation, s.endpoints), s.answers)
}

/// The answer that is replayed is the answer to the active generation.
pub open spec fn consistent<V>(r: ReconcilerView<V>) -> bool {
    r.last matches Some(last) ==> r.active == Some(last.generation) && r.partial == (last.state
        == GenerationState::PartiallyApplied)
}

/// A generation is not older than the active one.
pub open spec fn not_older(active: Option<Generation>, generation: Generation) -> bool {
    active matches Some(g) ==> g <= generation
}

/// The generation a wait belongs to.
pub open spec fn generation_of<V>(pending: PendingView<V>) -> Generation {
    match pending {
        PendingView::Refreshing { generation, .. } => generation,
        PendingView::Building { generation, .. } => generation,
        PendingView::Applying(a) => a.generation,
    }
}

/// A generation is in effect, and the answer says so.
pub open spec fn in_effect<V>(r: ReconcilerView<V>, generation: Generation, response: ResponseView) -> bool {
    &&& r.active == Some(generation)
    &&& response.generation == generation
    &&& r.partial == (response.state == GenerationState::PartiallyApplied)
}

/// Where a submission may stand that began in state `r`.
pub open spec fn stands<V>(r: ReconcilerView<V>, generation: Generation, x: StepView<V>) -> bool {
    &&& x.reconciler.ready == r.ready
    &&& x.reconciler.location == r.location
    &&& match x.next {
        StepNext::More(pending) => {
            &&& generation_of(pending) == generation
            &&& not_older(r.active, generation)
            &&& x.reconciler.active == r.active
            &&& x.reconciler.partial == r.partial
            &&& x.reconciler.applied == r.applied
            &&& x.reconciler.last == r.last
            &&& !(pending is Applying) ==> x.reconciler == r && x.actions == Seq::<Action>::empty()
        },
        StepNext::Applied(response) => {
            &&& not_older(r.active, generation)
            &&& in_effect(x.reconciler, generation, response)
            &&& x.reconciler.last == Some(response)
        },
        StepNext::Reply(Ok(response)) => {
            &&& x.reconciler == r
            &&& x.actions == Seq::<Action>::empty()
            &&& r.active == Some(generation)
            &&& r.last == Some(response)
        },
        StepNext::Reply(Err(_)) => x.reconciler == r && x.actions == Seq::<Action>::empty(),
    }
}

proof fn lemma_skip_stands<V>(r: ReconcilerView<V>, a: ApplyingView<V>)
    ensures
        reconcile::skip(r.manager, r.applied, a).generation == a.generation,
    decreases a.order.len() - a.index,
{
    if 0 <= a.index < a.order.len() {
        let id = a.order[a.index];
        match a.plans[id] {
            PlanView::Unchanged => {
                lemma_skip_stands(
                    r,
                    ApplyingView {
                        index: a.index + 1,
                        results: a.results + reconcile::unchanged_results(r.manager, id),
                        ..a
                    },
                );
            },
            PlanView::Invalid { error } => {
                lemma_skip_stands(
                    r,
                    ApplyingView {
                        index: a.index + 1,
                        desired: reconcile::kept(r.manager, r.applied, a.desired, id),
                        results: a.results + reconcile::invalid_results(r.manager, id, error),
                        ..a
                    },
                );
            },
            _ => {},
        }
    }
}

/// Where a generation stands that is being applied.
spec fn applying_stands<V>(r: ReconcilerView<V>, generation: Generation, x: StepView<V>) -> bool {
    &&& x.reconciler.ready == r.ready
    &&& x.reconciler.location == r.location
    &&& match x.next {
        StepNext::More(PendingView::Applying(a)) => {
            &&& a.generation == generation
            &&& x.reconciler.active == r.active
            &&& x.reconciler.partial == r.partial
            &&& x.reconciler.applied == r.applied
            &&& x.reconciler.last == r.last
        },
        StepNext::Applied(response) => in_effect(x.reconciler, generation, response) && x.reconciler.last == Some(
            response,
        ),
        _ => false,
    }
}

proof fn lemma_proceed_stands<V>(r: ReconcilerView<V>, a: ApplyingView<V>)
    ensures
        applying_stands(r, a.generation, reconcile::proceed(r, a)),
{
    lemma_skip_stands(r, a);
}

proof fn lemma_given_up_stands<V>(r: ReconcilerView<V>, a: ApplyingView<V>)
    ensures
        applying_stands(r, a.generation, reconcile::given_up(r, a)),
{
    let id = reconcile::current(a);
    let desired = if reconcile::is_served(r.manager, id) {
        if r.applied.dom().contains(id) {
            a.desired.insert(id, r.applied[id])
        } else {
            a.desired
        }
    } else {
        a.desired.remove(id)
    };
    lemma_proceed_stands(r, ApplyingView { index: a.index + 1, desired, ..a });
}

proof fn lemma_progress_stands<V>(r: ReconcilerView<V>, a: ApplyingView<V>, p: Progress)
    ensures
        applying_stands(r, a.generation, reconcile::applying_progress(r, a, p)),
        applying_stands(r, a.generation, reconcile::restoring_progress(r, a, p)),
{
    let n = ReconcilerView { manager: p.manager, ..r };
    if let NextView::Done(outcomes) = p.next {
        let id = reconcile::current(a);
        let b = ApplyingView { results: a.results + reconcile::outcome_results(id, outcomes), ..a };
        lemma_proceed_stands(n, ApplyingView { index: b.index + 1, ..b });
        lemma_given_up_stands(n, b);
        lemma_given_up_stands(n, a);
        lemma_given_up_stands(n, ApplyingView { results: reconcile::noted(a.results, id, outcomes), ..a });
    }
}

#[verifier::rlimit(30)]
proof fn lemma_step_stands<V>(r: ReconcilerView<V>, a: ApplyingView<V>, answer: AnswerView<V>)
    ensures
        applying_stands(r, a.generation, reconcile::applying_resumed(r, a, answer)),
{
    let id = reconcile::current(a);
    let b = ApplyingView { stage: ApplyStageView::Polling, ..a };
    match (a.stage, answer) {
        (ApplyStageView::Polling, AnswerView::Polled(finished)) => match a.plans[id] {
            PlanView::Start { built } => {
                lemma_progress_stands(r, b, manager::apply_begun(r.manager, id, a.generation, built, finished));
            },
            PlanView::Replace { built } => {
                lemma_progress_stands(r, b, manager::apply_begun(r.manager, id, a.generation, built, finished));
            },
            PlanView::Delete => {
                let x = manager::removed(r.manager, id, finished);
                lemma_proceed_stands(
                    ReconcilerView { manager: x.manager, ..r },
                    ApplyingView {
                        index: a.index + 1,
                        desired: a.desired.remove(id),
                        results: a.results + reconcile::outcome_results(id, x.outcomes),
                        ..b
                    },
                );
            },
            _ => lemma_proceed_stands(r, b),
        },
        (ApplyStageView::Starting(op), AnswerView::Started(started)) => {
            lemma_progress_stands(r, b, manager::apply_resumed(r.manager, op, started));
        },
        (ApplyStageView::Rebuilding, AnswerView::Built(builds)) => lemma_given_up_stands(r, b),
        (ApplyStageView::Repolling(built), AnswerView::Polled(finished)) => {
            lemma_progress_stands(r, b, manager::apply_begun(r.manager, id, a.generation, built, finished));
        },
        (ApplyStageView::Restarting(op), AnswerView::Started(started)) => {
            lemma_progress_stands(r, b, manager::apply_resumed(r.manager, op, started));
        },
        _ => {},
    }
}

#[verifier::rlimit(30)]
proof fn lemma_resumed_stands<S: EndpointSource>(
    r: ReconcilerView<S::V>,
    generation: Generation,
    x: StepView<S::V>,
    answer: AnswerView<S::V>,
)
    requires
        stands(r, generation, x),
        x.next is More,
    ensures
        stands(
            r,
            generation,
            reconcile::resumed::<S>(x.reconciler, x.next->More_0, answer).after(x.actions),
        ),
{
    let pending = x.next->More_0;
    let y = reconcile::resumed::<S>(x.reconciler, pending, answer).after(x.actions);
    assert(Seq::<Action>::empty() + Seq::<Action>::empty() =~= Seq::<Action>::empty());
    match (pending, answer) {
        (PendingView::Applying(a), _) => {
            lemma_step_stands(x.reconciler, a, answer);
            lemma_proceed_stands(x.reconciler, a);
        },
        (
            PendingView::Building { generation: g, submitted, endpoints, unrefreshed },
            AnswerView::Built(builds),
        ) => {
            let plans = reconcile::final_plans(x.reconciler, endpoints, unrefreshed, builds);
            let z = plan::all_released(x.reconciler.manager, plans);
            let a = run_laws::first_stage(g, submitted, endpoints, unrefreshed, builds, plans, z.released);
            lemma_proceed_stands(ReconcilerView { manager: z.manager, ..x.reconciler }, a);
        },
        _ => {},
    }
}

proof fn lemma_carried_on_stands<S: EndpointSource>(
    r: ReconcilerView<S::V>,
    generation: Generation,
    x: StepView<S::V>,
    answers: Seq<AnswerView<S::V>>,
)
    requires
        stands(r, generation, x),
    ensures
        stands(r, generation, carried_on::<S>(x, answers)),
    decreases answers.len(),
{
    reveal(answered);
    if answers.len() > 0 && x.next is More {
        lemma_resumed_stands::<S>(r, generation, x, answers[0]);
        lemma_carried_on_stands::<S>(
            r,
            generation,
            reconcile::resumed::<S>(x.reconciler, x.next->More_0, answers[0]).after(x.actions),
            answers.drop_first(),
        );
    }
}

/// A submission that succeeds leaves its generation in effect, partial exactly
/// if the answer says so, even if every endpoint failed; one that is refused
/// changes nothing, and has nothing done.
pub proof fn law_submission_succeeds_or_changes_nothing<S: EndpointSource>(
    r: ReconcilerView<S::V>,
    s: Submission<S::V>,
)
    requires
        consistent(r),
        !(served::<S>(r, s).next is More),
    ensures
        ({
            let x = served::<S>(r, s);
            &&& match x.next {
                StepNext::Applied(response) => in_effect(x.reconciler, s.generation, response),
                StepNext::Reply(Ok(response)) => {
                    &&& in_effect(x.reconciler, s.generation, response)
                    &&& x.reconciler == r
                    &&& x.actions == Seq::<Action>::empty()
                },
                StepNext::Reply(Err(_)) => x.reconciler == r && x.actions == Seq::<Action>::empty(),
                StepNext::More(_) => false,
            }
            &&& consistent(x.reconciler)
            &&& x.reconciler.ready == r.ready
            &&& x.reconciler.location == r.location
            &&& r.active matches Some(g) ==> x.reconciler.active matches Some(h) && g <= h
        }),
{
    let x = reconcile::submitted(r, s.generation, s.endpoints);
    assert(stands(r, s.generation, x));
    lemma_carried_on_stands::<S>(r, s.generation, x, s.answers);
}

/// The state after the first `n` submissions.
pub open spec fn history<S: EndpointSource>(
    r: ReconcilerView<S::V>,
    subs: Seq<Submission<S::V>>,
    n: int,
) -> ReconcilerView<S::V>
    decreases n,
{
    if n <= 0 {
        r
    } else {
        served::<S>(history::<S>(r, subs, n - 1), subs[n - 1]).reconciler
    }
}

/// What becomes of each submission in its turn.
pub open spec fn served_in_turn<S: EndpointSource>(
    r: ReconcilerView<S::V>,
    subs: Seq<Submission<S::V>>,
    i: int,
) -> StepView<S::V> {
    served::<S>(history::<S>(r, subs, i), subs[i])
}

/// Over any sequence of submissions, each carried through before the next: those
/// that succeed leave their generation in effect, with the partial flag their
/// answer gives; those that are refused change nothing; and the active
/// generation never falls.
pub proof fn law_active_generation_never_falls<S: EndpointSource>(
    r: ReconcilerView<S::V>,
    subs: Seq<Submission<S::V>>,
    i: int,
    j: int,
)
    requires
        consistent(r),
        0 <= i <= j <= subs.len(),
        forall|k: int| 0 <= k < j ==> !((#[trigger] served_in_turn::<S>(r, subs, k)).next is More),
    ensures
        consistent(history::<S>(r, subs, j)),
        history::<S>(r, subs, i).active matches Some(g) ==> history::<S>(r, subs, j).active matches Some(h) && g <= h,
        i < j ==> ({
            let before = history::<S>(r, subs, i);
            let after = history::<S>(r, subs, i + 1);
            match served_in_turn::<S>(r, subs, i).next {
                StepNext::Applied(response) => in_effect(after, subs[i].generation, response),
                StepNext::Reply(Ok(response)) => after == before && in_effect(after, subs[i].generation, response),
                StepNext::Reply(Err(_)) => after == before,
                StepNext::More(_) => false,
            }
        }),
    decreases j,
{
    if i < j {
        law_active_generation_never_falls::<S>(r, subs, i, j - 1);
        let before = history::<S>(r, subs, j - 1);
        assert(!(served_in_turn::<S>(r, subs, j - 1).next is More));
        law_submission_succeeds_or_changes_nothing::<S>(before, subs[j - 1]);
    } else if j > 0 {
        law_active_generation_never_falls::<S>(r, subs, j - 1, j - 1);
        let before = history::<S>(r, subs, j - 1);
        assert(!(served_in_turn::<S>(r, subs, j - 1).next is More));
        law_submission_succeeds_or_changes_nothing::<S>(before, subs[j - 1]);
    }
}

/// A sequence of submissions begins consistently: a new process has no answer to
/// replay, and neither has one that restores a snapshot.
pub proof fn law_history_begins_consistently<V>(
    ready: bool,
    location: Option<Seq<char>>,
    r: ReconcilerView<V>,
    o: RestoringView<V>,
    answer: AnswerView<V>,
)
    requires
        r.last is None,
    ensures
        reconcile::initial::<V>(ready, location).last is None,
        consistent(reconcile::initial::<V>(ready, location)),
        restore::restore_resumed(r, o, answer).reconciler.last is None,
        consistent(restore::restore_resumed(r, o, answer).reconciler),
{
}

} // verus!
