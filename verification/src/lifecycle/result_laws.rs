//! What the results of a submission say.

use vstd::prelude::*;

use crate::lifecycle::manager;
use crate::lifecycle::manager::{ApplyOpView, Bound, ManagerView, NextView, Progress, Route, StageView};
use crate::lifecycle::plan;
use crate::lifecycle::plan::{DesiredView, EndpointSource, PlanView};
use crate::lifecycle::reconcile;
use crate::lifecycle::reconcile::{
    AnswerView, ApplyStageView, ApplyingView, PendingView, ReconcilerView, ResultView, StepNext, StepView,
};
use crate::lifecycle::run_laws;
use crate::lifecycle::types;
use crate::lifecycle::types::{EndpointSpecView, Generation, Proto, SlotAction, SlotOutcomeView, TaskId};

verus! {

/// An outcome has an error, and says whether retrying can help, exactly if it is
/// a failure.
pub open spec fn explained(o: SlotOutcomeView) -> bool {
    &&& o.action == SlotAction::Failed <==> o.error is Some
    &&& o.action == SlotAction::Failed <==> o.retryable is Some
}

pub open spec fn all_explained(v: Seq<SlotOutcomeView>) -> bool {
    forall|i: int| 0 <= i < v.len() ==> explained(#[trigger] v[i])
}

/// The same of a result.
pub open spec fn result_explained(r: ResultView) -> bool {
    &&& r.action == SlotAction::Failed <==> r.error is Some
    &&& r.action == SlotAction::Failed <==> r.retryable is Some
}

pub open spec fn results_explained(v: Seq<ResultView>) -> bool {
    forall|i: int| 0 <= i < v.len() ==> result_explained(#[trigger] v[i])
}

/// What an operation says as far as it got.
pub open spec fn progress_explained(p: Progress) -> bool {
    match p.next {
        NextView::More(op) => all_explained(op.outcomes),
        NextView::Done(outcomes) => all_explained(outcomes),
    }
}

/// What a generation being applied says so far.
pub open spec fn applying_explained<V>(a: ApplyingView<V>) -> bool {
    &&& results_explained(a.results)
    &&& run_laws::op_of(a.stage) matches Some(op) ==> all_explained(op.outcomes)
}

pub open spec fn pending_explained<V>(p: PendingView<V>) -> bool {
    p matches PendingView::Applying(a) ==> applying_explained(a)
}

pub open spec fn reconciler_explained<V>(r: ReconcilerView<V>) -> bool {
    r.last matches Some(response) ==> results_explained(response.results)
}

pub open spec fn step_explained<V>(x: StepView<V>) -> bool {
    &&& reconciler_explained(x.reconciler)
    &&& match x.next {
        StepNext::More(p) => pending_explained(p),
        StepNext::Reply(Ok(response)) => results_explained(response.results),
        StepNext::Reply(Err(_)) => true,
        StepNext::Applied(response) => results_explained(response.results),
    }
}

proof fn lemma_udp_explained(m: ManagerView, op: ApplyOpView)
    requires
        all_explained(op.outcomes),
    ensures
        progress_explained(manager::run_udp(m, op)),
{
}

/// Whatever an operation reports, it explains.
pub proof fn law_begun_outcomes_are_explained(
    m: ManagerView,
    id: Seq<char>,
    generation: Generation,
    spec: EndpointSpecView,
    finished: Seq<TaskId>,
)
    ensures
        progress_explained(manager::apply_begun(m, id, generation, spec, finished)),
{
    let m1 = manager::refreshed(m, finished);
    if spec.tcp || spec.udp {
        let drain = match spec.drain {
            Some(d) => d,
            None => m1.policy,
        };
        let op = ApplyOpView {
            id,
            generation,
            spec,
            drain,
            stage: StageView::Starting { proto: Proto::Tcp, route: Route::Fresh },
            outcomes: Seq::empty(),
        };
        let t = manager::enter_slot(manager::enrolled(m1, id, drain), op, Proto::Tcp);
        if !t.waiting {
            lemma_udp_explained(t.manager, t.op);
        }
    }
}

/// The same while the operation goes on.
pub proof fn law_resumed_outcomes_are_explained(m: ManagerView, op: ApplyOpView, started: Result<Bound, Seq<char>>)
    requires
        all_explained(op.outcomes),
    ensures
        progress_explained(manager::apply_resumed(m, op, started)),
{
    assert forall|n: ManagerView, o: SlotOutcomeView, proto: Proto| explained(o) implies progress_explained(
        #[trigger] manager::run_after(n, ApplyOpView { outcomes: op.outcomes.push(o), ..op }, proto),
    ) by {
        let next = ApplyOpView { outcomes: op.outcomes.push(o), ..op };
        match proto {
            Proto::Tcp => lemma_udp_explained(n, next),
            Proto::Udp => {},
        }
    }
}

proof fn lemma_skip_explained<V>(m: ManagerView, applied: Map<Seq<char>, V>, a: ApplyingView<V>)
    requires
        applying_explained(a),
    ensures
        applying_explained(reconcile::skip(m, applied, a)),
    decreases a.order.len() - a.index,
{
    if 0 <= a.index < a.order.len() {
        let id = a.order[a.index];
        match a.plans[id] {
            PlanView::Unchanged => {
                lemma_skip_explained(
                    m,
                    applied,
                    ApplyingView {
                        index: a.index + 1,
                        results: a.results + reconcile::unchanged_results(m, id),
                        ..a
                    },
                );
            },
            PlanView::Invalid { error } => {
                lemma_skip_explained(
                    m,
                    applied,
                    ApplyingView {
                        index: a.index + 1,
                        desired: reconcile::kept(m, applied, a.desired, id),
                        results: a.results + reconcile::invalid_results(m, id, error),
                        ..a
                    },
                );
            },
            _ => {},
        }
    }
}

proof fn lemma_proceed_explained<V>(r: ReconcilerView<V>, a: ApplyingView<V>)
    requires
        results_explained(a.results),
        run_laws::op_of(a.stage) is None,
        reconciler_explained(r),
    ensures
        step_explained(reconcile::proceed(r, a)),
{
    lemma_skip_explained(r.manager, r.applied, a);
}

proof fn lemma_applied_explained<V>(r: ReconcilerView<V>, a: ApplyingView<V>, outcomes: Seq<SlotOutcomeView>)
    requires
        results_explained(a.results),
        run_laws::op_of(a.stage) is None,
        all_explained(outcomes),
        reconciler_explained(r),
    ensures
        step_explained(reconcile::applied_with(r, a, outcomes)),
{
    let id = reconcile::current(a);
    let b = ApplyingView { results: a.results + reconcile::outcome_results(id, outcomes), ..a };
    assert(results_explained(b.results));
    lemma_proceed_explained(r, ApplyingView { index: b.index + 1, ..b });
    lemma_given_up_explained(r, b);
}

proof fn lemma_given_up_explained<V>(r: ReconcilerView<V>, a: ApplyingView<V>)
    requires
        results_explained(a.results),
        run_laws::op_of(a.stage) is None,
        reconciler_explained(r),
    ensures
        step_explained(reconcile::given_up(r, a)),
{
    let id = reconcile::current(a);
    let desired = if reconcile::is_served(r.manager, id) {
        if r.applied.dom().contains(id) {
            a.desired.insert(id, r.applied[id])
        } else {
            a.desired
        }
    } else {
        a.desired.remove(id)
    };
    lemma_proceed_explained(r, ApplyingView { index: a.index + 1, desired, ..a });
}

proof fn lemma_progress_explained<V>(r: ReconcilerView<V>, a: ApplyingView<V>, p: Progress)
    requires
        results_explained(a.results),
        run_laws::op_of(a.stage) is None,
        progress_explained(p),
        reconciler_explained(r),
    ensures
        step_explained(reconcile::applying_progress(r, a, p)),
        step_explained(reconcile::restoring_progress(r, a, p)),
{
    let s = ReconcilerView { manager: p.manager, ..r };
    match p.next {
        NextView::Done(outcomes) => {
            lemma_applied_explained(s, a, outcomes);
            lemma_given_up_explained(s, a);
            let id = reconcile::current(a);
            assert(results_explained(reconcile::noted(a.results, id, outcomes)));
            lemma_given_up_explained(
                s,
                ApplyingView { results: reconcile::noted(a.results, id, outcomes), ..a },
            );
        },
        NextView::More(_) => {},
    }
}

proof fn lemma_applying_explained<V>(r: ReconcilerView<V>, a: ApplyingView<V>, answer: AnswerView<V>)
    requires
        applying_explained(a),
        reconciler_explained(r),
    ensures
        step_explained(reconcile::applying_resumed(r, a, answer)),
{
    let id = reconcile::current(a);
    let b = ApplyingView { stage: ApplyStageView::Polling, ..a };
    match (a.stage, answer) {
        (ApplyStageView::Polling, AnswerView::Polled(finished)) => {
            match a.plans[id] {
                PlanView::Start { built } | PlanView::Replace { built } => {
                    law_begun_outcomes_are_explained(r.manager, id, a.generation, built, finished);
                    lemma_progress_explained(
                        r,
                        b,
                        manager::apply_begun(r.manager, id, a.generation, built, finished),
                    );
                },
                PlanView::Delete => {
                    let x = manager::removed(r.manager, id, finished);
                    assert(all_explained(x.outcomes));
                    lemma_proceed_explained(
                        ReconcilerView { manager: x.manager, ..r },
                        ApplyingView {
                            index: a.index + 1,
                            desired: a.desired.remove(id),
                            results: a.results + reconcile::outcome_results(id, x.outcomes),
                            ..b
                        },
                    );
                },
                _ => lemma_proceed_explained(r, b),
            }
        },
        (ApplyStageView::Starting(op), AnswerView::Started(started)) => {
            law_resumed_outcomes_are_explained(r.manager, op, started);
            lemma_progress_explained(r, b, manager::apply_resumed(r.manager, op, started));
        },
        (ApplyStageView::Rebuilding, AnswerView::Built(builds)) => lemma_given_up_explained(r, b),
        (ApplyStageView::Repolling(built), AnswerView::Polled(finished)) => {
            law_begun_outcomes_are_explained(r.manager, id, a.generation, built, finished);
            lemma_progress_explained(r, b, manager::apply_begun(r.manager, id, a.generation, built, finished));
        },
        (ApplyStageView::Restarting(op), AnswerView::Started(started)) => {
            law_resumed_outcomes_are_explained(r.manager, op, started);
            lemma_progress_explained(r, b, manager::apply_resumed(r.manager, op, started));
        },
        _ => {},
    }
}

/// Every answer explains itself: a result has an error, and says whether a retry
/// can help, exactly if it is a failure. A submission begins that way, and each
/// of its steps keeps it.
pub proof fn law_results_are_explained<S: EndpointSource>(
    r: ReconcilerView<S::V>,
    generation: Generation,
    endpoints: Seq<DesiredView<S::V>>,
    pending: PendingView<S::V>,
    answer: AnswerView<S::V>,
)
    requires
        reconciler_explained(r),
        pending_explained(pending),
    ensures
        step_explained(reconcile::submitted(r, generation, endpoints)),
        step_explained(reconcile::resumed::<S>(r, pending, answer)),
{
    match (pending, answer) {
        (
            PendingView::Building { generation, submitted, endpoints, unrefreshed },
            AnswerView::Built(builds),
        ) => {
            let plans = reconcile::final_plans(r, endpoints, unrefreshed, builds);
            let x = plan::all_released(r.manager, plans);
            let a = ApplyingView {
                generation,
                submitted,
                order: crate::idmap::in_order(plans.dom()),
                plans,
                index: 0,
                desired: plan::desired_of(endpoints, unrefreshed, builds),
                released: x.released,
                results: Seq::empty(),
                stage: ApplyStageView::Polling,
            };
            lemma_proceed_explained(ReconcilerView { manager: x.manager, ..r }, a);
        },
        (PendingView::Applying(a), answer) => {
            if 0 <= a.index < a.order.len() {
                lemma_applying_explained(r, a, answer);
            } else {
                lemma_skip_explained(r.manager, r.applied, a);
            }
        },
        _ => {},
    }
}

/// A bad description is refused for good, and a listener that could not be
/// started may come up later: the former is never retryable, the latter always.
pub proof fn law_bad_descriptions_are_terminal(
    m: ManagerView,
    id: Seq<char>,
    error: Seq<char>,
    proto: Proto,
    reason: Seq<char>,
)
    ensures
        forall|i: int|
            0 <= i < reconcile::invalid_results(m, id, error).len() ==> {
                let x = #[trigger] reconcile::invalid_results(m, id, error)[i];
                x.id == id && x.action == SlotAction::Failed && x.error == Some(error) && x.retryable == Some(false)
            },
        reconcile::invalid_results(m, id, error).len() > 0,
        types::failed_outcome(proto, reason).retryable == Some(true),
        types::rejected_outcome(proto, reason).retryable == Some(false),
{
}

} // verus!
