//! Whatever is decided about an endpoint is reported.

use vstd::prelude::*;

use crate::lifecycle::manager;
use crate::lifecycle::manager::{Bound, ManagerView, NextView, Progress};
use crate::lifecycle::manager_laws;
use crate::lifecycle::plan;
use crate::lifecycle::plan::{DesiredView, PlanView};
use crate::lifecycle::reconcile;
use crate::lifecycle::reconcile::{
    AnswerView, ApplyStageView, ApplyingView, PendingView, ReconcilerView, ResultView, StepNext, StepView,
};
use crate::lifecycle::run_laws;
use crate::lifecycle::types::{EndpointSpecView, Generation, Proto, SlotOutcomeView, TaskId};

verus! {

/// A plan that has to show up in the answer.
pub open spec fn to_report(p: PlanView) -> bool {
    p is Start || p is Replace || p is Invalid
}

/// Some result is about an id.
pub open spec fn told(results: Seq<ResultView>, id: Seq<char>) -> bool {
    exists|i: int| 0 <= i < results.len() && (#[trigger] results[i]).id == id
}

/// The first `n` plans show up in the results.
pub open spec fn told_up_to<V>(a: ApplyingView<V>, n: int) -> bool {
    forall|k: int| 0 <= k < n && k < a.order.len() && to_report(a.plans[#[trigger] a.order[k]]) ==> told(
        a.results,
        a.order[k],
    )
}

/// A generation being applied has reported what it went through, and the
/// endpoint it is putting back as well.
pub open spec fn reporting<V>(a: ApplyingView<V>) -> bool {
    &&& 0 <= a.index < a.order.len()
    &&& told_up_to(a, a.index)
    &&& match a.stage {
        ApplyStageView::Polling => true,
        ApplyStageView::Starting(op) => manager_laws::on_track(op),
        _ => told(a.results, reconcile::current(a)),
    }
}

/// Where a step of applying some plans may lead.
pub open spec fn reporting_step<V>(
    plans: Map<Seq<char>, PlanView>,
    order: Seq<Seq<char>>,
    x: StepView<V>,
) -> bool {
    match x.next {
        StepNext::More(PendingView::Applying(b)) => reporting(b) && b.plans == plans && b.order == order,
        StepNext::Applied(response) => forall|k: int|
            0 <= k < order.len() && to_report(plans[#[trigger] order[k]]) ==> told(response.results, order[k]),
        _ => true,
    }
}

/// An operation that is through has something to report.
pub open spec fn reporting_progress(p: Progress) -> bool {
    match p.next {
        NextView::More(op) => manager_laws::on_track(op),
        NextView::Done(outcomes) => outcomes.len() > 0,
    }
}

proof fn lemma_begun(
    m: ManagerView,
    id: Seq<char>,
    generation: Generation,
    spec: EndpointSpecView,
    finished: Seq<TaskId>,
)
    ensures
        reporting_progress(manager::apply_begun(m, id, generation, spec, finished)),
{
    manager_laws::law_one_outcome_per_protocol(m, id, generation, spec, finished);
    if spec.tcp || spec.udp {
        lemma_wants(spec, manager::apply_begun(m, id, generation, spec, finished));
    }
}

proof fn lemma_wants(spec: EndpointSpecView, p: Progress)
    requires
        spec.tcp || spec.udp,
        manager_laws::progress_on_track(p, spec),
    ensures
        reporting_progress(p),
{
    let proto = if spec.tcp {
        Proto::Tcp
    } else {
        Proto::Udp
    };
    assert(spec.wants(proto));
    if let NextView::Done(outcomes) = p.next {
        assert(manager_laws::reports(outcomes, proto));
    }
}

proof fn lemma_resumed(m: ManagerView, op: manager::ApplyOpView, started: Result<Bound, Seq<char>>)
    requires
        manager_laws::on_track(op),
    ensures
        reporting_progress(manager::apply_resumed(m, op, started)),
{
    manager_laws::law_one_outcome_per_protocol_resumed(m, op, started);
    lemma_wants(op.spec, manager::apply_resumed(m, op, started));
}

proof fn lemma_told_stays(a: Seq<ResultView>, more: Seq<ResultView>, id: Seq<char>)
    requires
        told(a, id) || told(more, id),
    ensures
        told(a + more, id),
{
    if told(a, id) {
        let i = choose|i: int| 0 <= i < a.len() && (#[trigger] a[i]).id == id;
        assert((a + more)[i].id == id);
    } else {
        let i = choose|i: int| 0 <= i < more.len() && (#[trigger] more[i]).id == id;
        assert((a + more)[a.len() + i].id == id);
    }
}

proof fn lemma_more_results<V>(a: ApplyingView<V>, b: ApplyingView<V>, more: Seq<ResultView>, n: int)
    requires
        told_up_to(a, n),
        b.plans == a.plans,
        b.order == a.order,
        b.results == a.results + more,
    ensures
        told_up_to(b, n),
{
    assert forall|k: int| 0 <= k < n && k < b.order.len() && to_report(b.plans[#[trigger] b.order[k]]) implies told(
        b.results,
        b.order[k],
    ) by {
        assert(a.order[k] == b.order[k]);
        lemma_told_stays(a.results, more, a.order[k]);
    }
}

proof fn lemma_skip<V>(m: ManagerView, applied: Map<Seq<char>, V>, a: ApplyingView<V>)
    requires
        a.index >= 0,
        told_up_to(a, a.index),
    ensures
        ({
            let b = reconcile::skip(m, applied, a);
            &&& b.index >= 0
            &&& told_up_to(b, b.index)
            &&& b.plans == a.plans
            &&& b.order == a.order
            &&& b.stage == a.stage
        }),
    decreases a.order.len() - a.index,
{
    if a.index < a.order.len() {
        let id = a.order[a.index];
        match a.plans[id] {
            PlanView::Unchanged => {
                let more = reconcile::unchanged_results(m, id);
                let b = ApplyingView { index: a.index + 1, results: a.results + more, ..a };
                lemma_more_results(a, b, more, a.index);
                lemma_skip(m, applied, b);
            },
            PlanView::Invalid { error } => {
                let more = reconcile::invalid_results(m, id, error);
                let b = ApplyingView {
                    index: a.index + 1,
                    desired: reconcile::kept(m, applied, a.desired, id),
                    results: a.results + more,
                    ..a
                };
                lemma_more_results(a, b, more, a.index);
                assert(more[0].id == id);
                lemma_told_stays(a.results, more, id);
                lemma_skip(m, applied, b);
            },
            _ => {},
        }
    }
}

proof fn lemma_proceed<V>(r: ReconcilerView<V>, a: ApplyingView<V>)
    requires
        a.index >= 0,
        told_up_to(a, a.index),
    ensures
        reporting_step(a.plans, a.order, reconcile::proceed(r, a)),
{
    lemma_skip(r.manager, r.applied, a);
}

proof fn lemma_given_up<V>(r: ReconcilerView<V>, a: ApplyingView<V>)
    requires
        0 <= a.index < a.order.len(),
        told_up_to(a, a.index),
        told(a.results, reconcile::current(a)),
    ensures
        reporting_step(a.plans, a.order, reconcile::given_up(r, a)),
{
    let id = reconcile::current(a);
    let desired = if reconcile::is_served(r.manager, id) {
        if r.applied.dom().contains(id) {
            a.desired.insert(id, r.applied[id])
        } else {
            a.desired
        }
    } else {
        a.desired.remove(id)
    };
    let b = ApplyingView { index: a.index + 1, desired, ..a };
    assert(told_up_to(b, b.index));
    lemma_proceed(r, b);
}

proof fn lemma_applied_with<V>(r: ReconcilerView<V>, a: ApplyingView<V>, outcomes: Seq<SlotOutcomeView>)
    requires
        0 <= a.index < a.order.len(),
        told_up_to(a, a.index),
        outcomes.len() > 0,
    ensures
        reporting_step(a.plans, a.order, reconcile::applied_with(r, a, outcomes)),
{
    let id = reconcile::current(a);
    let more = reconcile::outcome_results(id, outcomes);
    let b = ApplyingView { results: a.results + more, ..a };
    lemma_more_results(a, b, more, a.index);
    assert(more[0].id == id);
    lemma_told_stays(a.results, more, id);
    let c = ApplyingView { index: b.index + 1, ..b };
    assert(told_up_to(c, c.index));
    lemma_proceed(r, c);
    lemma_given_up(r, b);
}

proof fn lemma_noted<V>(a: ApplyingView<V>, outcomes: Seq<SlotOutcomeView>)
    requires
        told_up_to(a, a.index),
        told(a.results, reconcile::current(a)),
    ensures
        ({
            let b = ApplyingView { results: reconcile::noted(a.results, reconcile::current(a), outcomes), ..a };
            told_up_to(b, b.index) && told(b.results, reconcile::current(b))
        }),
{
    let b = ApplyingView { results: reconcile::noted(a.results, reconcile::current(a), outcomes), ..a };
    assert forall|id: Seq<char>| told(a.results, id) implies #[trigger] told(b.results, id) by {
        let i = choose|i: int| 0 <= i < a.results.len() && (#[trigger] a.results[i]).id == id;
        assert(b.results[i].id == id);
    }
}

proof fn lemma_applying_progress<V>(r: ReconcilerView<V>, a: ApplyingView<V>, p: Progress)
    requires
        0 <= a.index < a.order.len(),
        told_up_to(a, a.index),
        reporting_progress(p),
    ensures
        reporting_step(a.plans, a.order, reconcile::applying_progress(r, a, p)),
{
    let s = ReconcilerView { manager: p.manager, ..r };
    if let NextView::Done(outcomes) = p.next {
        lemma_applied_with(s, a, outcomes);
    }
}

proof fn lemma_restoring_progress<V>(r: ReconcilerView<V>, a: ApplyingView<V>, p: Progress)
    requires
        0 <= a.index < a.order.len(),
        told_up_to(a, a.index),
        told(a.results, reconcile::current(a)),
    ensures
        reporting_step(a.plans, a.order, reconcile::restoring_progress(r, a, p)),
{
    let s = ReconcilerView { manager: p.manager, ..r };
    if let NextView::Done(outcomes) = p.next {
        lemma_given_up(s, a);
        lemma_noted(a, outcomes);
        lemma_given_up(
            s,
            ApplyingView { results: reconcile::noted(a.results, reconcile::current(a), outcomes), ..a },
        );
    }
}

proof fn lemma_step<V>(r: ReconcilerView<V>, a: ApplyingView<V>, answer: AnswerView<V>)
    requires
        reporting(a),
    ensures
        reporting_step(a.plans, a.order, reconcile::applying_resumed(r, a, answer)),
{
    let id = reconcile::current(a);
    let b = ApplyingView { stage: ApplyStageView::Polling, ..a };
    assert(told_up_to(b, b.index));
    match (a.stage, answer) {
        (ApplyStageView::Polling, AnswerView::Polled(finished)) => {
            match a.plans[id] {
                PlanView::Start { built } => {
                    lemma_begun(r.manager, id, a.generation, built, finished);
                    lemma_applying_progress(
                        r,
                        b,
                        manager::apply_begun(r.manager, id, a.generation, built, finished),
                    );
                },
                PlanView::Replace { built } => {
                    lemma_begun(r.manager, id, a.generation, built, finished);
                    lemma_applying_progress(
                        r,
                        b,
                        manager::apply_begun(r.manager, id, a.generation, built, finished),
                    );
                },
                PlanView::Delete => {
                    let x = manager::removed(r.manager, id, finished);
                    let more = reconcile::outcome_results(id, x.outcomes);
                    let c = ApplyingView {
                        index: a.index + 1,
                        desired: a.desired.remove(id),
                        results: a.results + more,
                        ..b
                    };
                    lemma_more_results(b, c, more, a.index);
                    assert(told_up_to(c, c.index));
                    lemma_proceed(ReconcilerView { manager: x.manager, ..r }, c);
                },
                _ => lemma_proceed(r, b),
            }
        },
        (ApplyStageView::Starting(op), AnswerView::Started(started)) => {
            lemma_resumed(r.manager, op, started);
            lemma_applying_progress(r, b, manager::apply_resumed(r.manager, op, started));
        },
        (ApplyStageView::Rebuilding, AnswerView::Built(builds)) => lemma_given_up(r, b),
        (ApplyStageView::Repolling(built), AnswerView::Polled(finished)) => lemma_restoring_progress(
            r,
            b,
            manager::apply_begun(r.manager, id, a.generation, built, finished),
        ),
        (ApplyStageView::Restarting(op), AnswerView::Started(started)) => lemma_restoring_progress(
            r,
            b,
            manager::apply_resumed(r.manager, op, started),
        ),
        _ => {},
    }
}

proof fn lemma_run<V>(
    plans: Map<Seq<char>, PlanView>,
    order: Seq<Seq<char>>,
    x: StepView<V>,
    answers: Seq<AnswerView<V>>,
)
    requires
        reporting_step(plans, order, x),
    ensures
        reporting_step(plans, order, run_laws::run(x, answers)),
    decreases answers.len(),
{
    reveal(run_laws::answered);
    if answers.len() > 0 {
        if let StepNext::More(PendingView::Applying(a)) = x.next {
            lemma_step(x.reconciler, a, answers[0]);
            lemma_run(plans, order, reconcile::applying_resumed(x.reconciler, a, answers[0]), answers.drop_first());
        }
    }
}

/// Every endpoint that was to be started, replaced or refused shows up in the
/// answer, however its waits were answered: nothing fails in silence.
pub proof fn law_every_change_is_reported<V>(
    r: ReconcilerView<V>,
    generation: Generation,
    submitted: Seq<DesiredView<V>>,
    endpoints: Seq<DesiredView<V>>,
    unref: Map<Seq<char>, Seq<char>>,
    builds: Seq<Result<EndpointSpecView, Seq<char>>>,
    answers: Seq<AnswerView<V>>,
    id: Seq<char>,
)
    requires
        r.manager.entries.dom().finite(),
        plan::occurs(endpoints, id),
        !(reconcile::final_plans(r, endpoints, unref, builds)[id] is Unchanged),
    ensures
        run_laws::run(reconcile::planned(r, generation, submitted, endpoints, unref, builds), answers).next matches
            StepNext::Applied(response) ==> told(response.results, id),
{
    let plans = reconcile::final_plans(r, endpoints, unref, builds);
    let order = crate::idmap::in_order(plans.dom());
    let x = plan::all_released(r.manager, plans);
    run_laws::lemma_plans_finite(r, endpoints, unref, builds);
    crate::idmap::lemma_finite_in_order(plans.dom());
    crate::lifecycle::reconcile_laws::law_undesired_is_deleted(r, endpoints, unref, builds, id);
    let a = run_laws::first_stage(generation, submitted, endpoints, unref, builds, plans, x.released);
    lemma_proceed(ReconcilerView { manager: x.manager, ..r }, a);
    let s = reconcile::planned(r, generation, submitted, endpoints, unref, builds);
    lemma_run(plans, order, s, answers);
    let k = order.index_of(id);
    assert(plans.dom().contains(id));
    assert(order.contains(id));
    assert(order[k] == id);
}

} // verus!
