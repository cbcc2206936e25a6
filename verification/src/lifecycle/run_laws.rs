//! What holds of a whole submission, from the moment it is planned to its
//! answer, for every way its waits may be answered.

use vstd::prelude::*;

use crate::lifecycle::manager;
use crate::lifecycle::manager::{ApplyOpView, ManagerView, NextView, Progress, SlotView};
use crate::lifecycle::manager_laws;
use crate::lifecycle::plan;
use crate::lifecycle::plan::{DesiredView, HandoverView, PlanView};
use crate::lifecycle::reconcile;
use crate::lifecycle::reconcile::{
    AnswerView, ApplyStageView, ApplyingView, PendingView, ReconcilerView, StepNext, StepView,
};
use crate::lifecycle::types;
use crate::lifecycle::types::{EndpointSpecView, Generation, Proto, SlotOutcomeView, SlotStateView, TaskId};

verus! {

// -------------------------------------------------------------- left alone --

/// A slot nothing was done to: it serves what it served, unless its task ended
/// on its own.
pub open spec fn slot_left_alone(a: Option<SlotView>, b: Option<SlotView>) -> bool {
    match (a, b) {
        (Some(x), Some(y)) => {
            &&& y.endpoint == x.endpoint
            &&& y.generation == x.generation
            &&& y.material == x.material
            &&& y.drain == x.drain
            &&& {
                ||| y.active == x.active && y.state == x.state
                ||| y.active is None && y.state == SlotStateView::Failed("serving task exited unexpectedly"@)
            }
        },
        (None, None) => true,
        _ => false,
    }
}

/// An id nothing was done to.
pub open spec fn left_alone(m: ManagerView, n: ManagerView, id: Seq<char>) -> bool {
    &&& m.entries.dom().contains(id) == n.entries.dom().contains(id)
    &&& m.entries.dom().contains(id) ==> {
        &&& m.entries[id].drain == n.entries[id].drain
        &&& slot_left_alone(m.entries[id].tcp, n.entries[id].tcp)
        &&& slot_left_alone(m.entries[id].udp, n.entries[id].udp)
    }
}

proof fn lemma_left_alone_chain(a: ManagerView, b: ManagerView, c: ManagerView, id: Seq<char>)
    requires
        left_alone(a, b, id),
        left_alone(b, c, id),
    ensures
        left_alone(a, c, id),
{
}

proof fn lemma_refresh_leaves_alone(m: ManagerView, finished: Seq<TaskId>, id: Seq<char>)
    ensures
        left_alone(m, manager::refreshed(m, finished), id),
{
}

proof fn lemma_elsewhere_left_alone(m: ManagerView, n: ManagerView, other: Seq<char>, id: Seq<char>)
    requires
        manager_laws::same_elsewhere(n, m, other),
        id != other,
    ensures
        left_alone(m, n, id),
{
    assert(m.entries.remove(other).dom().contains(id) == n.entries.remove(other).dom().contains(id));
    if m.entries.dom().contains(id) {
        assert(m.entries.remove(other)[id] == n.entries.remove(other)[id]);
    }
}

/// Every id but one was left alone.
pub open spec fn others_left_alone(m: ManagerView, n: ManagerView, id: Seq<char>) -> bool {
    forall|k: Seq<char>| #![trigger left_alone(m, n, k)] k != id ==> left_alone(m, n, k)
}

pub(crate) proof fn lemma_apply_leaves_others(
    m: ManagerView,
    id: Seq<char>,
    generation: Generation,
    spec: EndpointSpecView,
    finished: Seq<TaskId>,
)
    ensures
        others_left_alone(m, manager::apply_begun(m, id, generation, spec, finished).manager, id),
{
    let r = manager::refreshed(m, finished);
    let n = manager::apply_begun(m, id, generation, spec, finished).manager;
    manager_laws::law_apply_touches_one_id(m, id, generation, spec, finished);
    assert forall|k: Seq<char>| #![trigger left_alone(m, n, k)] k != id implies left_alone(m, n, k) by {
        lemma_refresh_leaves_alone(m, finished, k);
        lemma_elsewhere_left_alone(r, n, id, k);
        lemma_left_alone_chain(m, r, n, k);
    }
}

pub(crate) proof fn lemma_resume_leaves_others(
    m: ManagerView,
    op: ApplyOpView,
    started: Result<manager::Bound, Seq<char>>,
)
    requires
        m.entries.dom().contains(op.id),
    ensures
        others_left_alone(m, manager::apply_resumed(m, op, started).manager, op.id),
{
    let n = manager::apply_resumed(m, op, started).manager;
    manager_laws::law_resume_touches_one_id(m, op, started);
    assert forall|k: Seq<char>| #![trigger left_alone(m, n, k)] k != op.id implies left_alone(m, n, k) by {
        lemma_elsewhere_left_alone(m, n, op.id, k);
    }
}

pub(crate) proof fn lemma_remove_leaves_others(m: ManagerView, id: Seq<char>, finished: Seq<TaskId>)
    ensures
        others_left_alone(m, manager::removed(m, id, finished).manager, id),
        !manager::removed(m, id, finished).manager.entries.dom().contains(id),
{
    let r = manager::refreshed(m, finished);
    let n = manager::removed(m, id, finished).manager;
    assert(n.entries.remove(id) =~= r.entries.remove(id));
    assert forall|k: Seq<char>| #![trigger left_alone(m, n, k)] k != id implies left_alone(m, n, k) by {
        lemma_refresh_leaves_alone(m, finished, k);
        lemma_elsewhere_left_alone(r, n, id, k);
        lemma_left_alone_chain(m, r, n, k);
    }
}

// --------------------------------------------------------------- coherence --

/// A plan that has something done to its endpoint.
pub open spec fn acts(p: PlanView) -> bool {
    p is Start || p is Replace || p is Delete
}

/// The operation a wait is about.
pub open spec fn op_of(stage: ApplyStageView) -> Option<ApplyOpView> {
    match stage {
        ApplyStageView::Starting(op) => Some(op),
        ApplyStageView::Restarting(op) => Some(op),
        _ => None,
    }
}

/// A generation being applied is at a plan that acts, and what it waits for is
/// about that plan's endpoint.
pub open spec fn coherent<V>(r: ReconcilerView<V>, a: ApplyingView<V>) -> bool {
    &&& 0 <= a.index < a.order.len()
    &&& crate::idmap::strictly_sorted(a.order)
    &&& acts(a.plans[reconcile::current(a)])
    &&& !(a.stage is Polling) ==> !(a.plans[reconcile::current(a)] is Delete)
    &&& op_of(a.stage) matches Some(op) ==> {
        &&& op.id == reconcile::current(a)
        &&& r.manager.entries.dom().contains(op.id)
    }
}

/// Two stages of applying the same generation.
pub open spec fn same_run<V>(a: ApplyingView<V>, b: ApplyingView<V>) -> bool {
    &&& a.generation == b.generation
    &&& a.submitted == b.submitted
    &&& a.order == b.order
    &&& a.plans == b.plans
    &&& a.released == b.released
    &&& a.index <= b.index
}

pub(crate) proof fn lemma_skip<V>(m: ManagerView, applied: Map<Seq<char>, V>, a: ApplyingView<V>)
    requires
        0 <= a.index <= a.order.len(),
    ensures
        ({
            let b = reconcile::skip(m, applied, a);
            &&& same_run(a, b)
            &&& b.stage == a.stage
            &&& b.index <= b.order.len()
            &&& b.index < b.order.len() ==> acts(b.plans[b.order[b.index]])
            &&& forall|j: int| a.index <= j < b.index ==> !acts(a.plans[#[trigger] a.order[j]])
        }),
    decreases a.order.len() - a.index,
{
    if a.index < a.order.len() {
        let id = a.order[a.index];
        match a.plans[id] {
            PlanView::Unchanged => {
                let n = ApplyingView {
                    index: a.index + 1,
                    results: a.results + reconcile::unchanged_results(m, id),
                    ..a
                };
                lemma_skip(m, applied, n);
            },
            PlanView::Invalid { error } => {
                let n = ApplyingView {
                    index: a.index + 1,
                    desired: reconcile::kept(m, applied, a.desired, id),
                    results: a.results + reconcile::invalid_results(m, id, error),
                    ..a
                };
                lemma_skip(m, applied, n);
            },
            _ => {},
        }
    }
}

/// What a step of the run may lead to.
pub open spec fn well_led<V>(a: ApplyingView<V>, x: StepView<V>) -> bool {
    match x.next {
        StepNext::More(PendingView::Applying(b)) => coherent(x.reconciler, b) && same_run(a, b),
        StepNext::Applied(_) => true,
        _ => false,
    }
}

/// How far a step got.
pub open spec fn reached<V>(a: ApplyingView<V>, x: StepView<V>) -> int {
    match x.next {
        StepNext::More(PendingView::Applying(b)) => b.index,
        _ => a.order.len() as int,
    }
}

/// No plan that acts is passed over.
pub open spec fn steps_on<V>(a: ApplyingView<V>, x: StepView<V>) -> bool {
    forall|j: int| a.index < j < reached(a, x) ==> !acts(a.plans[#[trigger] a.order[j]])
}

pub(crate) proof fn lemma_proceed<V>(r: ReconcilerView<V>, a: ApplyingView<V>)
    requires
        0 <= a.index <= a.order.len(),
        crate::idmap::strictly_sorted(a.order),
    ensures
        reconcile::proceed(r, a).reconciler.manager == r.manager,
        well_led(a, reconcile::proceed(r, a)),
        forall|j: int|
            a.index <= j < reached(a, reconcile::proceed(r, a)) ==> !acts(a.plans[#[trigger] a.order[j]]),
{
    lemma_skip(r.manager, r.applied, a);
}

proof fn lemma_applied_with<V>(r: ReconcilerView<V>, a: ApplyingView<V>, outcomes: Seq<SlotOutcomeView>)
    requires
        coherent(r, a),
        !(a.plans[reconcile::current(a)] is Delete),
    ensures
        reconcile::applied_with(r, a, outcomes).reconciler.manager == r.manager,
        well_led(a, reconcile::applied_with(r, a, outcomes)),
        steps_on(a, reconcile::applied_with(r, a, outcomes)),
        reconcile::restored_with(r, a, outcomes).reconciler.manager == r.manager,
        well_led(a, reconcile::restored_with(r, a, outcomes)),
        steps_on(a, reconcile::restored_with(r, a, outcomes)),
        reconcile::given_up(r, a).reconciler.manager == r.manager,
        well_led(a, reconcile::given_up(r, a)),
        steps_on(a, reconcile::given_up(r, a)),
{
    let id = reconcile::current(a);
    let b = ApplyingView { results: a.results + reconcile::outcome_results(id, outcomes), ..a };
    lemma_proceed(r, ApplyingView { index: b.index + 1, ..b });
    lemma_given_up(r, a);
    lemma_given_up(r, b);
    lemma_given_up(r, ApplyingView { results: reconcile::noted(a.results, id, outcomes), ..a });
}

proof fn lemma_given_up<V>(r: ReconcilerView<V>, a: ApplyingView<V>)
    requires
        0 <= a.index < a.order.len(),
        crate::idmap::strictly_sorted(a.order),
    ensures
        reconcile::given_up(r, a).reconciler.manager == r.manager,
        well_led(a, reconcile::given_up(r, a)),
        steps_on(a, reconcile::given_up(r, a)),
{
    let id = reconcile::current(a);
    let desired = if reconcile::is_served(r.manager, id) {
        if r.applied.dom().contains(id) {
            a.desired.insert(id, r.applied[id])
        } else {
            a.desired
        }
    } else {
        a.desired.remove(id)
    };
    lemma_proceed(r, ApplyingView { index: a.index + 1, desired, ..a });
}

/// A step of a generation being applied touches no endpoint but the one it is
/// at, and leads to the next wait or to the answer.
pub proof fn law_step_touches_one_endpoint<V>(r: ReconcilerView<V>, a: ApplyingView<V>, answer: AnswerView<V>)
    requires
        coherent(r, a),
    ensures
        ({
            let x = reconcile::applying_resumed(r, a, answer);
            &&& others_left_alone(r.manager, x.reconciler.manager, reconcile::current(a))
            &&& well_led(a, x)
            &&& steps_on(a, x)
        }),
{
    match (a.stage, answer) {
        (ApplyStageView::Polling, AnswerView::Polled(finished)) => lemma_polled_step(r, a, finished),
        (ApplyStageView::Starting(op), AnswerView::Started(started)) => lemma_started_step(r, a, op, started),
        (ApplyStageView::Rebuilding, AnswerView::Built(builds)) => lemma_rebuilt_step(r, a, builds),
        (ApplyStageView::Repolling(built), AnswerView::Polled(finished)) => lemma_begun_step(
            r,
            ApplyingView { stage: ApplyStageView::Polling, ..a },
            built,
            finished,
        ),
        (ApplyStageView::Restarting(op), AnswerView::Started(started)) => lemma_started_step(r, a, op, started),
        _ => lemma_quiet(r.manager, r.manager),
    }
}

proof fn lemma_polled_step<V>(r: ReconcilerView<V>, a: ApplyingView<V>, finished: Seq<TaskId>)
    requires
        coherent(r, a),
        a.stage is Polling,
    ensures
        ({
            let x = reconcile::applying_resumed(r, a, AnswerView::Polled(finished));
            &&& others_left_alone(r.manager, x.reconciler.manager, reconcile::current(a))
            &&& well_led(a, x)
            &&& steps_on(a, x)
        }),
{
    let id = reconcile::current(a);
    assert(ApplyingView { stage: ApplyStageView::Polling, ..a } == a);
    match a.plans[id] {
        PlanView::Start { built } => lemma_begun_step(r, a, built, finished),
        PlanView::Replace { built } => lemma_begun_step(r, a, built, finished),
        PlanView::Delete => {
            let y = manager::removed(r.manager, id, finished);
            lemma_remove_leaves_others(r.manager, id, finished);
            lemma_proceed(
                ReconcilerView { manager: y.manager, ..r },
                ApplyingView {
                    index: a.index + 1,
                    desired: a.desired.remove(id),
                    results: a.results + reconcile::outcome_results(id, y.outcomes),
                    ..a
                },
            );
        },
        _ => {},
    }
}

proof fn lemma_rebuilt_step<V>(
    r: ReconcilerView<V>,
    a: ApplyingView<V>,
    builds: Seq<Result<EndpointSpecView, Seq<char>>>,
)
    requires
        coherent(r, a),
        a.stage is Rebuilding,
    ensures
        ({
            let x = reconcile::applying_resumed(r, a, AnswerView::Built(builds));
            &&& others_left_alone(r.manager, x.reconciler.manager, reconcile::current(a))
            &&& well_led(a, x)
            &&& steps_on(a, x)
        }),
{
    lemma_given_up(r, ApplyingView { stage: ApplyStageView::Polling, ..a });
    lemma_quiet(r.manager, r.manager);
}

proof fn lemma_started_step<V>(
    r: ReconcilerView<V>,
    a: ApplyingView<V>,
    op: ApplyOpView,
    started: Result<manager::Bound, Seq<char>>,
)
    requires
        coherent(r, a),
        op_of(a.stage) == Some(op),
    ensures
        ({
            let x = reconcile::applying_resumed(r, a, AnswerView::Started(started));
            &&& others_left_alone(r.manager, x.reconciler.manager, reconcile::current(a))
            &&& well_led(a, x)
            &&& steps_on(a, x)
        }),
{
    let b = ApplyingView { stage: ApplyStageView::Polling, ..a };
    let p = manager::apply_resumed(r.manager, op, started);
    lemma_resume_leaves_others(r.manager, op, started);
    manager_laws::law_resume_touches_one_id(r.manager, op, started);
    lemma_progress_step(r, b, p);
}

proof fn lemma_quiet(m: ManagerView, n: ManagerView)
    ensures
        m == n ==> forall|id: Seq<char>| #[trigger] others_left_alone(m, n, id),
{
}

proof fn lemma_begun_step<V>(r: ReconcilerView<V>, b: ApplyingView<V>, built: EndpointSpecView, finished: Seq<TaskId>)
    requires
        coherent(r, b),
        b.stage is Polling,
        !(b.plans[reconcile::current(b)] is Delete),
    ensures
        ({
            let p = manager::apply_begun(r.manager, reconcile::current(b), b.generation, built, finished);
            let x = reconcile::applying_progress(r, b, p);
            let y = reconcile::restoring_progress(r, b, p);
            &&& others_left_alone(r.manager, x.reconciler.manager, reconcile::current(b))
            &&& well_led(b, x)
            &&& steps_on(b, x)
            &&& others_left_alone(r.manager, y.reconciler.manager, reconcile::current(b))
            &&& well_led(b, y)
            &&& steps_on(b, y)
        }),
{
    let id = reconcile::current(b);
    let p = manager::apply_begun(r.manager, id, b.generation, built, finished);
    lemma_apply_leaves_others(r.manager, id, b.generation, built, finished);
    manager_laws::law_apply_touches_one_id(r.manager, id, b.generation, built, finished);
    lemma_progress_step(r, b, p);
}

proof fn lemma_progress_step<V>(r: ReconcilerView<V>, b: ApplyingView<V>, p: Progress)
    requires
        0 <= b.index < b.order.len(),
        crate::idmap::strictly_sorted(b.order),
        acts(b.plans[reconcile::current(b)]),
        !(b.plans[reconcile::current(b)] is Delete),
        b.stage is Polling,
        p.next matches NextView::More(op) ==> op.id == reconcile::current(b) && p.manager.entries.dom().contains(
            op.id,
        ),
    ensures
        reconcile::applying_progress(r, b, p).reconciler.manager == p.manager,
        well_led(b, reconcile::applying_progress(r, b, p)),
        steps_on(b, reconcile::applying_progress(r, b, p)),
        reconcile::restoring_progress(r, b, p).reconciler.manager == p.manager,
        well_led(b, reconcile::restoring_progress(r, b, p)),
        steps_on(b, reconcile::restoring_progress(r, b, p)),
{
    let n = ReconcilerView { manager: p.manager, ..r };
    if let NextView::Done(outcomes) = p.next {
        lemma_applied_with(n, b, outcomes);
    }
}

// --------------------------------------------------------------------- run --

/// What one answer leads to.
///
/// This is [`reconcile::applying_resumed`]. It is kept opaque so that the run of a
/// whole submission can be spoken of without looking into each of its steps.
#[verifier::opaque]
pub open spec fn answered<V>(r: ReconcilerView<V>, a: ApplyingView<V>, answer: AnswerView<V>) -> StepView<V> {
    reconcile::applying_resumed(r, a, answer)
}

/// Answer the waits of a submission one after the other, until it is through or
/// there are no more answers.
pub open spec fn run<V>(x: StepView<V>, answers: Seq<AnswerView<V>>) -> StepView<V>
    decreases answers.len(),
{
    if answers.len() == 0 {
        x
    } else {
        match x.next {
            StepNext::More(PendingView::Applying(a)) => run(
                answered(x.reconciler, a, answers[0]),
                answers.drop_first(),
            ),
            _ => x,
        }
    }
}

proof fn lemma_run_leaves_alone<V>(
    a: ApplyingView<V>,
    x: StepView<V>,
    answers: Seq<AnswerView<V>>,
    id: Seq<char>,
)
    requires
        well_led(a, x),
        !acts(a.plans[id]),
    ensures
        left_alone(x.reconciler.manager, run(x, answers).reconciler.manager, id),
        well_led(a, run(x, answers)),
    decreases answers.len(),
{
    reveal(answered);
    let m = x.reconciler.manager;
    if answers.len() > 0 {
        if let StepNext::More(PendingView::Applying(b)) = x.next {
            law_step_touches_one_endpoint(x.reconciler, b, answers[0]);
            let y = reconcile::applying_resumed(x.reconciler, b, answers[0]);
            assert(well_led(a, y));
            lemma_run_leaves_alone(a, y, answers.drop_first(), id);
            assert(left_alone(m, y.reconciler.manager, id));
            lemma_left_alone_chain(m, y.reconciler.manager, run(x, answers).reconciler.manager, id);
        }
    }
}

pub(crate) proof fn lemma_stop_leaves_others(m: ManagerView, h: Seq<char>, proto: Proto)
    ensures
        others_left_alone(m, manager::accept_stopped(m, h, proto), h),
        m.entries.dom() == manager::accept_stopped(m, h, proto).entries.dom(),
{
    let n = manager::accept_stopped(m, h, proto);
    assert(n.entries.remove(h) =~= m.entries.remove(h));
    assert(n.entries.dom() =~= m.entries.dom());
    assert forall|k: Seq<char>| #![trigger left_alone(m, n, k)] k != h implies left_alone(m, n, k) by {
        lemma_elsewhere_left_alone(m, n, h, k);
    }
}

proof fn lemma_release_leaves_alone(m: ManagerView, hs: Seq<HandoverView>, n: int, id: Seq<char>)
    requires
        0 <= n <= hs.len(),
        forall|i: int| 0 <= i < hs.len() ==> (#[trigger] hs[i]).id != id,
    ensures
        left_alone(m, plan::released(m, hs, n).manager, id),
    decreases n,
{
    if n > 0 {
        lemma_release_leaves_alone(m, hs, n - 1, id);
        let before = plan::released(m, hs, n - 1).manager;
        let h = hs[n - 1];
        lemma_stop_leaves_others(before, h.id, h.proto);
        assert(left_alone(before, manager::accept_stopped(before, h.id, h.proto), id));
        lemma_left_alone_chain(m, before, plan::released(m, hs, n).manager, id);
    }
}

pub(crate) proof fn lemma_handovers(
    m: ManagerView,
    plans: Map<Seq<char>, PlanView>,
    order: Seq<Seq<char>>,
    n: int,
)
    requires
        0 <= n <= order.len(),
    ensures
        forall|i: int|
            0 <= i < plan::handovers(m, plans, order, n).len() ==> {
                let h = #[trigger] plan::handovers(m, plans, order, n)[i];
                plan::handed_over(m, plans, h.id, h.proto) && h == plan::handover(m, plans[h.id], h.id, h.proto)
            },
    decreases n,
{
    if n > 0 {
        lemma_handovers(m, plans, order, n - 1);
    }
}

/// An endpoint that is left as it is, or whose new description is invalid, is
/// left alone by the whole submission: what it served before it still serves
/// after, unless its task ended on its own.
pub proof fn law_endpoint_without_change_is_left_alone<V>(
    r: ReconcilerView<V>,
    generation: Generation,
    submitted: Seq<DesiredView<V>>,
    endpoints: Seq<DesiredView<V>>,
    unref: Map<Seq<char>, Seq<char>>,
    builds: Seq<Result<EndpointSpecView, Seq<char>>>,
    answers: Seq<AnswerView<V>>,
    id: Seq<char>,
)
    requires
        r.manager.entries.dom().finite(),
        reconcile::final_plans(r, endpoints, unref, builds).dom().contains(id),
        !acts(reconcile::final_plans(r, endpoints, unref, builds)[id]),
    ensures
        ({
            let x = reconcile::planned(r, generation, submitted, endpoints, unref, builds);
            left_alone(r.manager, run(x, answers).reconciler.manager, id)
        }),
{
    let plans = reconcile::final_plans(r, endpoints, unref, builds);
    let order = crate::idmap::in_order(plans.dom());
    let hs = plan::handovers(r.manager, plans, order, order.len() as int);
    let x = plan::all_released(r.manager, plans);
    lemma_handovers(r.manager, plans, order, order.len() as int);
    lemma_release_leaves_alone(r.manager, hs, hs.len() as int, id);
    let a = first_stage(generation, submitted, endpoints, unref, builds, plans, x.released);
    let begun = ReconcilerView { manager: x.manager, ..r };
    lemma_plans_finite(r, endpoints, unref, builds);
    crate::idmap::lemma_finite_in_order(plans.dom());
    lemma_proceed(begun, a);
    let s = reconcile::planned(r, generation, submitted, endpoints, unref, builds);
    lemma_run_leaves_alone(a, s, answers, id);
    lemma_left_alone_chain(r.manager, x.manager, run(s, answers).reconciler.manager, id);
}

/// A generation about to be applied.
pub open spec fn first_stage<V>(
    generation: Generation,
    submitted: Seq<DesiredView<V>>,
    endpoints: Seq<DesiredView<V>>,
    unref: Map<Seq<char>, Seq<char>>,
    builds: Seq<Result<EndpointSpecView, Seq<char>>>,
    plans: Map<Seq<char>, PlanView>,
    released: Seq<Seq<char>>,
) -> ApplyingView<V> {
    ApplyingView {
        generation,
        submitted,
        order: crate::idmap::in_order(plans.dom()),
        plans,
        index: 0,
        desired: plan::desired_of(endpoints, unref, builds),
        released,
        results: Seq::empty(),
        stage: ApplyStageView::Polling,
    }
}

/// Finitely many ids are planned.
pub(crate) proof fn lemma_plans_finite<V>(
    r: ReconcilerView<V>,
    endpoints: Seq<DesiredView<V>>,
    unref: Map<Seq<char>, Seq<char>>,
    builds: Seq<Result<EndpointSpecView, Seq<char>>>,
)
    requires
        r.manager.entries.dom().finite(),
    ensures
        reconcile::final_plans(r, endpoints, unref, builds).dom().finite(),
{
    let names = Seq::new(endpoints.len(), |i: int| endpoints[i].id);
    let dom = reconcile::final_plans(r, endpoints, unref, builds).dom();
    vstd::seq_lib::seq_to_set_is_finite(names);
    let all = names.to_set().union(r.manager.entries.dom());
    assert forall|id: Seq<char>| #[trigger] dom.contains(id) implies all.contains(id) by {
        if plan::occurs(endpoints, id) {
            let i = choose|i: int| 0 <= i < endpoints.len() && (#[trigger] endpoints[i]).id == id;
            assert(names[i] == id);
        }
    }
    vstd::set_lib::lemma_set_subset_finite(all, dom);
}

// ---------------------------------------------------------------- deletions --

/// The ids to be deleted among the first `n` are not managed anymore.
pub open spec fn gone<V>(m: ManagerView, a: ApplyingView<V>, n: int) -> bool {
    forall|j: int|
        0 <= j < n && a.plans[#[trigger] a.order[j]] is Delete ==> !m.entries.dom().contains(a.order[j])
}

proof fn lemma_step_deletes<V>(r: ReconcilerView<V>, a: ApplyingView<V>, answer: AnswerView<V>)
    requires
        coherent(r, a),
        gone(r.manager, a, a.index),
    ensures
        ({
            let x = reconcile::applying_resumed(r, a, answer);
            gone(x.reconciler.manager, a, reached(a, x))
        }),
{
    let id = reconcile::current(a);
    let x = reconcile::applying_resumed(r, a, answer);
    let n = x.reconciler.manager;
    law_step_touches_one_endpoint(r, a, answer);
    assert forall|j: int| 0 <= j < reached(a, x) && a.plans[#[trigger] a.order[j]] is Delete implies !n.entries.dom().contains(
        a.order[j],
    ) by {
        plan::lemma_distinct(a.order, a.index);
        if j < a.index {
            assert(left_alone(r.manager, n, a.order[j]));
        } else if j == a.index {
            // only a delete leads on from a plan that deletes
            assert(a.stage is Polling);
            match answer {
                AnswerView::Polled(finished) => {
                    let y = manager::removed(r.manager, id, finished);
                    lemma_remove_leaves_others(r.manager, id, finished);
                    lemma_proceed(
                        ReconcilerView { manager: y.manager, ..r },
                        ApplyingView {
                            index: a.index + 1,
                            desired: a.desired.remove(id),
                            results: a.results + reconcile::outcome_results(id, y.outcomes),
                            ..a
                        },
                    );
                    assert(ApplyingView { stage: ApplyStageView::Polling, ..a } == a);
                },
                _ => {},
            }
        }
    }
}

proof fn lemma_run_deletes<V>(a: ApplyingView<V>, x: StepView<V>, answers: Seq<AnswerView<V>>)
    requires
        well_led(a, x),
        gone(x.reconciler.manager, a, reached(a, x)),
    ensures
        well_led(a, run(x, answers)),
        gone(run(x, answers).reconciler.manager, a, reached(a, run(x, answers))),
    decreases answers.len(),
{
    reveal(answered);
    if answers.len() > 0 {
        if let StepNext::More(PendingView::Applying(b)) = x.next {
            law_step_touches_one_endpoint(x.reconciler, b, answers[0]);
            lemma_step_deletes(x.reconciler, b, answers[0]);
            lemma_run_deletes(
                a,
                reconcile::applying_resumed(x.reconciler, b, answers[0]),
                answers.drop_first(),
            );
        }
    }
}

/// Once a generation is applied, no id that it does not desire is managed
/// anymore; after an empty desired state nothing is.
pub proof fn law_undesired_ids_are_gone<V>(
    r: ReconcilerView<V>,
    generation: Generation,
    submitted: Seq<DesiredView<V>>,
    endpoints: Seq<DesiredView<V>>,
    unref: Map<Seq<char>, Seq<char>>,
    builds: Seq<Result<EndpointSpecView, Seq<char>>>,
    answers: Seq<AnswerView<V>>,
    id: Seq<char>,
)
    requires
        r.manager.entries.dom().finite(),
        run(reconcile::planned(r, generation, submitted, endpoints, unref, builds), answers).next is Applied,
        !plan::occurs(endpoints, id),
    ensures
        !run(
            reconcile::planned(r, generation, submitted, endpoints, unref, builds),
            answers,
        ).reconciler.manager.entries.dom().contains(id),
{
    let plans = reconcile::final_plans(r, endpoints, unref, builds);
    let order = crate::idmap::in_order(plans.dom());
    let x = plan::all_released(r.manager, plans);
    let a = first_stage(generation, submitted, endpoints, unref, builds, plans, x.released);
    let begun = ReconcilerView { manager: x.manager, ..r };
    let s = reconcile::planned(r, generation, submitted, endpoints, unref, builds);
    lemma_plans_finite(r, endpoints, unref, builds);
    crate::idmap::lemma_finite_in_order(plans.dom());
    lemma_proceed(begun, a);
    assert(gone(s.reconciler.manager, a, reached(a, s)));
    lemma_run_deletes(a, s, answers);
    if r.manager.entries.dom().contains(id) {
        assert(plans.dom().contains(id));
        assert(order.contains(id));
        let j = order.index_of(id);
        assert(a.plans[a.order[j]] is Delete);
    } else {
        // an id that is neither desired nor managed is never touched
        let m = r.manager;
        let hs = plan::handovers(m, plans, order, order.len() as int);
        lemma_handovers(m, plans, order, order.len() as int);
        assert forall|i: int| 0 <= i < hs.len() implies (#[trigger] hs[i]).id != id by {
            assert(plan::handed_over(m, plans, hs[i].id, hs[i].proto));
        }
        lemma_release_leaves_alone(m, hs, hs.len() as int, id);
        lemma_run_never_adds(a, s, answers, id);
    }
}

proof fn lemma_run_never_adds<V>(a: ApplyingView<V>, x: StepView<V>, answers: Seq<AnswerView<V>>, id: Seq<char>)
    requires
        well_led(a, x),
        !a.order.contains(id),
        !x.reconciler.manager.entries.dom().contains(id),
    ensures
        !run(x, answers).reconciler.manager.entries.dom().contains(id),
    decreases answers.len(),
{
    reveal(answered);
    if answers.len() > 0 {
        if let StepNext::More(PendingView::Applying(b)) = x.next {
            law_step_touches_one_endpoint(x.reconciler, b, answers[0]);
            let y = reconcile::applying_resumed(x.reconciler, b, answers[0]);
            assert(a.order[b.index] != id);
            assert(left_alone(x.reconciler.manager, y.reconciler.manager, id));
            lemma_run_never_adds(a, y, answers.drop_first(), id);
        }
    }
}

// --------------------------------------------------------------- handovers --

proof fn lemma_stopped_stay_stopped(m: ManagerView, hs: Seq<HandoverView>, n: int)
    requires
        0 <= n <= hs.len(),
    ensures
        forall|i: int|
            0 <= i < n ==> plan::released(m, hs, n).manager.serving((#[trigger] hs[i]).id, hs[i].proto) is None,
        forall|id: Seq<char>, proto: Proto|
            #![trigger plan::released(m, hs, n).manager.serving(id, proto)]
            plan::released(m, hs, n).manager.serving(id, proto) matches Some(e) ==> m.serving(id, proto) == Some(e),
    decreases n,
{
    if n > 0 {
        lemma_stopped_stay_stopped(m, hs, n - 1);
        let before = plan::released(m, hs, n - 1).manager;
        let h = hs[n - 1];
        let after = manager::accept_stopped(before, h.id, h.proto);
        assert forall|id: Seq<char>, proto: Proto| #![trigger after.serving(id, proto)]
            after.serving(id, proto) matches Some(e) ==> before.serving(id, proto) == Some(e) && !(id == h.id && proto
                == h.proto) by {
            if before.active(h.id, h.proto) is Some {
                assert(id != h.id ==> after.entries.dom().contains(id) == before.entries.dom().contains(id));
            }
        }
    }
}

pub(crate) proof fn lemma_handover_listed(
    m: ManagerView,
    plans: Map<Seq<char>, PlanView>,
    order: Seq<Seq<char>>,
    n: int,
    at: int,
    proto: Proto,
) -> (i: int)
    requires
        0 <= at < n <= order.len(),
        plan::handed_over(m, plans, order[at], proto),
    ensures
        0 <= i < plan::handovers(m, plans, order, n).len(),
        plan::handovers(m, plans, order, n)[i].id == order[at],
        plan::handovers(m, plans, order, n)[i].proto == proto,
    decreases n,
{
    let before = plan::handovers(m, plans, order, n - 1);
    let own = plan::handovers_of(m, plans, order[n - 1]);
    if at < n - 1 {
        let i = lemma_handover_listed(m, plans, order, n - 1, at, proto);
        assert((before + own)[i] == before[i]);
        i
    } else {
        let k = match proto {
            Proto::Tcp => 0,
            Proto::Udp => own.len() - 1,
        };
        assert(own[k].id == order[at] && own[k].proto == proto);
        assert((before + own)[before.len() + k] == own[k]);
        before.len() + k
    }
}

/// Before anything is bound, an address that an endpoint is about to take is
/// free of every other endpoint this submission deletes, replaces or leaves as
/// it is.
///
/// What may still hold it is an endpoint whose own description is invalid, which
/// keeps serving, or one that is started anew without having been applied.
pub proof fn law_contended_address_is_released<V>(
    r: ReconcilerView<V>,
    endpoints: Seq<DesiredView<V>>,
    unref: Map<Seq<char>, Seq<char>>,
    builds: Seq<Result<EndpointSpecView, Seq<char>>>,
    id: Seq<char>,
    other: Seq<char>,
    proto: Proto,
)
    requires
        r.manager.entries.dom().finite(),
        id != other,
        ({
            let plans = reconcile::final_plans(r, endpoints, unref, builds);
            &&& plans.dom().contains(id)
            &&& plans[id].target() matches Some(built) && built.wants(proto) && !(r.manager.serving(
                id,
                proto,
            ) matches Some(e) && e.laddr == built.endpoint.laddr)
        }),
    ensures
        ({
            let plans = reconcile::final_plans(r, endpoints, unref, builds);
            let laddr = plans[id].target()->0.endpoint.laddr;
            plan::all_released(r.manager, plans).manager.serving(other, proto) matches Some(e) && e.laddr == laddr
                ==> plans[other] is Invalid || plans[other] is Start
        }),
{
    let m = r.manager;
    let plans = reconcile::final_plans(r, endpoints, unref, builds);
    let alone = plan::plans_of(m, r.applied, endpoints, unref, builds);
    let order = crate::idmap::in_order(plans.dom());
    let laddr = plans[id].target()->0.endpoint.laddr;
    let hs = plan::handovers(m, plans, order, order.len() as int);
    let x = plan::all_released(m, plans);
    lemma_plans_finite(r, endpoints, unref, builds);
    crate::idmap::lemma_finite_in_order(plans.dom());
    lemma_stopped_stay_stopped(m, hs, hs.len() as int);
    if x.manager.serving(other, proto) is Some && x.manager.serving(other, proto)->0.laddr == laddr {
        let e = x.manager.serving(other, proto)->0;
        assert(m.serving(other, proto) == Some(e));
        assert(m.entries.dom().contains(other));
        assert(plans.dom().contains(other));
        assert(plans[id].binds(laddr, proto));
        assert(plan::wanted(m, plans, laddr, proto));
        // the plans that were not marked are those made for each on its own
        assert(plan::occurs(endpoints, id) ==> alone.dom().contains(id));
        assert(alone.dom().contains(id));
        assert(alone[id] == plans[id]);
        let order0 = crate::idmap::in_order(alone.dom());
        assert(plan::listen_error(m, alone, order0, id, proto) is None);
        match plans[other] {
            PlanView::Unchanged => {
                assert(alone.dom().contains(other));
                assert(alone[other] is Unchanged);
                assert(plan::holds(m, alone, other, laddr, proto));
                let names = Seq::new(endpoints.len(), |i: int| endpoints[i].id);
                vstd::seq_lib::seq_to_set_is_finite(names);
                assert forall|k: Seq<char>| #[trigger] alone.dom().contains(k) implies names.to_set().contains(k) by {
                    let i = choose|i: int| 0 <= i < endpoints.len() && (#[trigger] endpoints[i]).id == k;
                    assert(names[i] == k);
                }
                vstd::set_lib::lemma_set_subset_finite(names.to_set(), alone.dom());
                crate::idmap::lemma_finite_in_order(alone.dom());
                assert(order0.contains(other));
                crate::lifecycle::reconcile_laws::lemma_incumbent_found(m, alone, order0, order0.len() as int, laddr, proto, order0.index_of(other));
            },
            PlanView::Replace { built } => {
                if built.endpoint.laddr == laddr && built.wants(proto) {
                    assert(alone.dom().contains(other));
                    assert(alone[other] == plans[other]);
                    assert(alone[other].binds(laddr, proto));
                    assert(plan::contested(alone, id, laddr, proto));
                } else {
                    assert(plan::leaving(m, plans[other], other));
                    lemma_handed_over_is_stopped(m, plans, order, other, proto);
                }
            },
            PlanView::Delete => {
                lemma_handed_over_is_stopped(m, plans, order, other, proto);
            },
            _ => {},
        }
    }
}

proof fn lemma_handed_over_is_stopped(
    m: ManagerView,
    plans: Map<Seq<char>, PlanView>,
    order: Seq<Seq<char>>,
    id: Seq<char>,
    proto: Proto,
)
    requires
        crate::idmap::lists(order, plans.dom()),
        plans.dom().contains(id),
        plan::handed_over(m, plans, id, proto),
    ensures
        ({
            let hs = plan::handovers(m, plans, order, order.len() as int);
            plan::released(m, hs, hs.len() as int).manager.serving(id, proto) is None
        }),
{
    let hs = plan::handovers(m, plans, order, order.len() as int);
    assert(order.contains(id));
    let at = order.index_of(id);
    let i = lemma_handover_listed(m, plans, order, order.len() as int, at, proto);
    lemma_stopped_stay_stopped(m, hs, hs.len() as int);
    assert(hs[i].id == id);
}

/// A listener that is handed over drains under the delete deadline if its
/// endpoint goes, and as in any update if it moves.
pub proof fn law_handover_deadline(m: ManagerView, plan: PlanView, id: Seq<char>, proto: Proto)
    requires
        m.entries.dom().contains(id),
    ensures
        ({
            let policy = m.entries[id].drain;
            let h = plan::handover(m, plan, id, proto);
            &&& plan is Delete ==> h.deadline == policy.on_delete
            &&& !(plan is Delete) ==> h.deadline == types::replaced_deadline(policy, proto)
        }),
{
}

} // verus!
