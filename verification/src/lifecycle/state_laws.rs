//! What every submission keeps: the applied set matches what is managed, and
//! nothing is reported running that has no listener.

use vstd::prelude::*;

use crate::lifecycle::manager;
use crate::lifecycle::manager::{ApplyOpView, ManagerView, NextView, Progress, Route, SlotView, StageView};
use crate::lifecycle::manager_laws;
use crate::lifecycle::plan;
use crate::lifecycle::plan::{DesiredView, HandoverView, PlanView};
use crate::lifecycle::reconcile;
use crate::lifecycle::reconcile::{
    AnswerView, ApplyStageView, ApplyingView, GenerationState, PendingView, ReconcilerView, StepNext, StepView,
};
use crate::lifecycle::run_laws;
use crate::lifecycle::types::{EndpointSpecView, Generation, Proto, SlotAction, TaskId};

verus! {

// ----------------------------------------------------------------- honesty --

/// Nothing reports `running` without a listener, except a slot that is being
/// rebound.
pub open spec fn sound<V>(r: ReconcilerView<V>, a: ApplyingView<V>) -> bool {
    match run_laws::op_of(a.stage) {
        Some(op) => manager_laws::honest_within(r.manager, op),
        None => manager_laws::honest(r.manager),
    }
}

/// Where a step may lead as far as honesty goes.
pub open spec fn sound_step<V>(x: StepView<V>) -> bool {
    match x.next {
        StepNext::More(PendingView::Applying(b)) => sound(x.reconciler, b),
        _ => manager_laws::honest(x.reconciler.manager),
    }
}

proof fn lemma_progress_sound<V>(r: ReconcilerView<V>, a: ApplyingView<V>, p: Progress)
    requires
        manager_laws::honest_progress(p),
    ensures
        sound_step(reconcile::applying_progress(r, a, p)),
        sound_step(reconcile::restoring_progress(r, a, p)),
{
}

/// A step of a generation being applied keeps the state honest.
pub proof fn law_step_is_honest<V>(r: ReconcilerView<V>, a: ApplyingView<V>, answer: AnswerView<V>)
    requires
        run_laws::coherent(r, a),
        sound(r, a),
    ensures
        sound_step(reconcile::applying_resumed(r, a, answer)),
{
    let id = reconcile::current(a);
    let b = ApplyingView { stage: ApplyStageView::Polling, ..a };
    match (a.stage, answer) {
        (ApplyStageView::Polling, AnswerView::Polled(finished)) => {
            match a.plans[id] {
                PlanView::Start { built } => lemma_begun_sound(r, b, built, finished),
                PlanView::Replace { built } => lemma_begun_sound(r, b, built, finished),
                PlanView::Delete => {
                    manager_laws::law_release_is_honest(r.manager, id, Proto::Tcp, finished);
                },
                _ => {},
            }
        },
        (ApplyStageView::Starting(op), AnswerView::Started(started)) => {
            lemma_resumed_sound(r, b, op, started);
        },
        (ApplyStageView::Repolling(built), AnswerView::Polled(finished)) => {
            lemma_begun_sound(r, b, built, finished);
        },
        (ApplyStageView::Restarting(op), AnswerView::Started(started)) => {
            lemma_resumed_sound(r, b, op, started);
        },
        _ => {},
    }
}

proof fn lemma_begun_sound<V>(r: ReconcilerView<V>, b: ApplyingView<V>, built: EndpointSpecView, finished: Seq<TaskId>)
    requires
        manager_laws::honest(r.manager),
    ensures
        ({
            let p = manager::apply_begun(r.manager, reconcile::current(b), b.generation, built, finished);
            &&& sound_step(reconcile::applying_progress(r, b, p))
            &&& sound_step(reconcile::restoring_progress(r, b, p))
        }),
{
    let p = manager::apply_begun(r.manager, reconcile::current(b), b.generation, built, finished);
    manager_laws::law_apply_is_honest(r.manager, reconcile::current(b), b.generation, built, finished);
    lemma_progress_sound(r, b, p);
}

proof fn lemma_resumed_sound<V>(
    r: ReconcilerView<V>,
    b: ApplyingView<V>,
    op: ApplyOpView,
    started: Result<manager::Bound, Seq<char>>,
)
    requires
        manager_laws::honest_within(r.manager, op),
        r.manager.entries.dom().contains(op.id),
    ensures
        ({
            let p = manager::apply_resumed(r.manager, op, started);
            &&& sound_step(reconcile::applying_progress(r, b, p))
            &&& sound_step(reconcile::restoring_progress(r, b, p))
        }),
{
    manager_laws::law_resume_is_honest(r.manager, op, started);
    lemma_progress_sound(r, b, manager::apply_resumed(r.manager, op, started));
}

proof fn lemma_released_honest(m: ManagerView, hs: Seq<HandoverView>, n: int)
    requires
        manager_laws::honest(m),
    ensures
        manager_laws::honest(plan::released(m, hs, n).manager),
    decreases n,
{
    if n > 0 {
        lemma_released_honest(m, hs, n - 1);
        let h = hs[n - 1];
        manager_laws::law_release_is_honest(plan::released(m, hs, n - 1).manager, h.id, h.proto, Seq::empty());
    }
}

proof fn lemma_run_sound<V>(a: ApplyingView<V>, x: StepView<V>, answers: Seq<AnswerView<V>>)
    requires
        run_laws::well_led(a, x),
        sound_step(x),
    ensures
        sound_step(run_laws::run(x, answers)),
    decreases answers.len(),
{
    reveal(run_laws::answered);
    if answers.len() > 0 {
        if let StepNext::More(PendingView::Applying(b)) = x.next {
            run_laws::law_step_touches_one_endpoint(x.reconciler, b, answers[0]);
            law_step_is_honest(x.reconciler, b, answers[0]);
            lemma_run_sound(a, reconcile::applying_resumed(x.reconciler, b, answers[0]), answers.drop_first());
        }
    }
}

/// A slot reports `running` only while it has a bound listener: whatever is
/// submitted, and however it goes, once the submission is through.
pub proof fn law_running_means_bound<V>(
    r: ReconcilerView<V>,
    generation: Generation,
    submitted: Seq<DesiredView<V>>,
    endpoints: Seq<DesiredView<V>>,
    unref: Map<Seq<char>, Seq<char>>,
    builds: Seq<Result<EndpointSpecView, Seq<char>>>,
    answers: Seq<AnswerView<V>>,
)
    requires
        r.manager.entries.dom().finite(),
        manager_laws::honest(r.manager),
    ensures
        ({
            let x = run_laws::run(
                reconcile::planned(r, generation, submitted, endpoints, unref, builds),
                answers,
            );
            x.next is Applied ==> manager_laws::honest(x.reconciler.manager)
        }),
{
    let plans = reconcile::final_plans(r, endpoints, unref, builds);
    let order = crate::idmap::in_order(plans.dom());
    let hs = plan::handovers(r.manager, plans, order, order.len() as int);
    lemma_released_honest(r.manager, hs, hs.len() as int);
    let a = lemma_begin(r, generation, submitted, endpoints, unref, builds);
    lemma_run_sound(a, reconcile::planned(r, generation, submitted, endpoints, unref, builds), answers);
}

proof fn lemma_begin<V>(
    r: ReconcilerView<V>,
    generation: Generation,
    submitted: Seq<DesiredView<V>>,
    endpoints: Seq<DesiredView<V>>,
    unref: Map<Seq<char>, Seq<char>>,
    builds: Seq<Result<EndpointSpecView, Seq<char>>>,
) -> (a: ApplyingView<V>)
    requires
        r.manager.entries.dom().finite(),
    ensures
        ({
            let plans = reconcile::final_plans(r, endpoints, unref, builds);
            let x = plan::all_released(r.manager, plans);
            &&& crate::idmap::lists(a.order, plans.dom())
            &&& a == run_laws::first_stage(generation, submitted, endpoints, unref, builds, plans, x.released)
            &&& run_laws::well_led(a, reconcile::planned(r, generation, submitted, endpoints, unref, builds))
        }),
{
    let plans = reconcile::final_plans(r, endpoints, unref, builds);
    let x = plan::all_released(r.manager, plans);
    let a = run_laws::first_stage(generation, submitted, endpoints, unref, builds, plans, x.released);
    run_laws::lemma_plans_finite(r, endpoints, unref, builds);
    crate::idmap::lemma_finite_in_order(plans.dom());
    run_laws::lemma_proceed(ReconcilerView { manager: x.manager, ..r }, a);
    a
}

// -------------------------------------------------------------- applied set --

/// Every applied id is managed.
pub open spec fn backed<V>(r: ReconcilerView<V>) -> bool {
    forall|id: Seq<char>|
        #[trigger] r.applied.dom().contains(id) ==> r.manager.entries.dom().contains(id)
}

/// An operation under way has its entry, the slots it is done with hold
/// something, and the slot it replaces is there.
pub open spec fn holding(m: ManagerView, op: ApplyOpView) -> bool {
    let proto = manager_laws::busy_with(op);
    &&& m.entries.dom().contains(op.id)
    &&& proto == Proto::Udp && op.spec.tcp ==> !manager::spent(m.slot(op.id, Proto::Tcp))
    &&& !(op.stage matches StageView::Starting { route: Route::Fresh, .. }) ==> m.slot(op.id, proto) is Some
}

pub open spec fn holding_progress(p: Progress, id: Seq<char>) -> bool {
    match p.next {
        NextView::More(op) => op.id == id && holding(p.manager, op),
        NextView::Done(_) => p.manager.entries.dom().contains(id),
    }
}

proof fn lemma_finish_holds(m: ManagerView, op: ApplyOpView, proto: Proto)
    requires
        m.entries.dom().contains(op.id),
        !manager::spent(m.slot(op.id, proto)),
    ensures
        holding_progress(manager::finish(m, op), op.id),
{
}

proof fn lemma_udp_holds(m: ManagerView, op: ApplyOpView)
    requires
        m.entries.dom().contains(op.id),
        op.spec.tcp ==> !manager::spent(m.slot(op.id, Proto::Tcp)),
        op.spec.tcp || op.spec.udp,
    ensures
        holding_progress(manager::run_udp(m, op), op.id),
{
    let t = manager::enter_slot(m, op, Proto::Udp);
    assert(t.manager.entries.dom().contains(op.id));
    assert(t.manager.slot(op.id, Proto::Tcp) == m.slot(op.id, Proto::Tcp));
    if !t.waiting {
        if op.spec.tcp {
            lemma_finish_holds(t.manager, t.op, Proto::Tcp);
        } else {
            lemma_finish_holds(t.manager, t.op, Proto::Udp);
        }
    }
}

proof fn lemma_after_holds(m: ManagerView, op: ApplyOpView, proto: Proto)
    requires
        m.entries.dom().contains(op.id),
        !manager::spent(m.slot(op.id, proto)),
        op.spec.wants(proto),
    ensures
        holding_progress(manager::run_after(m, op, proto), op.id),
{
    match proto {
        Proto::Tcp => lemma_udp_holds(m, op),
        Proto::Udp => lemma_finish_holds(m, op, Proto::Udp),
    }
}

proof fn lemma_begun_holds(
    m: ManagerView,
    id: Seq<char>,
    generation: Generation,
    spec: EndpointSpecView,
    finished: Seq<TaskId>,
)
    ensures
        ({
            let p = manager::apply_begun(m, id, generation, spec, finished);
            &&& spec.tcp || spec.udp ==> holding_progress(p, id)
            &&& !spec.tcp && !spec.udp ==> (p.next matches NextView::Done(o) && reconcile::any_failed(o))
            &&& p.next matches NextView::More(op) ==> op.spec == spec && op.spec.wants(manager_laws::busy_with(op))
        }),
{
    let m1 = manager::refreshed(m, finished);
    if spec.tcp || spec.udp {
        let drain = match spec.drain {
            Some(d) => d,
            None => m1.policy,
        };
        let m2 = manager::enrolled(m1, id, drain);
        let op = ApplyOpView {
            id,
            generation,
            spec,
            drain,
            stage: StageView::Starting { proto: Proto::Tcp, route: Route::Fresh },
            outcomes: Seq::empty(),
        };
        let t = manager::enter_slot(m2, op, Proto::Tcp);
        assert(t.manager.entries.dom().contains(id));
        if !t.waiting {
            lemma_udp_holds(t.manager, t.op);
        }
    } else {
        let p = manager::apply_begun(m, id, generation, spec, finished);
        assert(p.next->Done_0[0].action == SlotAction::Failed);
    }
}

proof fn lemma_resumed_holds(m: ManagerView, op: ApplyOpView, started: Result<manager::Bound, Seq<char>>)
    requires
        holding(m, op),
        op.spec.wants(manager_laws::busy_with(op)),
    ensures
        ({
            let p = manager::apply_resumed(m, op, started);
            &&& holding_progress(p, op.id)
            &&& p.next matches NextView::More(o) ==> o.spec == op.spec && o.spec.wants(manager_laws::busy_with(o))
        }),
{
    let proto = manager_laws::busy_with(op);
    assert forall|s: SlotView, o: ApplyOpView|
        o.id == op.id && o.spec == op.spec && !manager::spent(Some(s)) implies holding_progress(
        #[trigger] manager::run_after(m.with_slot(op.id, proto, Some(s)), o, proto),
        op.id,
    ) by {
        let n = m.with_slot(op.id, proto, Some(s));
        assert(n.slot(op.id, proto) == Some(s));
        lemma_after_holds(n, o, proto);
    }
}

/// The desired ids among the first `n` are managed.
pub open spec fn tracks<V>(m: ManagerView, a: ApplyingView<V>, n: int) -> bool {
    forall|j: int|
        0 <= j < n && a.desired.dom().contains(#[trigger] a.order[j]) ==> m.entries.dom().contains(a.order[j])
}

/// What stays as it is is managed.
pub open spec fn steady<V>(m: ManagerView, a: ApplyingView<V>) -> bool {
    forall|j: int|
        0 <= j < a.order.len() && a.plans[#[trigger] a.order[j]] is Unchanged ==> m.entries.dom().contains(a.order[j])
}

/// Only planned ids are desired.
pub open spec fn within<V>(a: ApplyingView<V>) -> bool {
    forall|id: Seq<char>| #[trigger] a.desired.dom().contains(id) ==> a.order.contains(id)
}

/// What keeps the applied set matching what is managed.
pub open spec fn keeping<V>(r: ReconcilerView<V>, a: ApplyingView<V>) -> bool {
    &&& tracks(r.manager, a, a.index)
    &&& steady(r.manager, a)
    &&& within(a)
    &&& run_laws::op_of(a.stage) matches Some(op) ==> holding(r.manager, op) && op.spec.wants(
        manager_laws::busy_with(op),
    )
}

pub open spec fn keeping_step<V>(x: StepView<V>) -> bool {
    match x.next {
        StepNext::More(PendingView::Applying(b)) => keeping(x.reconciler, b),
        _ => backed(x.reconciler),
    }
}

proof fn lemma_skip_keeps<V>(m: ManagerView, applied: Map<Seq<char>, V>, a: ApplyingView<V>)
    requires
        0 <= a.index <= a.order.len(),
        crate::idmap::strictly_sorted(a.order),
        tracks(m, a, a.index),
        steady(m, a),
        within(a),
    ensures
        ({
            let b = reconcile::skip(m, applied, a);
            &&& tracks(m, b, b.index)
            &&& steady(m, b)
            &&& within(b)
            &&& b.index <= b.order.len()
            &&& b.order == a.order
        }),
    decreases a.order.len() - a.index,
{
    if a.index < a.order.len() {
        let id = a.order[a.index];
        plan::lemma_distinct(a.order, a.index);
        match a.plans[id] {
            PlanView::Unchanged => {
                let n = ApplyingView {
                    index: a.index + 1,
                    results: a.results + reconcile::unchanged_results(m, id),
                    ..a
                };
                lemma_skip_keeps(m, applied, n);
            },
            PlanView::Invalid { error } => {
                let n = ApplyingView {
                    index: a.index + 1,
                    desired: reconcile::kept(m, applied, a.desired, id),
                    results: a.results + reconcile::invalid_results(m, id, error),
                    ..a
                };
                assert(a.order.contains(id));
                lemma_skip_keeps(m, applied, n);
            },
            _ => {},
        }
    }
}

proof fn lemma_proceed_keeps<V>(r: ReconcilerView<V>, a: ApplyingView<V>)
    requires
        0 <= a.index <= a.order.len(),
        crate::idmap::strictly_sorted(a.order),
        tracks(r.manager, a, a.index),
        steady(r.manager, a),
        within(a),
    ensures
        keeping_step(reconcile::proceed(r, a)),
{
    lemma_skip_keeps(r.manager, r.applied, a);
    let b = reconcile::skip(r.manager, r.applied, a);
    if b.index >= b.order.len() {
        assert forall|id: Seq<char>| #[trigger] b.desired.dom().contains(id) implies r.manager.entries.dom().contains(
            id,
        ) by {
            assert(b.order.contains(id));
            let j = b.order.index_of(id);
            assert(b.order[j] == id);
        }
    }
}

proof fn lemma_given_up_keeps<V>(r: ReconcilerView<V>, a: ApplyingView<V>)
    requires
        0 <= a.index < a.order.len(),
        crate::idmap::strictly_sorted(a.order),
        tracks(r.manager, a, a.index),
        steady(r.manager, a),
        within(a),
    ensures
        keeping_step(reconcile::given_up(r, a)),
{
    let id = reconcile::current(a);
    let desired = if reconcile::is_served(r.manager, id) {
        if r.applied.dom().contains(id) {
            a.desired.insert(id, r.applied[id])
        } else {
            a.desired
        }
    } else {
        a.desired.remove(id)
    };
    plan::lemma_distinct(a.order, a.index);
    assert(a.order.contains(id));
    lemma_proceed_keeps(r, ApplyingView { index: a.index + 1, desired, ..a });
}

proof fn lemma_progress_keeps<V>(r: ReconcilerView<V>, a: ApplyingView<V>, p: Progress)
    requires
        0 <= a.index < a.order.len(),
        crate::idmap::strictly_sorted(a.order),
        tracks(p.manager, a, a.index),
        steady(p.manager, a),
        within(a),
        a.stage is Polling,
        match p.next {
            NextView::More(op) => op.id == reconcile::current(a) && holding(p.manager, op) && op.spec.wants(
                manager_laws::busy_with(op),
            ),
            NextView::Done(outcomes) => p.manager.entries.dom().contains(reconcile::current(a))
                || reconcile::any_failed(outcomes),
        },
    ensures
        keeping_step(reconcile::applying_progress(r, a, p)),
        keeping_step(reconcile::restoring_progress(r, a, p)),
{
    let n = ReconcilerView { manager: p.manager, ..r };
    if let NextView::Done(outcomes) = p.next {
        let id = reconcile::current(a);
        let b = ApplyingView { results: a.results + reconcile::outcome_results(id, outcomes), ..a };
        lemma_given_up_keeps(n, a);
        lemma_given_up_keeps(n, b);
        lemma_given_up_keeps(n, ApplyingView { results: reconcile::noted(a.results, id, outcomes), ..a });
        if !reconcile::any_failed(outcomes) {
            lemma_proceed_keeps(n, ApplyingView { index: b.index + 1, ..b });
        }
    }
}

proof fn lemma_frame_keeps<V>(m: ManagerView, n: ManagerView, a: ApplyingView<V>)
    requires
        0 <= a.index < a.order.len(),
        crate::idmap::strictly_sorted(a.order),
        run_laws::acts(a.plans[reconcile::current(a)]),
        run_laws::others_left_alone(m, n, reconcile::current(a)),
        tracks(m, a, a.index),
        steady(m, a),
    ensures
        tracks(n, a, a.index),
        steady(n, a),
{
    plan::lemma_distinct(a.order, a.index);
    assert forall|j: int| 0 <= j < a.index && a.desired.dom().contains(#[trigger] a.order[j]) implies n.entries.dom().contains(
        a.order[j],
    ) by {
        assert(run_laws::left_alone(m, n, a.order[j]));
    }
    assert forall|j: int|
        0 <= j < a.order.len() && a.plans[#[trigger] a.order[j]] is Unchanged implies n.entries.dom().contains(
        a.order[j],
    ) by {
        assert(run_laws::left_alone(m, n, a.order[j]));
    }
}

proof fn lemma_begun_keeps<V>(r: ReconcilerView<V>, b: ApplyingView<V>, built: EndpointSpecView, finished: Seq<TaskId>)
    requires
        run_laws::coherent(r, b),
        b.stage is Polling,
        keeping(r, b),
    ensures
        ({
            let p = manager::apply_begun(r.manager, reconcile::current(b), b.generation, built, finished);
            &&& keeping_step(reconcile::applying_progress(r, b, p))
            &&& keeping_step(reconcile::restoring_progress(r, b, p))
        }),
{
    let id = reconcile::current(b);
    let p = manager::apply_begun(r.manager, id, b.generation, built, finished);
    lemma_begun_holds(r.manager, id, b.generation, built, finished);
    run_laws::lemma_apply_leaves_others(r.manager, id, b.generation, built, finished);
    lemma_frame_keeps(r.manager, p.manager, b);
    lemma_progress_keeps(r, b, p);
}

proof fn lemma_resumed_keeps<V>(
    r: ReconcilerView<V>,
    b: ApplyingView<V>,
    op: ApplyOpView,
    started: Result<manager::Bound, Seq<char>>,
)
    requires
        run_laws::coherent(r, b),
        b.stage is Polling,
        tracks(r.manager, b, b.index),
        steady(r.manager, b),
        within(b),
        op.id == reconcile::current(b),
        holding(r.manager, op),
        op.spec.wants(manager_laws::busy_with(op)),
    ensures
        ({
            let p = manager::apply_resumed(r.manager, op, started);
            &&& keeping_step(reconcile::applying_progress(r, b, p))
            &&& keeping_step(reconcile::restoring_progress(r, b, p))
        }),
{
    let p = manager::apply_resumed(r.manager, op, started);
    lemma_resumed_holds(r.manager, op, started);
    run_laws::lemma_resume_leaves_others(r.manager, op, started);
    lemma_frame_keeps(r.manager, p.manager, b);
    lemma_progress_keeps(r, b, p);
}

proof fn lemma_deleted_keeps<V>(r: ReconcilerView<V>, a: ApplyingView<V>, finished: Seq<TaskId>)
    requires
        run_laws::coherent(r, a),
        a.stage is Polling,
        a.plans[reconcile::current(a)] is Delete,
        keeping(r, a),
    ensures
        keeping_step(reconcile::applying_resumed(r, a, AnswerView::Polled(finished))),
{
    let id = reconcile::current(a);
    let y = manager::removed(r.manager, id, finished);
    run_laws::lemma_remove_leaves_others(r.manager, id, finished);
    lemma_frame_keeps(r.manager, y.manager, a);
    plan::lemma_distinct(a.order, a.index);
    let n = ApplyingView {
        index: a.index + 1,
        desired: a.desired.remove(id),
        results: a.results + reconcile::outcome_results(id, y.outcomes),
        ..a
    };
    assert(ApplyingView { stage: ApplyStageView::Polling, ..a } == a);
    lemma_proceed_keeps(ReconcilerView { manager: y.manager, ..r }, n);
}

proof fn lemma_step_keeps<V>(r: ReconcilerView<V>, a: ApplyingView<V>, answer: AnswerView<V>)
    requires
        run_laws::coherent(r, a),
        keeping(r, a),
    ensures
        keeping_step(reconcile::applying_resumed(r, a, answer)),
{
    let id = reconcile::current(a);
    let b = ApplyingView { stage: ApplyStageView::Polling, ..a };
    match (a.stage, answer) {
        (ApplyStageView::Polling, AnswerView::Polled(finished)) => {
            assert(a == b);
            match a.plans[id] {
                PlanView::Start { built } => lemma_begun_keeps(r, b, built, finished),
                PlanView::Replace { built } => lemma_begun_keeps(r, b, built, finished),
                PlanView::Delete => lemma_deleted_keeps(r, a, finished),
                _ => {},
            }
        },
        (ApplyStageView::Starting(op), AnswerView::Started(started)) => lemma_resumed_keeps(r, b, op, started),
        (ApplyStageView::Rebuilding, AnswerView::Built(builds)) => lemma_given_up_keeps(r, b),
        (ApplyStageView::Repolling(built), AnswerView::Polled(finished)) => lemma_begun_keeps(r, b, built, finished),
        (ApplyStageView::Restarting(op), AnswerView::Started(started)) => lemma_resumed_keeps(r, b, op, started),
        _ => {},
    }
}

proof fn lemma_run_keeps<V>(a: ApplyingView<V>, x: StepView<V>, answers: Seq<AnswerView<V>>)
    requires
        run_laws::well_led(a, x),
        keeping_step(x),
    ensures
        keeping_step(run_laws::run(x, answers)),
    decreases answers.len(),
{
    reveal(run_laws::answered);
    if answers.len() > 0 {
        if let StepNext::More(PendingView::Applying(b)) = x.next {
            run_laws::law_step_touches_one_endpoint(x.reconciler, b, answers[0]);
            lemma_step_keeps(x.reconciler, b, answers[0]);
            lemma_run_keeps(a, reconcile::applying_resumed(x.reconciler, b, answers[0]), answers.drop_first());
        }
    }
}

proof fn lemma_release_keeps_ids(m: ManagerView, hs: Seq<HandoverView>, n: int)
    ensures
        plan::released(m, hs, n).manager.entries.dom() == m.entries.dom(),
    decreases n,
{
    if n > 0 {
        lemma_release_keeps_ids(m, hs, n - 1);
        let h = hs[n - 1];
        run_laws::lemma_stop_leaves_others(plan::released(m, hs, n - 1).manager, h.id, h.proto);
    }
}

/// The applied set only holds what is managed: an endpoint that kept its old
/// listener stays applied, one left with nothing is dropped. Whatever is
/// submitted, and however it goes, this holds again once it is through.
pub proof fn law_applied_ids_are_managed<V>(
    r: ReconcilerView<V>,
    generation: Generation,
    submitted: Seq<DesiredView<V>>,
    endpoints: Seq<DesiredView<V>>,
    unref: Map<Seq<char>, Seq<char>>,
    builds: Seq<Result<EndpointSpecView, Seq<char>>>,
    answers: Seq<AnswerView<V>>,
)
    requires
        r.manager.entries.dom().finite(),
        backed(r),
    ensures
        ({
            let x = run_laws::run(
                reconcile::planned(r, generation, submitted, endpoints, unref, builds),
                answers,
            );
            x.next is Applied ==> backed(x.reconciler)
        }),
{
    let plans = reconcile::final_plans(r, endpoints, unref, builds);
    let order = crate::idmap::in_order(plans.dom());
    let hs = plan::handovers(r.manager, plans, order, order.len() as int);
    let rel = plan::all_released(r.manager, plans);
    let a = lemma_begin(r, generation, submitted, endpoints, unref, builds);
    let begun = ReconcilerView { manager: rel.manager, ..r };
    lemma_release_keeps_ids(r.manager, hs, hs.len() as int);
    assert forall|j: int| 0 <= j < a.order.len() && a.plans[#[trigger] a.order[j]] is Unchanged implies begun.manager.entries.dom().contains(
        a.order[j],
    ) by {
        let id = a.order[j];
        assert(a.order.contains(id));
        assert(plans.dom().contains(id));
        assert(plan::occurs(endpoints, id));
        crate::lifecycle::reconcile_laws::law_unchanged_means_same_and_running(r, endpoints, unref, builds, id);
        assert(r.applied.dom().contains(id));
    }
    assert forall|id: Seq<char>| #[trigger] a.desired.dom().contains(id) implies a.order.contains(id) by {
        assert(plan::occurs(endpoints, id));
        assert(plans.dom().contains(id));
    }
    lemma_proceed_keeps(begun, a);
    lemma_run_keeps(a, reconcile::planned(r, generation, submitted, endpoints, unref, builds), answers);
}

// ------------------------------------------------------------- termination --

/// Whether an answer is one to what is being waited for.
pub open spec fn fits<V>(stage: ApplyStageView, answer: AnswerView<V>) -> bool {
    match (stage, answer) {
        (ApplyStageView::Polling, AnswerView::Polled(_)) => true,
        (ApplyStageView::Starting(_), AnswerView::Started(_)) => true,
        (ApplyStageView::Rebuilding, AnswerView::Built(_)) => true,
        (ApplyStageView::Repolling(_), AnswerView::Polled(_)) => true,
        (ApplyStageView::Restarting(_), AnswerView::Started(_)) => true,
        _ => false,
    }
}

/// Waits that may be left for one endpoint.
pub open spec fn waits_left(stage: ApplyStageView) -> nat {
    match stage {
        ApplyStageView::Polling => 12,
        ApplyStageView::Starting(op) => 7 + manager_laws::starts_left(op),
        ApplyStageView::Rebuilding => 6,
        ApplyStageView::Repolling(_) => 5,
        ApplyStageView::Restarting(op) => manager_laws::starts_left(op),
    }
}

/// Whether a step got closer to the end than a wait at `index` with `left` waits
/// to go.
pub open spec fn closer<V>(x: StepView<V>, index: int, left: nat) -> bool {
    match x.next {
        StepNext::More(PendingView::Applying(b)) => b.index > index || b.index == index && waits_left(b.stage) < left,
        StepNext::Applied(_) => true,
        _ => false,
    }
}

proof fn lemma_proceed_closer<V>(r: ReconcilerView<V>, a: ApplyingView<V>, index: int)
    requires
        index < a.index <= a.order.len(),
        0 <= index,
    ensures
        closer(reconcile::proceed(r, a), index, 0),
{
    run_laws::lemma_skip(r.manager, r.applied, a);
}

proof fn lemma_given_up_closer<V>(r: ReconcilerView<V>, a: ApplyingView<V>)
    requires
        0 <= a.index < a.order.len(),
    ensures
        closer(reconcile::given_up(r, a), a.index, 0),
{
    let id = reconcile::current(a);
    let desired = if reconcile::is_served(r.manager, id) {
        if r.applied.dom().contains(id) {
            a.desired.insert(id, r.applied[id])
        } else {
            a.desired
        }
    } else {
        a.desired.remove(id)
    };
    lemma_proceed_closer(r, ApplyingView { index: a.index + 1, desired, ..a }, a.index);
}

proof fn lemma_progress_closer<V>(r: ReconcilerView<V>, a: ApplyingView<V>, p: Progress, left: nat)
    requires
        0 <= a.index < a.order.len(),
        p.next matches NextView::More(op) ==> manager_laws::starts_left(op) < left,
    ensures
        closer(reconcile::applying_progress(r, a, p), a.index, left + 7),
        closer(reconcile::restoring_progress(r, a, p), a.index, left),
{
    let n = ReconcilerView { manager: p.manager, ..r };
    if let NextView::Done(outcomes) = p.next {
        let id = reconcile::current(a);
        let b = ApplyingView { results: a.results + reconcile::outcome_results(id, outcomes), ..a };
        lemma_given_up_closer(n, a);
        lemma_given_up_closer(n, b);
        lemma_given_up_closer(n, ApplyingView { results: reconcile::noted(a.results, id, outcomes), ..a });
        lemma_proceed_closer(n, ApplyingView { index: b.index + 1, ..b }, a.index);
    }
}

proof fn lemma_begun_closer<V>(r: ReconcilerView<V>, b: ApplyingView<V>, built: EndpointSpecView, finished: Seq<TaskId>)
    requires
        0 <= b.index < b.order.len(),
    ensures
        ({
            let p = manager::apply_begun(r.manager, reconcile::current(b), b.generation, built, finished);
            &&& closer(reconcile::applying_progress(r, b, p), b.index, 12)
            &&& closer(reconcile::restoring_progress(r, b, p), b.index, 5)
        }),
{
    let p = manager::apply_begun(r.manager, reconcile::current(b), b.generation, built, finished);
    lemma_starts(p);
    lemma_progress_closer(r, b, p, 5);
}

proof fn lemma_starts(p: Progress)
    ensures
        p.next matches NextView::More(op) ==> manager_laws::starts_left(op) < 5,
{
}

/// A submission ends: each fitting answer leads to the answer of the submission,
/// to a later endpoint, or closer to the end of this one.
pub proof fn law_submission_ends<V>(r: ReconcilerView<V>, a: ApplyingView<V>, answer: AnswerView<V>)
    requires
        run_laws::coherent(r, a),
        fits(a.stage, answer),
    ensures
        closer(reconcile::applying_resumed(r, a, answer), a.index, waits_left(a.stage)),
{
    let id = reconcile::current(a);
    let b = ApplyingView { stage: ApplyStageView::Polling, ..a };
    match (a.stage, answer) {
        (ApplyStageView::Polling, AnswerView::Polled(finished)) => {
            match a.plans[id] {
                PlanView::Start { built } => lemma_begun_closer(r, b, built, finished),
                PlanView::Replace { built } => lemma_begun_closer(r, b, built, finished),
                PlanView::Delete => {
                    let y = manager::removed(r.manager, id, finished);
                    lemma_proceed_closer(
                        ReconcilerView { manager: y.manager, ..r },
                        ApplyingView {
                            index: a.index + 1,
                            desired: a.desired.remove(id),
                            results: a.results + reconcile::outcome_results(id, y.outcomes),
                            ..b
                        },
                        a.index,
                    );
                },
                _ => {},
            }
        },
        (ApplyStageView::Starting(op), AnswerView::Started(started)) => {
            manager_laws::law_apply_ends(r.manager, op, started);
            lemma_progress_closer(
                r,
                b,
                manager::apply_resumed(r.manager, op, started),
                manager_laws::starts_left(op),
            );
        },
        (ApplyStageView::Rebuilding, AnswerView::Built(builds)) => lemma_given_up_closer(r, b),
        (ApplyStageView::Repolling(built), AnswerView::Polled(finished)) => lemma_begun_closer(r, b, built, finished),
        (ApplyStageView::Restarting(op), AnswerView::Started(started)) => {
            manager_laws::law_apply_ends(r.manager, op, started);
            lemma_progress_closer(
                r,
                b,
                manager::apply_resumed(r.manager, op, started),
                manager_laws::starts_left(op),
            );
        },
        _ => {},
    }
}

/// The generation of an applied submission is the active one, and it is partial
/// exactly when some endpoint failed.
pub proof fn law_applied_generation_is_active<V>(r: ReconcilerView<V>, a: ApplyingView<V>)
    ensures
        ({
            let x = reconcile::concluded(r, a);
            &&& x.next matches StepNext::Applied(response) && {
                &&& response.generation == a.generation
                &&& response.results == a.results
                &&& (response.state == GenerationState::PartiallyApplied <==> exists|i: int|
                    0 <= i < a.results.len() && (#[trigger] a.results[i]).action == SlotAction::Failed)
                &&& x.reconciler.last == Some(response)
            }
            &&& x.reconciler.active == Some(a.generation)
            &&& x.reconciler.partial == (exists|i: int|
                0 <= i < a.results.len() && (#[trigger] a.results[i]).action == SlotAction::Failed)
            &&& x.reconciler.content == Some(a.submitted)
            &&& reconcile::snapshot_of(x.reconciler).generation == a.generation
            &&& reconcile::snapshot_of(x.reconciler).endpoints == a.desired
        }),
{
}

} // verus!
