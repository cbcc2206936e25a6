//! No listener is ever lost: whatever is no longer served was stopped, or had
//! ended on its own.

use vstd::prelude::*;

use crate::lifecycle::manager;
use crate::lifecycle::manager::{
    Action, Active, ApplyOpView, Bound, ManagerView, NextView, Progress, Route, SlotView, StageView,
};
use crate::lifecycle::plan;
use crate::lifecycle::plan::{HandoverView, PlanView};
use crate::lifecycle::reconcile;
use crate::lifecycle::reconcile::{
    AnswerView, ApplyStageView, ApplyingView, PendingView, ReconcilerView, StepNext, StepView,
};
use crate::lifecycle::run_laws;
use crate::lifecycle::types::{EndpointSpecView, Generation, Proto, SlotOutcomeView, SlotStateView, TaskId};

verus! {

/// A listener of `m` is still there in `n`, or was stopped, or had ended.
pub open spec fn kept_or_stopped(
    m: ManagerView,
    n: ManagerView,
    actions: Seq<Action>,
    finished: Seq<TaskId>,
    id: Seq<char>,
    proto: Proto,
) -> bool {
    m.active(id, proto) matches Some(a) ==> {
        ||| n.active(id, proto) == Some(a)
        ||| actions.contains(Action::Stop { task: a.task })
        ||| finished.contains(a.task)
    }
}

/// Every listener of `m` is accounted for.
pub open spec fn accounted(m: ManagerView, n: ManagerView, actions: Seq<Action>, finished: Seq<TaskId>) -> bool {
    forall|id: Seq<char>, proto: Proto|
        #![trigger m.active(id, proto)]
        kept_or_stopped(m, n, actions, finished, id, proto)
}

/// The slot an operation waits for is as the operation left it: it runs nothing,
/// or what the operation is about to supersede.
pub open spec fn fits(m: ManagerView, op: ApplyOpView) -> bool {
    &&& m.entries.dom().contains(op.id)
    &&& match op.stage {
        StageView::Starting { proto, route: Route::Move { former } } => m.active(op.id, proto) == Some(former),
        StageView::Starting { proto, .. } => m.active(op.id, proto) is None,
        StageView::Restarting { proto, .. } => m.active(op.id, proto) is None,
    }
}

pub open spec fn progress_fits(p: Progress) -> bool {
    p.next matches NextView::More(op) ==> fits(p.manager, op)
}

proof fn lemma_chain(
    a: ManagerView,
    b: ManagerView,
    c: ManagerView,
    first: Seq<Action>,
    second: Seq<Action>,
    finished: Seq<TaskId>,
)
    requires
        accounted(a, b, first, finished),
        accounted(b, c, second, Seq::empty()),
    ensures
        accounted(a, c, first + second, finished),
{
    assert forall|id: Seq<char>, proto: Proto| #![trigger a.active(id, proto)] kept_or_stopped(
        a,
        c,
        first + second,
        finished,
        id,
        proto,
    ) by {
        if let Some(x) = a.active(id, proto) {
            let stop = Action::Stop { task: x.task };
            assert(kept_or_stopped(a, b, first, finished, id, proto));
            if first.contains(stop) {
                let i = first.index_of(stop);
                assert((first + second)[i] == stop);
            } else if b.active(id, proto) == Some(x) {
                assert(kept_or_stopped(b, c, second, Seq::empty(), id, proto));
                if second.contains(stop) {
                    let i = second.index_of(stop);
                    assert((first + second)[first.len() + i] == stop);
                }
            }
        }
    }
}

proof fn lemma_nothing_lost(m: ManagerView, finished: Seq<TaskId>)
    ensures
        accounted(m, m, Seq::empty(), finished),
{
}

proof fn lemma_slots(m: ManagerView, id: Seq<char>, proto: Proto, s: Option<SlotView>)
    requires
        m.entries.dom().contains(id),
    ensures
        forall|k: Seq<char>, q: Proto|
            #![trigger m.with_slot(id, proto, s).active(k, q)]
            m.with_slot(id, proto, s).active(k, q) == if k == id && q == proto {
                match s {
                    Some(s) => s.active,
                    None => None,
                }
            } else {
                m.active(k, q)
            },
        m.with_slot(id, proto, s).entries.dom().contains(id),
{
}

proof fn lemma_enter(m: ManagerView, op: ApplyOpView, proto: Proto)
    requires
        m.entries.dom().contains(op.id),
    ensures
        ({
            let t = manager::enter_slot(m, op, proto);
            &&& accounted(m, t.manager, t.actions, Seq::empty())
            &&& t.manager.entries.dom().contains(op.id)
            &&& t.op.id == op.id
            &&& t.waiting ==> fits(t.manager, t.op)
        }),
{
    let t = manager::enter_slot(m, op, proto);
    let slot = m.slot(op.id, proto);
    lemma_slots(m, op.id, proto, None);
    if slot is Some {
        lemma_slots(m, op.id, proto, Some(SlotView { state: SlotStateView::Running, ..slot->0 }));
        lemma_slots(m, op.id, proto, Some(SlotView { active: None, ..slot->0 }));
    }
    assert forall|k: Seq<char>, q: Proto| #![trigger m.active(k, q)] kept_or_stopped(
        m,
        t.manager,
        t.actions,
        Seq::empty(),
        k,
        q,
    ) by {
        if let Some(a) = m.active(k, q) {
            if k == op.id && q == proto {
                if t.manager.active(k, q) != Some(a) {
                    assert(t.actions[0] == Action::Stop { task: a.task });
                }
            }
        }
    }
}

proof fn lemma_finish(m: ManagerView, op: ApplyOpView)
    requires
        m.entries.dom().contains(op.id),
    ensures
        accounted(m, manager::finish(m, op).manager, Seq::empty(), Seq::empty()),
{
    let n = manager::pruned(m, op.id);
    assert forall|k: Seq<char>, q: Proto| #![trigger m.active(k, q)] kept_or_stopped(
        m,
        n,
        Seq::empty(),
        Seq::empty(),
        k,
        q,
    ) by {
        assert(m.entries[op.id].slot(q) == m.slot(op.id, q));
    }
}

proof fn lemma_run_udp(m: ManagerView, op: ApplyOpView)
    requires
        m.entries.dom().contains(op.id),
    ensures
        ({
            let p = manager::run_udp(m, op);
            accounted(m, p.manager, p.actions, Seq::empty()) && progress_fits(p)
        }),
{
    lemma_enter(m, op, Proto::Udp);
    let t = manager::enter_slot(m, op, Proto::Udp);
    if !t.waiting {
        lemma_finish(t.manager, t.op);
        lemma_chain(
            m,
            t.manager,
            manager::finish(t.manager, t.op).manager,
            t.actions,
            Seq::empty(),
            Seq::empty(),
        );
    }
}

proof fn lemma_run_after(m: ManagerView, op: ApplyOpView, proto: Proto)
    requires
        m.entries.dom().contains(op.id),
    ensures
        ({
            let p = manager::run_after(m, op, proto);
            accounted(m, p.manager, p.actions, Seq::empty()) && progress_fits(p)
        }),
{
    match proto {
        Proto::Tcp => lemma_run_udp(m, op),
        Proto::Udp => lemma_finish(m, op),
    }
}

spec fn slot_kept_or_stopped(active: Option<Active>, s: SlotView, actions: Seq<Action>) -> bool {
    active matches Some(a) ==> s.active == Some(a) || actions.contains(Action::Stop { task: a.task })
}

spec fn progress_accounted(m: ManagerView, p: Progress) -> bool {
    accounted(m, p.manager, p.actions, Seq::empty()) && progress_fits(p)
}

proof fn lemma_settle(
    m: ManagerView,
    op: ApplyOpView,
    proto: Proto,
    s: SlotView,
    o: SlotOutcomeView,
    actions: Seq<Action>,
)
    requires
        m.entries.dom().contains(op.id),
        slot_kept_or_stopped(m.active(op.id, proto), s, actions),
    ensures
        progress_accounted(m, manager::settle(m, op, proto, s, o, actions)),
{
    lemma_slots(m, op.id, proto, Some(s));
    let n = m.with_slot(op.id, proto, Some(s));
    let next = ApplyOpView { outcomes: op.outcomes.push(o), ..op };
    assert(accounted(m, n, actions, Seq::empty()));
    lemma_run_after(n, next, proto);
    let x = manager::run_after(n, next, proto);
    lemma_chain(m, n, x.manager, actions, x.actions, Seq::empty());
}

/// Learning which tasks have ended loses no listener but those.
pub proof fn law_refresh_loses_only_what_ended(m: ManagerView, finished: Seq<TaskId>)
    ensures
        accounted(m, manager::refreshed(m, finished), Seq::empty(), finished),
{
    let n = manager::refreshed(m, finished);
    assert forall|k: Seq<char>, q: Proto| #![trigger m.active(k, q)] kept_or_stopped(
        m,
        n,
        Seq::empty(),
        finished,
        k,
        q,
    ) by {
        if m.entries.dom().contains(k) {
            assert(n.slot(k, q) == manager::refreshed_opt(m.slot(k, q), finished));
        }
    }
}

/// A serving task that ended on its own turns its slot failed, and is no longer
/// served.
pub proof fn law_ended_task_fails_its_slot(
    m: ManagerView,
    finished: Seq<TaskId>,
    id: Seq<char>,
    proto: Proto,
)
    requires
        m.active(id, proto) is Some,
        finished.contains(m.active(id, proto)->0.task),
    ensures
        manager::refreshed(m, finished).active(id, proto) is None,
        manager::refreshed(m, finished).slot(id, proto)->0.state == SlotStateView::Failed(
            "serving task exited unexpectedly"@,
        ),
{
    assert(manager::refreshed(m, finished).slot(id, proto) == manager::refreshed_opt(m.slot(id, proto), finished));
}

/// A superseded cohort is listed until its drain has ended, and no longer.
pub proof fn law_drained_cohort_disappears(
    m: ManagerView,
    finished: Seq<TaskId>,
    id: Seq<char>,
    proto: Proto,
    d: manager::Draining,
)
    requires
        m.slot(id, proto) is Some,
    ensures
        manager::refreshed(m, finished).slot(id, proto)->0.draining.contains(d) <==> m.slot(
            id,
            proto,
        )->0.draining.contains(d) && !finished.contains(d.task),
{
    let s = m.slot(id, proto)->0;
    let keep = |x: manager::Draining| !finished.contains(x.task);
    assert(manager::refreshed(m, finished).slot(id, proto) == manager::refreshed_opt(Some(s), finished));
    assert(manager::refreshed_slot(s, finished).draining == s.draining.filter(keep));
    broadcast use vstd::seq_lib::group_filter_ensures;
    if s.draining.contains(d) && !finished.contains(d.task) {
        let i = s.draining.index_of(d);
        assert(s.draining.filter(keep).contains(s.draining[i]));
    }
    if s.draining.filter(keep).contains(d) {
        let i = s.draining.filter(keep).index_of(d);
        assert(keep(s.draining.filter(keep)[i]));
        s.draining.lemma_filter_contains_rev(keep, d);
    }
}

/// Beginning to apply an endpoint loses no listener.
pub proof fn law_begun_loses_no_listener(
    m: ManagerView,
    id: Seq<char>,
    generation: Generation,
    spec: EndpointSpecView,
    finished: Seq<TaskId>,
)
    ensures
        ({
            let p = manager::apply_begun(m, id, generation, spec, finished);
            accounted(m, p.manager, p.actions, finished) && progress_fits(p)
        }),
{
    let r = manager::refreshed(m, finished);
    law_refresh_loses_only_what_ended(m, finished);
    if spec.tcp || spec.udp {
        let drain = match spec.drain {
            Some(d) => d,
            None => r.policy,
        };
        let op = ApplyOpView {
            id,
            generation,
            spec,
            drain,
            stage: StageView::Starting { proto: Proto::Tcp, route: Route::Fresh },
            outcomes: Seq::empty(),
        };
        let e = manager::enrolled(r, id, drain);
        assert forall|k: Seq<char>, q: Proto| #![trigger r.active(k, q)] kept_or_stopped(
            r,
            e,
            Seq::empty(),
            Seq::empty(),
            k,
            q,
        ) by {
            assert(e.active(k, q) == r.active(k, q));
        }
        let none = Seq::<Action>::empty();
        lemma_chain(m, r, e, none, none, finished);
        assert(none + none =~= none);
        lemma_enter(e, op, Proto::Tcp);
        let t = manager::enter_slot(e, op, Proto::Tcp);
        lemma_chain(m, e, t.manager, none, t.actions, finished);
        assert(none + t.actions =~= t.actions);
        if !t.waiting {
            lemma_run_udp(t.manager, t.op);
            let p = manager::run_udp(t.manager, t.op);
            lemma_chain(m, t.manager, p.manager, t.actions, p.actions, finished);
        }
    }
}

/// Going on with an endpoint loses no listener.
pub proof fn law_resumed_loses_no_listener(m: ManagerView, op: ApplyOpView, started: Result<Bound, Seq<char>>)
    requires
        fits(m, op),
    ensures
        ({
            let p = manager::apply_resumed(m, op, started);
            accounted(m, p.manager, p.actions, Seq::empty()) && progress_fits(p)
        }),
{
    let p = manager::apply_resumed(m, op, started);
    let proto = match op.stage {
        StageView::Starting { proto, .. } => proto,
        StageView::Restarting { proto, .. } => proto,
    };
    assert forall|s: SlotView, o: SlotOutcomeView, actions: Seq<Action>|
        slot_kept_or_stopped(m.active(op.id, proto), s, actions) implies progress_accounted(
        m,
        #[trigger] manager::settle(m, op, proto, s, o, actions),
    ) by {
        lemma_settle(m, op, proto, s, o, actions);
    }
    lemma_nothing_lost(m, Seq::empty());
    if let StageView::Starting { route: Route::Move { former }, .. } = op.stage {
        let actions = manager::release_actions(
            Some(former),
            crate::lifecycle::types::replaced_deadline(op.drain, proto),
        );
        assert(actions[0] == Action::Stop { task: former.task });
    }
}

/// Removing an id loses no listener: what it served is stopped.
pub proof fn law_removed_loses_no_listener(m: ManagerView, id: Seq<char>, finished: Seq<TaskId>)
    ensures
        accounted(m, manager::removed(m, id, finished).manager, manager::removed(m, id, finished).actions, finished),
{
    let r = manager::refreshed(m, finished);
    let x = manager::removed(m, id, finished);
    law_refresh_loses_only_what_ended(m, finished);
    if r.entries.dom().contains(id) {
        let e = r.entries[id];
        let tcp = manager::slot_release(e.tcp, e.drain.on_delete);
        let udp = manager::slot_release(e.udp, e.drain.on_delete);
        assert forall|k: Seq<char>, q: Proto| #![trigger r.active(k, q)] kept_or_stopped(
            r,
            x.manager,
            x.actions,
            Seq::empty(),
            k,
            q,
        ) by {
            if let Some(a) = r.active(k, q) {
                if k == id {
                    match q {
                        Proto::Tcp => {
                            assert((tcp + udp)[0] == Action::Stop { task: a.task });
                        },
                        Proto::Udp => {
                            assert((tcp + udp)[tcp.len() as int] == Action::Stop { task: a.task });
                        },
                    }
                }
            }
        }
    } else {
        lemma_nothing_lost(r, Seq::empty());
    }
    let none = Seq::<Action>::empty();
    lemma_chain(m, r, x.manager, none, x.actions, finished);
    assert(none + x.actions =~= x.actions);
}

proof fn lemma_released(m: ManagerView, hs: Seq<HandoverView>, n: int)
    ensures
        accounted(m, plan::released(m, hs, n).manager, plan::released(m, hs, n).actions, Seq::empty()),
    decreases n,
{
    if n <= 0 {
        lemma_nothing_lost(m, Seq::empty());
    } else {
        lemma_released(m, hs, n - 1);
        let before = plan::released(m, hs, n - 1);
        let x = plan::released(m, hs, n);
        let h = hs[n - 1];
        let b = before.manager;
        if let Some(a) = b.active(h.id, h.proto) {
            let actions = manager::release_actions(Some(a), h.deadline);
            assert(actions[0] == Action::Stop { task: a.task });
            let s = b.slot(h.id, h.proto)->0;
            lemma_slots(
                b,
                h.id,
                h.proto,
                Some(
                    SlotView {
                        state: SlotStateView::Draining,
                        active: None,
                        draining: s.draining.push(manager::Draining { generation: a.generation, task: a.task }),
                        ..s
                    },
                ),
            );
            assert(accounted(b, x.manager, actions, Seq::empty()));
            lemma_chain(m, b, x.manager, before.actions, actions, Seq::empty());
        }
    }
}

/// Making room for a generation loses no listener: what is handed over is
/// stopped.
pub proof fn law_handover_loses_no_listener(m: ManagerView, plans: Map<Seq<char>, PlanView>)
    ensures
        accounted(m, plan::all_released(m, plans).manager, plan::all_released(m, plans).actions, Seq::empty()),
{
    let order = crate::idmap::in_order(plans.dom());
    let hs = plan::handovers(m, plans, order, order.len() as int);
    lemma_released(m, hs, hs.len() as int);
}

/// What a generation being applied waits for is as it left it.
pub open spec fn stage_fits<V>(r: ReconcilerView<V>, a: ApplyingView<V>) -> bool {
    run_laws::op_of(a.stage) matches Some(op) ==> fits(r.manager, op)
}

/// The tasks an answer says have ended.
pub open spec fn ended<V>(answer: AnswerView<V>) -> Seq<TaskId> {
    match answer {
        AnswerView::Polled(finished) => finished,
        _ => Seq::empty(),
    }
}

pub open spec fn step_fits<V>(x: StepView<V>) -> bool {
    x.next matches StepNext::More(PendingView::Applying(b)) ==> stage_fits(x.reconciler, b)
}

proof fn lemma_progress_quiet<V>(r: ReconcilerView<V>, a: ApplyingView<V>, p: Progress)
    requires
        progress_fits(p),
    ensures
        reconcile::applying_progress(r, a, p).reconciler.manager == p.manager,
        reconcile::applying_progress(r, a, p).actions == p.actions,
        step_fits(reconcile::applying_progress(r, a, p)),
        reconcile::restoring_progress(r, a, p).reconciler.manager == p.manager,
        reconcile::restoring_progress(r, a, p).actions == p.actions,
        step_fits(reconcile::restoring_progress(r, a, p)),
{
    assert(p.actions + Seq::<Action>::empty() =~= p.actions);
}

/// No step of a generation being applied loses a listener: what it served before
/// the step it serves after it, unless the step stopped it or learnt that it had
/// ended.
pub proof fn law_step_loses_no_listener<V>(r: ReconcilerView<V>, a: ApplyingView<V>, answer: AnswerView<V>)
    requires
        stage_fits(r, a),
    ensures
        ({
            let x = reconcile::applying_resumed(r, a, answer);
            &&& accounted(r.manager, x.reconciler.manager, x.actions, ended(answer))
            &&& step_fits(x)
        }),
{
    let id = reconcile::current(a);
    let b = ApplyingView { stage: ApplyStageView::Polling, ..a };
    lemma_nothing_lost(r.manager, ended(answer));
    match (a.stage, answer) {
        (ApplyStageView::Polling, AnswerView::Polled(finished)) => match a.plans[id] {
            PlanView::Start { built } => {
                law_begun_loses_no_listener(r.manager, id, a.generation, built, finished);
                lemma_progress_quiet(r, b, manager::apply_begun(r.manager, id, a.generation, built, finished));
            },
            PlanView::Replace { built } => {
                law_begun_loses_no_listener(r.manager, id, a.generation, built, finished);
                lemma_progress_quiet(r, b, manager::apply_begun(r.manager, id, a.generation, built, finished));
            },
            PlanView::Delete => {
                law_removed_loses_no_listener(r.manager, id, finished);
                let x = manager::removed(r.manager, id, finished);
                assert(x.actions + Seq::<Action>::empty() =~= x.actions);
            },
            _ => {},
        },
        (ApplyStageView::Starting(op), AnswerView::Started(started)) => {
            law_resumed_loses_no_listener(r.manager, op, started);
            lemma_progress_quiet(r, b, manager::apply_resumed(r.manager, op, started));
        },
        (ApplyStageView::Repolling(built), AnswerView::Polled(finished)) => {
            law_begun_loses_no_listener(r.manager, id, a.generation, built, finished);
            lemma_progress_quiet(r, b, manager::apply_begun(r.manager, id, a.generation, built, finished));
        },
        (ApplyStageView::Restarting(op), AnswerView::Started(started)) => {
            law_resumed_loses_no_listener(r.manager, op, started);
            lemma_progress_quiet(r, b, manager::apply_resumed(r.manager, op, started));
        },
        _ => {},
    }
}

} // verus!
