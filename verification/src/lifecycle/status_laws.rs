//! What the status of a manager shows.

use vstd::prelude::*;

use crate::lifecycle::manager;
use crate::lifecycle::manager::{
    Action, ApplyOpView, Bound, Draining, EntryView, ManagerView, NextView, Progress, Route, SlotView, StageView,
    TaskReport,
};
use crate::lifecycle::manager_laws;
use crate::lifecycle::plan;
use crate::lifecycle::plan::{HandoverView, PlanView};
use crate::lifecycle::reconcile;
use crate::lifecycle::reconcile::{
    AnswerView, ApplyStageView, ApplyingView, PendingView, ReconcilerView, StepNext, StepView,
};
use crate::lifecycle::run_laws;
use crate::lifecycle::types::{
    EndpointSpecView, EndpointStatus, Generation, Proto, SlotOutcomeView, SlotStateView, SlotStatusView, TaskId,
};

verus! {

/// A slot with a listener shows it as running, or as failed while what was there
/// before goes on.
pub open spec fn shown(m: ManagerView) -> bool {
    forall|id: Seq<char>, proto: Proto|
        #![trigger m.slot(id, proto)]
        m.slot(id, proto) matches Some(s) ==> s.active is Some ==> s.state is Running || s.state is Failed
}

/// Every id has a slot, but for one that is being applied.
pub open spec fn filled_but(m: ManagerView, id: Option<Seq<char>>) -> bool {
    forall|k: Seq<char>|
        #[trigger] m.entries.dom().contains(k) && Some(k) != id ==> m.entries[k].tcp is Some || m.entries[k].udp is Some
}

/// What holds of a manager between its operations.
pub open spec fn settled(m: ManagerView) -> bool {
    &&& m.entries.dom().finite()
    &&& manager_laws::honest(m)
    &&& shown(m)
    &&& filled_but(m, None)
}

/// What holds while an operation waits.
pub open spec fn settling(m: ManagerView, op: ApplyOpView) -> bool {
    &&& m.entries.dom().finite()
    &&& m.entries.dom().contains(op.id)
    &&& manager_laws::honest_within(m, op)
    &&& shown(m)
    &&& filled_but(m, Some(op.id))
}

pub open spec fn progress_settles(p: Progress) -> bool {
    match p.next {
        NextView::More(op) => settling(p.manager, op),
        NextView::Done(_) => settled(p.manager),
    }
}

proof fn lemma_with_slot(m: ManagerView, id: Seq<char>, proto: Proto, s: Option<SlotView>)
    requires
        m.entries.dom().contains(id),
        m.entries.dom().finite(),
        shown(m),
        filled_but(m, Some(id)),
        s matches Some(s) ==> s.active is Some ==> s.state is Running || s.state is Failed,
    ensures
        ({
            let n = m.with_slot(id, proto, s);
            &&& n.entries.dom().contains(id)
            &&& n.entries.dom().finite()
            &&& shown(n)
            &&& filled_but(n, Some(id))
        }),
{
    let n = m.with_slot(id, proto, s);
    assert(n.entries.dom() =~= m.entries.dom());
    assert forall|k: Seq<char>, q: Proto| #![trigger n.slot(k, q)] n.slot(k, q) matches Some(t) ==> t.active is Some
        ==> t.state is Running || t.state is Failed by {
        if !(k == id && q == proto) {
            assert(n.slot(k, q) == m.slot(k, q));
        }
    }
}

proof fn lemma_finish(m: ManagerView, op: ApplyOpView)
    requires
        m.entries.dom().finite(),
        shown(m),
        filled_but(m, Some(op.id)),
    ensures
        ({
            let n = manager::finish(m, op).manager;
            &&& n.entries.dom().finite()
            &&& shown(n)
            &&& filled_but(n, None)
        }),
{
    let n = manager::pruned(m, op.id);
    assert forall|k: Seq<char>, q: Proto| #![trigger n.slot(k, q)] n.slot(k, q) matches Some(t) ==> t.active is Some
        ==> t.state is Running || t.state is Failed by {
        assert(n.slot(k, q) == m.slot(k, q) || n.slot(k, q) is None);
    }
    assert forall|k: Seq<char>| #[trigger] n.entries.dom().contains(k) implies n.entries[k].tcp is Some
        || n.entries[k].udp is Some by {
        assert(m.entries.dom().contains(k));
    }
}

/// As [`progress_settles`], apart from what [`manager_laws`] says of `running`.
spec fn takes_shape(p: Progress) -> bool {
    &&& p.manager.entries.dom().finite()
    &&& shown(p.manager)
    &&& match p.next {
        NextView::More(op) => p.manager.entries.dom().contains(op.id) && filled_but(p.manager, Some(op.id)),
        NextView::Done(_) => filled_but(p.manager, None),
    }
}

spec fn in_shape(m: ManagerView, id: Seq<char>) -> bool {
    &&& m.entries.dom().finite()
    &&& m.entries.dom().contains(id)
    &&& shown(m)
    &&& filled_but(m, Some(id))
}

proof fn lemma_enter(m: ManagerView, op: ApplyOpView, proto: Proto)
    requires
        in_shape(m, op.id),
    ensures
        in_shape(manager::enter_slot(m, op, proto).manager, op.id),
        manager::enter_slot(m, op, proto).op.id == op.id,
{
    let slot = m.slot(op.id, proto);
    lemma_with_slot(m, op.id, proto, None);
    if slot is Some {
        lemma_with_slot(m, op.id, proto, Some(SlotView { state: SlotStateView::Running, ..slot->0 }));
        lemma_with_slot(m, op.id, proto, Some(SlotView { active: None, ..slot->0 }));
    }
}

proof fn lemma_run_after(m: ManagerView, op: ApplyOpView, proto: Proto)
    requires
        in_shape(m, op.id),
    ensures
        takes_shape(manager::run_after(m, op, proto)),
{
    lemma_enter(m, op, Proto::Udp);
    let t = manager::enter_slot(m, op, Proto::Udp);
    lemma_finish(m, op);
    lemma_finish(t.manager, t.op);
}

/// Learning which tasks have ended keeps a manager settled.
pub proof fn law_refresh_stays_settled(m: ManagerView, finished: Seq<TaskId>)
    requires
        settled(m),
    ensures
        settled(manager::refreshed(m, finished)),
{
    let n = manager::refreshed(m, finished);
    manager_laws::law_refresh_is_honest(m, finished);
    assert(n.entries.dom() =~= m.entries.dom());
    assert forall|k: Seq<char>, q: Proto| #![trigger n.slot(k, q)] n.slot(k, q) matches Some(t) ==> t.active is Some
        ==> t.state is Running || t.state is Failed by {
        assert(n.slot(k, q) == manager::refreshed_opt(m.slot(k, q), finished));
    }
    assert forall|k: Seq<char>| #[trigger] n.entries.dom().contains(k) implies n.entries[k].tcp is Some
        || n.entries[k].udp is Some by {
        assert(m.entries.dom().contains(k));
    }
}

/// Beginning to apply an endpoint keeps a manager settled, but for the endpoint
/// that it waits for.
pub proof fn law_apply_settles(
    m: ManagerView,
    id: Seq<char>,
    generation: Generation,
    spec: EndpointSpecView,
    finished: Seq<TaskId>,
)
    requires
        settled(m),
    ensures
        progress_settles(manager::apply_begun(m, id, generation, spec, finished)),
{
    let r = manager::refreshed(m, finished);
    law_refresh_stays_settled(m, finished);
    manager_laws::law_apply_is_honest(m, id, generation, spec, finished);
    if spec.tcp || spec.udp {
        let drain = match spec.drain {
            Some(d) => d,
            None => r.policy,
        };
        let op = ApplyOpView {
            id,
            generation,
            spec,
            drain,
            stage: StageView::Starting { proto: Proto::Tcp, route: Route::Fresh },
            outcomes: Seq::empty(),
        };
        let e = manager::enrolled(r, id, drain);
        assert(e.entries.dom() =~= r.entries.dom().insert(id));
        assert forall|k: Seq<char>, q: Proto| #![trigger e.slot(k, q)] e.slot(k, q) == r.slot(k, q) by {}
        lemma_enter(e, op, Proto::Tcp);
        let t = manager::enter_slot(e, op, Proto::Tcp);
        lemma_run_after(t.manager, t.op, Proto::Tcp);
    }
}

proof fn lemma_settle(
    m: ManagerView,
    op: ApplyOpView,
    proto: Proto,
    s: SlotView,
    o: SlotOutcomeView,
    actions: Seq<Action>,
)
    requires
        in_shape(m, op.id),
        s.active is Some ==> s.state is Running || s.state is Failed,
    ensures
        takes_shape(manager::settle(m, op, proto, s, o, actions)),
{
    lemma_with_slot(m, op.id, proto, Some(s));
    lemma_run_after(
        m.with_slot(op.id, proto, Some(s)),
        ApplyOpView { outcomes: op.outcomes.push(o), ..op },
        proto,
    );
}

/// Going on with an endpoint leads to a manager that is settled again.
pub proof fn law_resume_settles(m: ManagerView, op: ApplyOpView, started: Result<Bound, Seq<char>>)
    requires
        settling(m, op),
    ensures
        progress_settles(manager::apply_resumed(m, op, started)),
{
    let proto = manager_laws::busy_with(op);
    manager_laws::law_resume_is_honest(m, op, started);
    assert forall|s: SlotView, o: SlotOutcomeView, actions: Seq<Action>|
        (s.active is Some ==> s.state is Running || s.state is Failed) implies takes_shape(
        #[trigger] manager::settle(m, op, proto, s, o, actions),
    ) by {
        lemma_settle(m, op, proto, s, o, actions);
    }
    assert forall|o: SlotOutcomeView| takes_shape(
        #[trigger] manager::run_after(m, ApplyOpView { outcomes: op.outcomes.push(o), ..op }, proto),
    ) by {
        lemma_run_after(m, ApplyOpView { outcomes: op.outcomes.push(o), ..op }, proto);
    }
}

/// Removing an id and stopping to accept keep a manager settled.
pub proof fn law_release_stays_settled(m: ManagerView, id: Seq<char>, proto: Proto, finished: Seq<TaskId>)
    requires
        settled(m),
    ensures
        settled(manager::removed(m, id, finished).manager),
        settled(manager::accept_stopped(m, id, proto)),
{
    let r = manager::refreshed(m, finished);
    law_refresh_stays_settled(m, finished);
    manager_laws::law_release_is_honest(m, id, proto, finished);
    let x = manager::removed(m, id, finished).manager;
    assert forall|k: Seq<char>, q: Proto| #![trigger x.slot(k, q)] x.slot(k, q) matches Some(t) ==> t.active is Some
        ==> t.state is Running || t.state is Failed by {
        assert(x.slot(k, q) is Some ==> x.slot(k, q) == r.slot(k, q));
    }
    assert forall|k: Seq<char>| #[trigger] x.entries.dom().contains(k) implies x.entries[k].tcp is Some
        || x.entries[k].udp is Some by {
        assert(r.entries.dom().contains(k));
    }
    if m.active(id, proto) is Some {
        let a = m.active(id, proto)->0;
        let s = m.slot(id, proto)->0;
        let t = SlotView {
            state: SlotStateView::Draining,
            active: None,
            draining: s.draining.push(Draining { generation: a.generation, task: a.task }),
            ..s
        };
        lemma_with_slot(m, id, proto, Some(t));
    }
}

// ------------------------------------------------------------------- calls --

/// A call of the manager, with the answers to what it waits for.
pub enum Call {
    Apply {
        id: Seq<char>,
        generation: Generation,
        spec: EndpointSpecView,
        finished: Seq<TaskId>,
        answers: Seq<Result<Bound, Seq<char>>>,
    },
    Remove { id: Seq<char>, finished: Seq<TaskId> },
    StopAccept { id: Seq<char>, proto: Proto },
    Refresh { finished: Seq<TaskId> },
}

/// Go on with an operation until it is through or there are no more answers.
pub open spec fn carried_on(p: Progress, answers: Seq<Result<Bound, Seq<char>>>) -> Progress
    decreases answers.len(),
{
    match p.next {
        NextView::More(op) => if answers.len() == 0 {
            p
        } else {
            carried_on(manager::apply_resumed(p.manager, op, answers[0]), answers.drop_first())
        },
        NextView::Done(_) => p,
    }
}

/// The operation of a call that applies an endpoint.
pub open spec fn applied(
    m: ManagerView,
    id: Seq<char>,
    generation: Generation,
    spec: EndpointSpecView,
    finished: Seq<TaskId>,
    answers: Seq<Result<Bound, Seq<char>>>,
) -> Progress {
    carried_on(manager::apply_begun(m, id, generation, spec, finished), answers)
}

/// The state after a call.
pub open spec fn called(m: ManagerView, c: Call) -> ManagerView {
    match c {
        Call::Apply { id, generation, spec, finished, answers } => applied(
            m,
            id,
            generation,
            spec,
            finished,
            answers,
        ).manager,
        Call::Remove { id, finished } => manager::removed(m, id, finished).manager,
        Call::StopAccept { id, proto } => manager::accept_stopped(m, id, proto),
        Call::Refresh { finished } => manager::refreshed(m, finished),
    }
}

/// Whether a call was answered all it waits for.
pub open spec fn completed(m: ManagerView, c: Call) -> bool {
    c matches Call::Apply { id, generation, spec, finished, answers } ==> applied(
        m,
        id,
        generation,
        spec,
        finished,
        answers,
    ).next is Done
}

/// The state after the first `n` calls.
pub open spec fn after_calls(m: ManagerView, calls: Seq<Call>, n: int) -> ManagerView
    decreases n,
{
    if n <= 0 {
        m
    } else {
        called(after_calls(m, calls, n - 1), calls[n - 1])
    }
}

proof fn lemma_carried_on(p: Progress, answers: Seq<Result<Bound, Seq<char>>>)
    requires
        progress_settles(p),
    ensures
        progress_settles(carried_on(p, answers)),
    decreases answers.len(),
{
    if let NextView::More(op) = p.next {
        if answers.len() > 0 {
            law_resume_settles(p.manager, op, answers[0]);
            lemma_carried_on(manager::apply_resumed(p.manager, op, answers[0]), answers.drop_first());
        }
    }
}

/// Any sequence of completed calls leaves a manager settled that began with no
/// endpoint: no id is without a slot, what reports `running` has a listener, and
/// what has a listener reports `running` or `failed`.
pub proof fn law_calls_leave_a_manager_settled(m: ManagerView, calls: Seq<Call>, n: int)
    requires
        m.entries == Map::<Seq<char>, EntryView>::empty(),
        0 <= n <= calls.len(),
        forall|k: int| 0 <= k < n ==> completed(#[trigger] after_calls(m, calls, k), calls[k]),
    ensures
        settled(after_calls(m, calls, n)),
    decreases n,
{
    if n > 0 {
        law_calls_leave_a_manager_settled(m, calls, n - 1);
        let before = after_calls(m, calls, n - 1);
        match calls[n - 1] {
            Call::Apply { id, generation, spec, finished, answers } => {
                law_apply_settles(before, id, generation, spec, finished);
                lemma_carried_on(manager::apply_begun(before, id, generation, spec, finished), answers);
                assert(completed(after_calls(m, calls, n - 1), calls[n - 1]));
            },
            Call::Remove { id, finished } => law_release_stays_settled(before, id, Proto::Tcp, finished),
            Call::StopAccept { id, proto } => law_release_stays_settled(before, id, proto, Seq::empty()),
            Call::Refresh { finished } => law_refresh_stays_settled(before, finished),
        }
    }
}

// ------------------------------------------------------------------ status --

/// What is shown of a slot.
pub open spec fn slot_in_order(s: SlotStatusView) -> bool {
    &&& s.state is Running ==> s.laddr is Some
    &&& s.laddr is Some ==> s.state is Running || s.state is Failed
    &&& s.laddr is None ==> s.connections == 0
}

/// The status of a settled manager lists its ids in order, each with its slots,
/// tcp before udp. A slot that is running has a listen address; one that has a
/// listen address is running or failed; one that has none has no connections. A
/// serving task that ended on its own shows as failed, and only cohorts whose
/// drain goes on are listed.
pub proof fn law_status_is_in_order(
    m: ManagerView,
    finished: Seq<TaskId>,
    reports: Seq<TaskReport>,
    r: Seq<EndpointStatus>,
    j: int,
)
    requires
        settled(m),
        manager::status_lists(r, manager::refreshed(m, finished), reports),
        0 <= j < r.len(),
    ensures
        crate::idmap::strictly_sorted(Seq::new(r.len(), |i: int| r[i]@.id)),
        ({
            let slots = r[j]@.slots;
            let id = r[j]@.id;
            &&& m.entries.dom().contains(id)
            &&& slots.len() == 1 || (slots.len() == 2 && slots[0].proto == Proto::Tcp && slots[1].proto == Proto::Udp)
            &&& forall|k: int| 0 <= k < slots.len() ==> slot_in_order(#[trigger] slots[k])
            &&& forall|k: int|
                0 <= k < slots.len() ==> {
                    let s = #[trigger] slots[k];
                    let before = m.slot(id, s.proto);
                    &&& before is Some
                    &&& m.active(id, s.proto) is Some && finished.contains(m.active(id, s.proto)->0.task) ==> s.state
                        == SlotStateView::Failed("serving task exited unexpectedly"@) && s.laddr is None
                    &&& s.draining == Seq::new(
                        before->0.draining.filter(|d: Draining| !finished.contains(d.task)).len(),
                        |i: int|
                            manager::draining_status(
                                before->0.draining.filter(|d: Draining| !finished.contains(d.task))[i],
                                reports,
                            ),
                    )
                }
        }),
{
    let n = manager::refreshed(m, finished);
    let ids = Seq::new(r.len(), |i: int| r[i]@.id);
    law_refresh_stays_settled(m, finished);
    crate::idmap::lemma_finite_in_order(n.entries.dom());
    assert(ids.contains(ids[j]));
    let id = r[j]@.id;
    assert(n.entries.dom().contains(id));
    let e = n.entries[id];
    assert(n.slot(id, Proto::Tcp) == e.tcp);
    assert(n.slot(id, Proto::Udp) == e.udp);
    assert(e.tcp == manager::refreshed_opt(m.slot(id, Proto::Tcp), finished));
    assert(e.udp == manager::refreshed_opt(m.slot(id, Proto::Udp), finished));
    assert(r[j]@ == manager::endpoint_status(id, e, reports));
}

// -------------------------------------------------------------- submissions --

/// What holds of a generation being applied.
pub open spec fn standing<V>(r: ReconcilerView<V>, a: ApplyingView<V>) -> bool {
    match run_laws::op_of(a.stage) {
        Some(op) => settling(r.manager, op),
        None => settled(r.manager),
    }
}

/// What a step leads to.
pub open spec fn step_settles<V>(x: StepView<V>) -> bool {
    match x.next {
        StepNext::More(PendingView::Applying(b)) => standing(x.reconciler, b),
        _ => settled(x.reconciler.manager),
    }
}

proof fn lemma_progress_step<V>(r: ReconcilerView<V>, a: ApplyingView<V>, p: Progress)
    requires
        progress_settles(p),
    ensures
        step_settles(reconcile::applying_progress(r, a, p)),
        step_settles(reconcile::restoring_progress(r, a, p)),
{
}

/// A step of a submission keeps the manager settled, but for the endpoint that
/// is being applied; once the submission is through it is settled altogether.
pub proof fn law_step_settles<V>(r: ReconcilerView<V>, a: ApplyingView<V>, answer: AnswerView<V>)
    requires
        standing(r, a),
    ensures
        step_settles(reconcile::applying_resumed(r, a, answer)),
{
    let id = reconcile::current(a);
    let b = ApplyingView { stage: ApplyStageView::Polling, ..a };
    match (a.stage, answer) {
        (ApplyStageView::Polling, AnswerView::Polled(finished)) => match a.plans[id] {
            PlanView::Start { built } => {
                law_apply_settles(r.manager, id, a.generation, built, finished);
                lemma_progress_step(r, b, manager::apply_begun(r.manager, id, a.generation, built, finished));
            },
            PlanView::Replace { built } => {
                law_apply_settles(r.manager, id, a.generation, built, finished);
                lemma_progress_step(r, b, manager::apply_begun(r.manager, id, a.generation, built, finished));
            },
            PlanView::Delete => law_release_stays_settled(r.manager, id, Proto::Tcp, finished),
            _ => {},
        },
        (ApplyStageView::Starting(op), AnswerView::Started(started)) => {
            law_resume_settles(r.manager, op, started);
            lemma_progress_step(r, b, manager::apply_resumed(r.manager, op, started));
        },
        (ApplyStageView::Repolling(built), AnswerView::Polled(finished)) => {
            law_apply_settles(r.manager, id, a.generation, built, finished);
            lemma_progress_step(r, b, manager::apply_begun(r.manager, id, a.generation, built, finished));
        },
        (ApplyStageView::Restarting(op), AnswerView::Started(started)) => {
            law_resume_settles(r.manager, op, started);
            lemma_progress_step(r, b, manager::apply_resumed(r.manager, op, started));
        },
        _ => {},
    }
}

proof fn lemma_released(m: ManagerView, hs: Seq<HandoverView>, n: int)
    requires
        settled(m),
    ensures
        settled(plan::released(m, hs, n).manager),
    decreases n,
{
    if n > 0 {
        lemma_released(m, hs, n - 1);
        let h = hs[n - 1];
        law_release_stays_settled(plan::released(m, hs, n - 1).manager, h.id, h.proto, Seq::empty());
    }
}

/// Making room for a generation keeps the manager settled.
pub proof fn law_handover_stays_settled(m: ManagerView, plans: Map<Seq<char>, PlanView>)
    requires
        settled(m),
    ensures
        settled(plan::all_released(m, plans).manager),
{
    let order = crate::idmap::in_order(plans.dom());
    let hs = plan::handovers(m, plans, order, order.len() as int);
    lemma_released(m, hs, hs.len() as int);
}

} // verus!
