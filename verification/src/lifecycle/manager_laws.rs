//! What holds of the endpoint state machine whatever it is asked to do.

use vstd::prelude::*;

use crate::lifecycle::manager;
use crate::lifecycle::manager::{
    Action, Active, ApplyOpView, Bound, ManagerView, NextView, Progress, Route, SlotView, StageView,
};
use crate::lifecycle::types;
use crate::lifecycle::types::{EndpointSpecView, Generation, Proto, SlotAction, SlotStateView, TaskId};
use crate::time::Duration;

verus! {

// -------------------------------------------------------------- honesty --

/// A slot reports `running` only while it has a bound listener.
pub open spec fn honest(m: ManagerView) -> bool {
    forall|id: Seq<char>, proto: Proto|
        #![trigger m.slot(id, proto)]
        m.slot(id, proto) matches Some(s) ==> s.state is Running ==> s.active is Some
}

/// The protocol an operation is busy with.
pub open spec fn busy_with(op: ApplyOpView) -> Proto {
    match op.stage {
        StageView::Starting { proto, .. } => proto,
        StageView::Restarting { proto, .. } => proto,
    }
}

/// As [`honest`], but for the slot an operation is just rebinding.
pub open spec fn honest_within(m: ManagerView, op: ApplyOpView) -> bool {
    forall|id: Seq<char>, proto: Proto|
        #![trigger m.slot(id, proto)]
        m.slot(id, proto) matches Some(s) ==> s.state is Running ==> s.active is Some || (id == op.id && proto
            == busy_with(op) && !(op.stage matches StageView::Starting { route: Route::Move { .. }, .. }))
}

/// Nothing reports `running` without a listener at the end of a step, except
/// the slot that is being rebound.
pub open spec fn honest_progress(p: Progress) -> bool {
    match p.next {
        NextView::More(op) => honest_within(p.manager, op),
        NextView::Done(_) => honest(p.manager),
    }
}

proof fn lemma_with_slot(m: ManagerView, id: Seq<char>, proto: Proto, s: Option<SlotView>)
    ensures
        forall|k: Seq<char>, q: Proto|
            #![trigger m.with_slot(id, proto, s).slot(k, q)]
            m.with_slot(id, proto, s).slot(k, q) == if k == id && q == proto && m.entries.dom().contains(id) {
                s
            } else {
                m.slot(k, q)
            },
{
}

proof fn lemma_pruned(m: ManagerView, id: Seq<char>)
    ensures
        forall|k: Seq<char>, q: Proto|
            #![trigger manager::pruned(m, id).slot(k, q)]
            {
                ||| manager::pruned(m, id).slot(k, q) == m.slot(k, q)
                ||| manager::pruned(m, id).slot(k, q) is None
            },
        forall|k: Seq<char>, q: Proto|
            #![trigger manager::pruned(m, id).slot(k, q)]
            k != id ==> manager::pruned(m, id).slot(k, q) == m.slot(k, q),
{
}

proof fn lemma_finish_honest(m: ManagerView, op: ApplyOpView)
    requires
        honest(m),
    ensures
        honest_progress(manager::finish(m, op)),
{
    lemma_pruned(m, op.id);
    let n = manager::pruned(m, op.id);
    assert forall|id: Seq<char>, proto: Proto| #![trigger n.slot(id, proto)]
        n.slot(id, proto) matches Some(s) ==> s.state is Running ==> s.active is Some by {
        assert(m.slot(id, proto) == m.slot(id, proto));
    }
}

proof fn lemma_enter_honest(m: ManagerView, op: ApplyOpView, proto: Proto)
    requires
        honest(m),
    ensures
        ({
            let t = manager::enter_slot(m, op, proto);
            &&& t.waiting ==> honest_within(t.manager, t.op)
            &&& !t.waiting ==> honest(t.manager)
            &&& t.op.id == op.id
        }),
{
    let t = manager::enter_slot(m, op, proto);
    let slot = m.slot(op.id, proto);
    lemma_with_slot(m, op.id, proto, None);
    if slot is Some {
        lemma_with_slot(m, op.id, proto, Some(SlotView { state: SlotStateView::Running, ..slot->0 }));
        lemma_with_slot(m, op.id, proto, Some(SlotView { active: None, ..slot->0 }));
    }
    assert forall|k: Seq<char>, q: Proto| #![trigger t.manager.slot(k, q)]
        t.manager.slot(k, q) matches Some(s) ==> s.state is Running ==> s.active is Some || (t.waiting && k == op.id
            && q == proto && !(t.op.stage matches StageView::Starting { route: Route::Move { .. }, .. })) by {
        assert(m.slot(k, q) == m.slot(k, q));
    }
}

proof fn lemma_run_udp_honest(m: ManagerView, op: ApplyOpView)
    requires
        honest(m),
    ensures
        honest_progress(manager::run_udp(m, op)),
{
    lemma_enter_honest(m, op, Proto::Udp);
    let t = manager::enter_slot(m, op, Proto::Udp);
    if !t.waiting {
        lemma_finish_honest(t.manager, t.op);
    }
}

proof fn lemma_run_after_honest(m: ManagerView, op: ApplyOpView, proto: Proto)
    requires
        honest(m),
    ensures
        honest_progress(manager::run_after(m, op, proto)),
{
    match proto {
        Proto::Tcp => lemma_run_udp_honest(m, op),
        Proto::Udp => lemma_finish_honest(m, op),
    }
}

/// Learning which tasks have ended keeps the state honest.
pub proof fn law_refresh_is_honest(m: ManagerView, finished: Seq<TaskId>)
    requires
        honest(m),
    ensures
        honest(manager::refreshed(m, finished)),
{
    let n = manager::refreshed(m, finished);
    assert forall|id: Seq<char>, proto: Proto| #![trigger n.slot(id, proto)]
        n.slot(id, proto) matches Some(s) ==> s.state is Running ==> s.active is Some by {
        assert(n.slot(id, proto) == manager::refreshed_opt(m.slot(id, proto), finished));
    }
}

/// A slot is reported running only after its listener is bound: at the start
/// of an operation.
pub proof fn law_apply_is_honest(
    m: ManagerView,
    id: Seq<char>,
    generation: Generation,
    spec: EndpointSpecView,
    finished: Seq<TaskId>,
)
    requires
        honest(m),
    ensures
        honest_progress(manager::apply_begun(m, id, generation, spec, finished)),
{
    law_refresh_is_honest(m, finished);
    let m1 = manager::refreshed(m, finished);
    if spec.tcp || spec.udp {
        let drain = match spec.drain {
            Some(d) => d,
            None => m1.policy,
        };
        let m2 = manager::enrolled(m1, id, drain);
        assert forall|k: Seq<char>, q: Proto| #![trigger m2.slot(k, q)]
            m2.slot(k, q) matches Some(s) ==> s.state is Running ==> s.active is Some by {
            assert(m2.slot(k, q) == m1.slot(k, q));
        }
        let op = ApplyOpView {
            id,
            generation,
            spec,
            drain,
            stage: StageView::Starting { proto: Proto::Tcp, route: Route::Fresh },
            outcomes: Seq::empty(),
        };
        lemma_enter_honest(m2, op, Proto::Tcp);
        let t = manager::enter_slot(m2, op, Proto::Tcp);
        if !t.waiting {
            lemma_run_udp_honest(t.manager, t.op);
        }
    }
}

/// A slot is reported running only after its listener is bound: while an
/// operation goes on, and when it ends.
pub proof fn law_resume_is_honest(m: ManagerView, op: ApplyOpView, started: Result<Bound, Seq<char>>)
    requires
        honest_within(m, op),
        m.entries.dom().contains(op.id),
    ensures
        honest_progress(manager::apply_resumed(m, op, started)),
{
    let proto = busy_with(op);
    let p = manager::apply_resumed(m, op, started);
    assert forall|s: SlotView| (s.state is Running ==> s.active is Some) implies honest(
        #[trigger] m.with_slot(op.id, proto, Some(s)),
    ) by {
        lemma_with_slot(m, op.id, proto, Some(s));
        let n = m.with_slot(op.id, proto, Some(s));
        assert forall|k: Seq<char>, q: Proto| #![trigger n.slot(k, q)]
            n.slot(k, q) matches Some(x) ==> x.state is Running ==> x.active is Some by {
            assert(m.slot(k, q) == m.slot(k, q));
        }
    }
    assert forall|n: ManagerView, o: ApplyOpView| honest(n) implies honest_progress(
        #[trigger] manager::run_after(n, o, proto),
    ) by {
        lemma_run_after_honest(n, o, proto);
    }
    match op.stage {
        StageView::Starting { route, .. } => {
            match (route, started) {
                (Route::Rebind { former }, Err(reason)) => {},
                (Route::Move { former }, Err(reason)) => {
                    if m.slot(op.id, proto) is None {
                        assert(honest(m)) by {
                            assert forall|k: Seq<char>, q: Proto| #![trigger m.slot(k, q)]
                                m.slot(k, q) matches Some(x) ==> x.state is Running ==> x.active is Some by {}
                        }
                    }
                },
                _ => {},
            }
        },
        StageView::Restarting { .. } => {
            if m.slot(op.id, proto) is None {
                assert(honest(m)) by {
                    assert forall|k: Seq<char>, q: Proto| #![trigger m.slot(k, q)]
                        m.slot(k, q) matches Some(x) ==> x.state is Running ==> x.active is Some by {}
                }
            }
        },
    }
}

/// Stopping to accept, and removing an id, keep the state honest.
pub proof fn law_release_is_honest(m: ManagerView, id: Seq<char>, proto: Proto, finished: Seq<TaskId>)
    requires
        honest(m),
    ensures
        honest(manager::accept_stopped(m, id, proto)),
        honest(manager::removed(m, id, finished).manager),
{
    let n = manager::accept_stopped(m, id, proto);
    if m.active(id, proto) is Some {
        let a = m.active(id, proto)->0;
        let s = m.slot(id, proto)->0;
        let d = manager::Draining { generation: a.generation, task: a.task };
        let t = SlotView { state: SlotStateView::Draining, active: None, draining: s.draining.push(d), ..s };
        lemma_with_slot(m, id, proto, Some(t));
        assert forall|k: Seq<char>, q: Proto| #![trigger n.slot(k, q)]
            n.slot(k, q) matches Some(x) ==> x.state is Running ==> x.active is Some by {
            assert(m.slot(k, q) == m.slot(k, q));
        }
    }
    law_refresh_is_honest(m, finished);
    let r = manager::refreshed(m, finished);
    let x = manager::removed(m, id, finished).manager;
    assert forall|k: Seq<char>, q: Proto| #![trigger x.slot(k, q)]
        x.slot(k, q) matches Some(y) ==> y.state is Running ==> y.active is Some by {
        assert(k != id ==> x.slot(k, q) == r.slot(k, q));
    }
}

// ------------------------------------------------------------ independence --

/// Whether two states agree on every id but one.
pub open spec fn same_elsewhere(a: ManagerView, b: ManagerView, id: Seq<char>) -> bool {
    &&& a.policy == b.policy
    &&& a.entries.remove(id) == b.entries.remove(id)
}

proof fn lemma_with_slot_elsewhere(m: ManagerView, id: Seq<char>, proto: Proto, s: Option<SlotView>)
    ensures
        same_elsewhere(m.with_slot(id, proto, s), m, id),
{
    assert(m.with_slot(id, proto, s).entries.remove(id) =~= m.entries.remove(id));
}

proof fn lemma_enter_elsewhere(m: ManagerView, op: ApplyOpView, proto: Proto)
    ensures
        same_elsewhere(manager::enter_slot(m, op, proto).manager, m, op.id),
        manager::enter_slot(m, op, proto).op.id == op.id,
        m.entries.dom().contains(op.id) ==> manager::enter_slot(m, op, proto).manager.entries.dom().contains(op.id),
{
    let slot = m.slot(op.id, proto);
    lemma_with_slot_elsewhere(m, op.id, proto, None);
    if slot is Some {
        lemma_with_slot_elsewhere(m, op.id, proto, Some(SlotView { state: SlotStateView::Running, ..slot->0 }));
        lemma_with_slot_elsewhere(m, op.id, proto, Some(SlotView { active: None, ..slot->0 }));
    }
}

proof fn lemma_after_elsewhere(m: ManagerView, op: ApplyOpView, proto: Proto)
    ensures
        same_elsewhere(manager::run_after(m, op, proto).manager, m, op.id),
        m.entries.dom().contains(op.id) ==> (manager::run_after(m, op, proto).next matches NextView::More(o) ==> o.id
            == op.id && manager::run_after(m, op, proto).manager.entries.dom().contains(op.id)),
{
    lemma_enter_elsewhere(m, op, Proto::Udp);
    let t = manager::enter_slot(m, op, Proto::Udp);
    assert(manager::pruned(m, op.id).entries.remove(op.id) =~= m.entries.remove(op.id));
    assert(manager::pruned(t.manager, op.id).entries.remove(op.id) =~= t.manager.entries.remove(op.id));
}

/// Beginning to apply one endpoint touches no other, beyond recording which
/// tasks have ended.
pub proof fn law_apply_touches_one_id(
    m: ManagerView,
    id: Seq<char>,
    generation: Generation,
    spec: EndpointSpecView,
    finished: Seq<TaskId>,
)
    ensures
        ({
            let p = manager::apply_begun(m, id, generation, spec, finished);
            &&& same_elsewhere(p.manager, manager::refreshed(m, finished), id)
            &&& p.next matches NextView::More(op) ==> op.id == id && p.manager.entries.dom().contains(id)
        }),
{
    let m1 = manager::refreshed(m, finished);
    if spec.tcp || spec.udp {
        let drain = match spec.drain {
            Some(d) => d,
            None => m1.policy,
        };
        let m2 = manager::enrolled(m1, id, drain);
        assert(m2.entries.remove(id) =~= m1.entries.remove(id));
        let op = ApplyOpView {
            id,
            generation,
            spec,
            drain,
            stage: StageView::Starting { proto: Proto::Tcp, route: Route::Fresh },
            outcomes: Seq::empty(),
        };
        lemma_enter_elsewhere(m2, op, Proto::Tcp);
        let t = manager::enter_slot(m2, op, Proto::Tcp);
        lemma_after_elsewhere(t.manager, t.op, Proto::Tcp);
    }
}

/// Going on with an endpoint touches no other.
pub proof fn law_resume_touches_one_id(m: ManagerView, op: ApplyOpView, started: Result<Bound, Seq<char>>)
    requires
        m.entries.dom().contains(op.id),
    ensures
        ({
            let p = manager::apply_resumed(m, op, started);
            &&& same_elsewhere(p.manager, m, op.id)
            &&& p.next matches NextView::More(o) ==> o.id == op.id && p.manager.entries.dom().contains(op.id)
        }),
{
    let proto = busy_with(op);
    assert forall|s: SlotView, o: ApplyOpView| o.id == op.id implies {
        let p = #[trigger] manager::run_after(m.with_slot(op.id, proto, Some(s)), o, proto);
        &&& same_elsewhere(p.manager, m, op.id)
        &&& p.next matches NextView::More(x) ==> x.id == op.id && p.manager.entries.dom().contains(op.id)
    } by {
        lemma_with_slot_elsewhere(m, op.id, proto, Some(s));
        lemma_after_elsewhere(m.with_slot(op.id, proto, Some(s)), o, proto);
    }
    assert forall|o: ApplyOpView| o.id == op.id implies {
        let p = #[trigger] manager::run_after(m, o, proto);
        &&& same_elsewhere(p.manager, m, op.id)
        &&& p.next matches NextView::More(x) ==> x.id == op.id && p.manager.entries.dom().contains(op.id)
    } by {
        lemma_after_elsewhere(m, o, proto);
    }
}

// ------------------------------------------------------------- termination --

/// Starts an operation may still have to wait for.
pub open spec fn starts_left(op: ApplyOpView) -> nat {
    match op.stage {
        StageView::Starting { proto: Proto::Tcp, .. } => 4,
        StageView::Restarting { proto: Proto::Tcp, .. } => 3,
        StageView::Starting { proto: Proto::Udp, .. } => 2,
        StageView::Restarting { proto: Proto::Udp, .. } => 1,
    }
}

/// An operation ends: each answer brings it closer, and four are enough.
pub proof fn law_apply_ends(m: ManagerView, op: ApplyOpView, started: Result<Bound, Seq<char>>)
    ensures
        starts_left(op) <= 4,
        manager::apply_resumed(m, op, started).next matches NextView::More(o) ==> starts_left(o) < starts_left(op),
{
}

// --------------------------------------------------------- one slot at a time --

/// A slot that already serves what is asked for is left alone: no listener is
/// started, stopped or drained, and it is reported unchanged.
pub proof fn law_serving_slot_is_left_alone(m: ManagerView, op: ApplyOpView, proto: Proto)
    requires
        op.spec.wants(proto),
        m.slot(op.id, proto) matches Some(s) && manager::serves(s, op.spec, op.drain),
    ensures
        ({
            let t = manager::enter_slot(m, op, proto);
            &&& !t.waiting
            &&& t.actions.len() == 0
            &&& t.manager.active(op.id, proto) == m.active(op.id, proto)
            &&& t.op.outcomes == op.outcomes.push(types::ok_outcome(proto, SlotAction::Unchanged))
        }),
{
}

/// A listener is never rebound on an address its slot still holds: it is
/// stopped first.
pub proof fn law_own_address_is_released_first(m: ManagerView, op: ApplyOpView, proto: Proto)
    requires
        op.spec.wants(proto),
        m.active(op.id, proto) matches Some(a) && a.laddr.ip == op.spec.endpoint.laddr.ip && a.laddr.port
            == op.spec.endpoint.laddr.port,
        m.slot(op.id, proto) matches Some(s) && !manager::serves(s, op.spec, op.drain),
    ensures
        ({
            let t = manager::enter_slot(m, op, proto);
            let a = m.active(op.id, proto)->0;
            &&& t.waiting
            &&& t.actions == seq![Action::Stop { task: a.task }]
            &&& t.manager.active(op.id, proto) is None
            &&& manager::awaited(t.op).endpoint == op.spec.endpoint
        }),
{
}

/// A listener that moves is brought up on the new address before the old one
/// is touched.
pub proof fn law_move_starts_before_it_stops(m: ManagerView, op: ApplyOpView, proto: Proto)
    requires
        op.spec.wants(proto),
        m.active(op.id, proto) matches Some(a) && (a.laddr.ip != op.spec.endpoint.laddr.ip || a.laddr.port
            != op.spec.endpoint.laddr.port),
        m.slot(op.id, proto) matches Some(s) && !manager::serves(s, op.spec, op.drain),
    ensures
        ({
            let t = manager::enter_slot(m, op, proto);
            &&& t.waiting
            &&& t.actions.len() == 0
            &&& t.manager == m
            &&& t.op.stage == (StageView::Starting {
                proto,
                route: Route::Move { former: m.active(op.id, proto)->0 },
            })
        }),
{
}

/// The state of a slot right after an operation is through with it, before it
/// goes on with the other protocol.
pub open spec fn settled_slot(m: ManagerView, op: ApplyOpView, started: Result<Bound, Seq<char>>) -> Option<SlotView> {
    match manager::apply_resumed(m, op, started).next {
        NextView::More(o) => if busy_with(o) == busy_with(op) {
            None
        } else {
            manager::apply_resumed(m, op, started).manager.slot(op.id, busy_with(op))
        },
        NextView::Done(_) => manager::apply_resumed(m, op, started).manager.slot(op.id, busy_with(op)),
    }
}

proof fn lemma_settled(m: ManagerView, op: ApplyOpView, proto: Proto, s: SlotView)
    requires
        m.entries.dom().contains(op.id),
        !(s.state is Stopped),
    ensures
        forall|o: ApplyOpView|
            #![trigger manager::run_after(m.with_slot(op.id, proto, Some(s)), o, proto)]
            o.id == op.id ==> manager::run_after(m.with_slot(op.id, proto, Some(s)), o, proto).manager.slot(
                op.id,
                proto,
            ) == Some(s),
{
    let n = m.with_slot(op.id, proto, Some(s));
    assert forall|o: ApplyOpView| #![trigger manager::run_after(n, o, proto)] o.id == op.id implies manager::run_after(
        n,
        o,
        proto,
    ).manager.slot(op.id, proto) == Some(s) by {
        lemma_with_slot(m, op.id, proto, Some(s));
        let slot = n.slot(op.id, Proto::Udp);
        lemma_with_slot(n, op.id, Proto::Udp, None);
        if slot is Some {
            lemma_with_slot(n, op.id, Proto::Udp, Some(SlotView { state: SlotStateView::Running, ..slot->0 }));
            lemma_with_slot(n, op.id, Proto::Udp, Some(SlotView { active: None, ..slot->0 }));
        }
    }
}

/// A failed move leaves the old listener serving, under its old generation and
/// endpoint, and the slot is reported failed.
pub proof fn law_failed_move_keeps_the_listener(m: ManagerView, op: ApplyOpView, reason: Seq<char>)
    requires
        m.entries.dom().contains(op.id),
        op.stage matches StageView::Starting { route: Route::Move { .. }, .. },
        m.slot(op.id, busy_with(op)) is Some,
    ensures
        ({
            let before = m.slot(op.id, busy_with(op))->0;
            let error = manager::bind_error(op.spec.endpoint.laddr, reason);
            settled_slot(m, op, Err(reason)) == Some(SlotView { state: SlotStateView::Failed(error), ..before })
        }),
{
    let before = m.slot(op.id, busy_with(op))->0;
    let error = manager::bind_error(op.spec.endpoint.laddr, reason);
    lemma_settled(m, op, busy_with(op), SlotView { state: SlotStateView::Failed(error), ..before });
}

/// A failed rebind asks for the endpoint that was serving to be started again,
/// under the generation it had.
pub proof fn law_failed_rebind_restarts_the_listener(m: ManagerView, op: ApplyOpView, reason: Seq<char>)
    requires
        op.stage matches StageView::Starting { route: Route::Rebind { .. }, .. },
        m.slot(op.id, busy_with(op)) is Some,
    ensures
        ({
            let p = manager::apply_resumed(m, op, Err(reason));
            let former = op.stage->route->Rebind_former;
            &&& p.manager == m
            &&& p.next matches NextView::More(o) && manager::awaited(o) == (manager::StartRequestView {
                proto: busy_with(op),
                endpoint: m.slot(op.id, busy_with(op))->0.endpoint,
                generation: former.generation,
            })
        }),
{
}

/// A listener restarted after a failed rebind serves the old endpoint under the
/// old generation; the slot is reported failed either way.
pub proof fn law_restarted_listener_serves_again(m: ManagerView, op: ApplyOpView, started: Result<Bound, Seq<char>>)
    requires
        m.entries.dom().contains(op.id),
        op.stage is Restarting,
        m.slot(op.id, busy_with(op)) is Some,
    ensures
        settled_slot(m, op, started) matches Some(s) && {
            let before = m.slot(op.id, busy_with(op))->0;
            &&& s.endpoint == before.endpoint
            &&& s.generation == before.generation
            &&& s.state == SlotStateView::Failed(op.stage->error)
            &&& s.active is Some == started is Ok
            &&& s.active matches Some(a) ==> a.generation == op.stage->Restarting_former.generation
        },
{
    let before = m.slot(op.id, busy_with(op))->0;
    let former = op.stage->Restarting_former;
    let s = SlotView {
        state: SlotStateView::Failed(op.stage->error),
        active: match started {
            Ok(bound) => Some(Active { generation: former.generation, laddr: bound.laddr, task: bound.task }),
            Err(_) => None,
        },
        draining: before.draining + manager::superseded(former),
        ..before
    };
    lemma_settled(m, op, busy_with(op), s);
}

/// A listener that came up is what its slot serves, at the new generation.
pub proof fn law_started_listener_serves(m: ManagerView, op: ApplyOpView, bound: Bound)
    requires
        m.entries.dom().contains(op.id),
        op.stage is Starting,
    ensures
        settled_slot(m, op, Ok(bound)) matches Some(s) && {
            &&& s.state is Running
            &&& s.generation == op.generation
            &&& s.endpoint == op.spec.endpoint
            &&& s.active == Some(Active { generation: op.generation, laddr: bound.laddr, task: bound.task })
        },
{
    let slot = m.slot(op.id, busy_with(op));
    let drained = match op.stage->route {
        Route::Fresh => Seq::empty(),
        Route::Rebind { former } => manager::superseded(former),
        Route::Move { former } => manager::superseded(former),
    };
    lemma_settled(m, op, busy_with(op), manager::running_slot(slot, op, bound, drained));
}

/// Whether every drain of a list of actions has a given deadline.
pub open spec fn drains_under(actions: Seq<Action>, deadline: Option<Duration>) -> bool {
    forall|i: int|
        0 <= i < actions.len() ==> ((#[trigger] actions[i]) matches Action::Drain { deadline: d, .. } ==> d == deadline)
}

/// The listener an operation is about to supersede, if any.
pub open spec fn superseding(op: ApplyOpView) -> Option<manager::Active> {
    match op.stage {
        StageView::Starting { route: Route::Rebind { former }, .. } => Some(former),
        StageView::Starting { route: Route::Move { former }, .. } => Some(former),
        _ => None,
    }
}

/// What a replaced listener served drains under the update deadline for tcp,
/// and ends at once for udp.
///
/// With the default policy no tcp connection is ever ended by an update.
pub proof fn law_update_drains_under_the_update_policy(m: ManagerView, op: ApplyOpView, bound: Bound)
    requires
        superseding(op) is Some,
    ensures
        ({
            let proto = busy_with(op);
            let former = superseding(op)->0;
            let deadline = types::replaced_deadline(op.drain, proto);
            let actions = manager::apply_resumed(m, op, Ok(bound)).actions;
            &&& actions.contains(Action::Drain { task: former.task, generation: former.generation, deadline })
            &&& proto == Proto::Tcp ==> deadline == op.drain.on_update
            &&& proto == Proto::Udp ==> deadline == Some(crate::time::no_time()) && drains_under(actions, deadline)
        }),
        types::default_policy().on_update is None,
{
    let proto = busy_with(op);
    let former = superseding(op)->0;
    let deadline = types::replaced_deadline(op.drain, proto);
    let actions = manager::apply_resumed(m, op, Ok(bound)).actions;
    let own = Action::Drain { task: former.task, generation: former.generation, deadline };
    match op.stage {
        StageView::Starting { route: Route::Rebind { .. }, .. } => assert(actions[0] == own),
        _ => assert(actions[1] == own),
    }
}

/// The outcomes of an operation so far.
pub open spec fn outcomes_of(next: NextView) -> Seq<types::SlotOutcomeView> {
    match next {
        NextView::More(op) => op.outcomes,
        NextView::Done(outcomes) => outcomes,
    }
}

/// What replacing a tcp listener comes to, once the new one could be started: it is
/// reported updated, the slot runs the new rule under the new generation and
/// deadlines, and what the former listener had accepted is its own cohort, which
/// drains under the new update deadline.
pub open spec fn tcp_is_replaced(
    m: ManagerView,
    id: Seq<char>,
    generation: Generation,
    spec: EndpointSpecView,
    finished: Seq<TaskId>,
    bound: Bound,
) -> bool {
    let r = manager::refreshed(m, finished);
    let former = m.active(id, Proto::Tcp)->0;
    let drain = manager::drain_for(m, spec);
    let p = manager::apply_begun(m, id, generation, spec, finished);
    &&& p.next matches NextView::More(op)
    &&& manager::awaited(op) == (manager::StartRequestView {
        proto: Proto::Tcp,
        endpoint: spec.endpoint,
        generation,
    })
    &&& {
        let q = manager::apply_resumed(p.manager, op, Ok(bound));
        let actions = p.actions + q.actions;
        &&& actions.contains(Action::Stop { task: former.task })
        &&& actions.contains(
            Action::Drain { task: former.task, generation: former.generation, deadline: drain.on_update },
        )
        &&& outcomes_of(q.next).contains(types::ok_outcome(Proto::Tcp, SlotAction::Updated))
        &&& q.manager.slot(id, Proto::Tcp) == Some(
            SlotView {
                state: SlotStateView::Running,
                generation,
                endpoint: spec.endpoint,
                material: spec.material,
                drain,
                active: Some(Active { generation, laddr: bound.laddr, task: bound.task }),
                draining: r.slot(id, Proto::Tcp)->0.draining + manager::superseded(former),
            },
        )
    }
}

proof fn lemma_udp_keeps_tcp(m: ManagerView, op: ApplyOpView, o: types::SlotOutcomeView)
    requires
        m.entries.dom().contains(op.id),
        m.active(op.id, Proto::Tcp) is Some,
        op.outcomes.contains(o),
    ensures
        manager::run_udp(m, op).manager.slot(op.id, Proto::Tcp) == m.slot(op.id, Proto::Tcp),
        outcomes_of(manager::run_udp(m, op).next).contains(o),
{
    let i = op.outcomes.index_of(o);
    let t = manager::enter_slot(m, op, Proto::Udp);
    assert(t.manager.slot(op.id, Proto::Tcp) == m.slot(op.id, Proto::Tcp));
    assert(t.op.outcomes[i] == o);
}

/// A tcp listener is replaced whenever what it serves is not what is asked for, be
/// it in its rule, its material or its deadlines.
pub proof fn law_changed_tcp_is_replaced(
    m: ManagerView,
    id: Seq<char>,
    generation: Generation,
    spec: EndpointSpecView,
    finished: Seq<TaskId>,
    bound: Bound,
)
    requires
        spec.tcp,
        m.slot(id, Proto::Tcp) matches Some(s) && s.active is Some && !finished.contains(s.active->0.task)
            && !manager::serves(s, spec, manager::drain_for(m, spec)),
    ensures
        tcp_is_replaced(m, id, generation, spec, finished, bound),
{
    let r = manager::refreshed(m, finished);
    let former = m.active(id, Proto::Tcp)->0;
    let drain = manager::drain_for(m, spec);
    assert(r.slot(id, Proto::Tcp) == manager::refreshed_opt(m.slot(id, Proto::Tcp), finished));
    let e = manager::enrolled(r, id, drain);
    assert(e.slot(id, Proto::Tcp) == r.slot(id, Proto::Tcp));
    let p = manager::apply_begun(m, id, generation, spec, finished);
    let op = p.next->More_0;
    let q = manager::apply_resumed(p.manager, op, Ok(bound));
    let s = manager::running_slot(p.manager.slot(id, Proto::Tcp), op, bound, manager::superseded(former));
    let o = types::ok_outcome(Proto::Tcp, SlotAction::Updated);
    let n = p.manager.with_slot(id, Proto::Tcp, Some(s));
    let next = ApplyOpView { outcomes: op.outcomes.push(o), ..op };
    assert(next.outcomes[op.outcomes.len() as int] == o);
    lemma_udp_keeps_tcp(n, next, o);
    assert(n.slot(id, Proto::Tcp) == Some(s));
    let actions = p.actions + q.actions;
    let stop = Action::Stop { task: former.task };
    let own = Action::Drain { task: former.task, generation: former.generation, deadline: drain.on_update };
    match op.stage {
        StageView::Starting { route: Route::Rebind { .. }, .. } => {
            assert(actions[0] == stop);
            assert(q.actions[0] == own);
            assert(actions[1] == own);
        },
        _ => {
            assert(p.actions.len() == 0);
            assert(q.actions[0] == stop);
            assert(q.actions[1] == own);
            assert(actions[0] == stop);
            assert(actions[1] == own);
        },
    }
}

/// A change of the drain deadlines alone is an update: the tcp listener is replaced
/// by one for the same rule, and what was accepted before drains under the new
/// deadline. With a deadline of no time that stops the traffic.
pub proof fn law_changed_deadlines_are_an_update(
    m: ManagerView,
    id: Seq<char>,
    generation: Generation,
    spec: EndpointSpecView,
    finished: Seq<TaskId>,
    bound: Bound,
)
    requires
        spec.tcp,
        m.slot(id, Proto::Tcp) matches Some(s) && {
            &&& s.active is Some
            &&& !finished.contains(s.active->0.task)
            &&& s.endpoint == spec.endpoint
            &&& s.material == spec.material
            &&& s.drain != manager::drain_for(m, spec)
        },
    ensures
        tcp_is_replaced(m, id, generation, spec, finished, bound),
{
    law_changed_tcp_is_replaced(m, id, generation, spec, finished, bound);
}

/// Removing an id stops every listener it has, drains each under the delete
/// deadline, and forgets the id.
pub proof fn law_remove_releases_everything(m: ManagerView, id: Seq<char>, finished: Seq<TaskId>, proto: Proto)
    ensures
        ({
            let r = manager::refreshed(m, finished);
            let x = manager::removed(m, id, finished);
            &&& !x.manager.entries.dom().contains(id)
            &&& same_elsewhere(x.manager, r, id)
            &&& r.active(id, proto) matches Some(a) ==> {
                &&& x.actions.contains(Action::Stop { task: a.task })
                &&& x.actions.contains(
                    Action::Drain { task: a.task, generation: a.generation, deadline: r.entries[id].drain.on_delete },
                )
            }
            &&& r.entries.dom().contains(id) ==> drains_under(x.actions, r.entries[id].drain.on_delete)
        }),
{
    let r = manager::refreshed(m, finished);
    let x = manager::removed(m, id, finished);
    assert(x.manager.entries.remove(id) =~= r.entries.remove(id));
    if r.active(id, proto) is Some {
        let a = r.active(id, proto)->0;
        let e = r.entries[id];
        let tcp = manager::slot_release(e.tcp, e.drain.on_delete);
        let at = match proto {
            Proto::Tcp => 0,
            Proto::Udp => tcp.len() as int,
        };
        assert(x.actions[at] == Action::Stop { task: a.task });
        assert(x.actions[at + 1] == Action::Drain {
            task: a.task,
            generation: a.generation,
            deadline: e.drain.on_delete,
        });
    }
}

// ---------------------------------------------------------------- outcomes --

/// Outcomes of distinct protocols, tcp first.
pub open spec fn one_each(outcomes: Seq<types::SlotOutcomeView>) -> bool {
    ||| outcomes.len() == 0
    ||| outcomes.len() == 1
    ||| outcomes.len() == 2 && outcomes[0].proto == Proto::Tcp && outcomes[1].proto == Proto::Udp
}

/// An outcome for a protocol is among those of a list.
pub open spec fn reports(outcomes: Seq<types::SlotOutcomeView>, proto: Proto) -> bool {
    exists|i: int| 0 <= i < outcomes.len() && (#[trigger] outcomes[i]).proto == proto
}

/// How far the outcomes of a running operation have got.
pub open spec fn on_track(op: ApplyOpView) -> bool {
    match busy_with(op) {
        Proto::Tcp => op.outcomes.len() == 0 && op.spec.tcp,
        Proto::Udp => {
            &&& op.spec.udp
            &&& op.outcomes.len() <= 1
            &&& op.outcomes.len() == 1 ==> op.outcomes[0].proto == Proto::Tcp
            &&& op.spec.tcp ==> op.outcomes.len() == 1
        },
    }
}

pub open spec fn progress_on_track(p: Progress, spec: EndpointSpecView) -> bool {
    match p.next {
        NextView::More(op) => on_track(op) && op.spec == spec,
        NextView::Done(outcomes) => {
            &&& one_each(outcomes)
            &&& forall|proto: Proto| spec.wants(proto) ==> #[trigger] reports(outcomes, proto)
        },
    }
}

proof fn lemma_finish_on_track(m: ManagerView, op: ApplyOpView)
    requires
        one_each(op.outcomes),
        op.spec.tcp ==> op.outcomes.len() > 0 && op.outcomes[0].proto == Proto::Tcp,
        op.spec.udp ==> op.outcomes.len() > 0 && op.outcomes.last().proto == Proto::Udp,
    ensures
        progress_on_track(manager::finish(m, op), op.spec),
{
    assert forall|proto: Proto| op.spec.wants(proto) implies #[trigger] reports(op.outcomes, proto) by {
        match proto {
            Proto::Tcp => assert(op.outcomes[0].proto == proto),
            Proto::Udp => assert(op.outcomes[op.outcomes.len() - 1].proto == proto),
        }
    }
}

proof fn lemma_udp_on_track(m: ManagerView, op: ApplyOpView)
    requires
        op.outcomes.len() <= 1,
        op.outcomes.len() == 1 ==> op.outcomes[0].proto == Proto::Tcp,
        op.spec.tcp ==> op.outcomes.len() == 1,
    ensures
        progress_on_track(manager::run_udp(m, op), op.spec),
{
    let t = manager::enter_slot(m, op, Proto::Udp);
    if !t.waiting {
        lemma_finish_on_track(t.manager, t.op);
    }
}

/// An endpoint is reported once per protocol: every protocol it asks for has an
/// outcome at the end, and none has two.
pub proof fn law_one_outcome_per_protocol(
    m: ManagerView,
    id: Seq<char>,
    generation: Generation,
    spec: EndpointSpecView,
    finished: Seq<TaskId>,
)
    ensures
        progress_on_track(manager::apply_begun(m, id, generation, spec, finished), spec),
{
    let m1 = manager::refreshed(m, finished);
    if spec.tcp || spec.udp {
        let drain = match spec.drain {
            Some(d) => d,
            None => m1.policy,
        };
        let op = ApplyOpView {
            id,
            generation,
            spec,
            drain,
            stage: StageView::Starting { proto: Proto::Tcp, route: Route::Fresh },
            outcomes: Seq::empty(),
        };
        let t = manager::enter_slot(manager::enrolled(m1, id, drain), op, Proto::Tcp);
        if !t.waiting {
            lemma_udp_on_track(t.manager, t.op);
        }
    } else {
        assert forall|proto: Proto| !spec.wants(proto) by {}
    }
}

/// The same while the operation goes on.
pub proof fn law_one_outcome_per_protocol_resumed(
    m: ManagerView,
    op: ApplyOpView,
    started: Result<Bound, Seq<char>>,
)
    requires
        on_track(op),
    ensures
        progress_on_track(manager::apply_resumed(m, op, started), op.spec),
{
    let proto = busy_with(op);
    assert forall|n: ManagerView, o: types::SlotOutcomeView| o.proto == proto implies progress_on_track(
        #[trigger] manager::run_after(n, ApplyOpView { outcomes: op.outcomes.push(o), ..op }, proto),
        op.spec,
    ) by {
        let next = ApplyOpView { outcomes: op.outcomes.push(o), ..op };
        match proto {
            Proto::Tcp => lemma_udp_on_track(n, next),
            Proto::Udp => lemma_finish_on_track(n, next),
        }
    }
}

} // verus!
