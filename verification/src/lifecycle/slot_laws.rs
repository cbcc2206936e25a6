//! What an operation does to one slot, field by field.

use vstd::prelude::*;

use crate::conf::endpoint;
use crate::conf::endpoint::{EndpointConfView, Lookups};
use crate::lifecycle::manager;
use crate::lifecycle::manager::{
    Action, Active, ApplyOpView, Bound, Draining, ManagerView, NextView, Progress, Route, SlotView, StageView,
    StartRequestView, TaskReport,
};
use crate::lifecycle::manager_laws::{busy_with, outcomes_of};
use crate::lifecycle::plan_laws::{is_up, slot_at};
use crate::lifecycle::types::{
    DrainPolicy, EndpointSpecView, Generation, Proto, SlotAction, SlotOutcomeView, SlotStateView, TaskId,
};
use crate::net;
use crate::time::Duration;

verus! {

// ------------------------------------------------------------ entering a slot --

/// Whether a slot runs the very rule of a spec, with its material and under given
/// deadlines.
pub open spec fn runs_it(s: Option<SlotView>, spec: EndpointSpecView, drain: DrainPolicy) -> bool {
    s matches Some(s) && {
        &&& s.active is Some
        &&& s.endpoint == spec.endpoint
        &&& s.material == spec.material
        &&& s.drain == drain
    }
}

/// Whether a spec asks for a protocol.
pub open spec fn asked(spec: EndpointSpecView, proto: Proto) -> bool {
    match proto {
        Proto::Tcp => spec.tcp,
        Proto::Udp => spec.udp,
    }
}

/// Whether two states agree on every slot but one, on every deadline and on which
/// ids there are.
pub open spec fn agree_but(a: ManagerView, b: ManagerView, id: Seq<char>, proto: Proto) -> bool {
    &&& a.policy == b.policy
    &&& a.entries.dom() == b.entries.dom()
    &&& forall|k: Seq<char>| #[trigger] a.entries.dom().contains(k) ==> a.entries[k].drain == b.entries[k].drain
    &&& forall|k: Seq<char>, q: Proto|
        (k != id || q != proto) ==> #[trigger] slot_at(a, k, q) == slot_at(b, k, q)
}

/// A protocol that is asked for, and runs as it is asked for, is left alone and
/// reported unchanged. If it does not, a listener for it is asked for under the
/// generation of the operation; one that occupies the very address is stopped for
/// that, and any other is left running meanwhile. No other slot is touched.
pub proof fn law_protocol_that_is_asked_for(m: ManagerView, op: ApplyOpView, proto: Proto)
    requires
        m.entries.dom().contains(op.id),
        asked(op.spec, proto),
    ensures
        ({
            let s = slot_at(m, op.id, proto);
            let t = manager::enter_slot(m, op, proto);
            let laddr = op.spec.endpoint.laddr;
            let occupied = s matches Some(s) && s.active matches Some(a) && a.laddr.ip == laddr.ip && a.laddr.port
                == laddr.port;
            &&& agree_but(t.manager, m, op.id, proto)
            &&& t.waiting == !runs_it(s, op.spec, op.drain)
            &&& !t.waiting ==> {
                &&& slot_at(t.manager, op.id, proto) == Some(SlotView { state: SlotStateView::Running, ..s->0 })
                &&& t.actions.len() == 0
                &&& t.op.outcomes == op.outcomes.push(
                    SlotOutcomeView { proto, action: SlotAction::Unchanged, error: None, retryable: None },
                )
            }
            &&& t.waiting ==> {
                &&& manager::awaited(t.op) == (StartRequestView {
                    proto,
                    endpoint: op.spec.endpoint,
                    generation: op.generation,
                })
                &&& t.op.outcomes == op.outcomes
                &&& occupied ==> {
                    &&& t.actions == seq![Action::Stop { task: s->0.active->0.task }]
                    &&& slot_at(t.manager, op.id, proto) == Some(SlotView { active: None, ..s->0 })
                }
                &&& !occupied ==> t.actions.len() == 0 && slot_at(t.manager, op.id, proto) == s
            }
        }),
{
    let t = manager::enter_slot(m, op, proto);
    assert(m.slot(op.id, proto) == slot_at(m, op.id, proto));
    assert(t.manager.entries.dom() =~= m.entries.dom());
}

/// A protocol that is not asked for goes as in a delete: its listener is stopped,
/// what it had accepted drains under the delete deadline, and it is reported
/// deleted. If there is nothing of it, nothing happens.
pub proof fn law_protocol_that_is_not_asked_for(m: ManagerView, op: ApplyOpView, proto: Proto)
    requires
        m.entries.dom().contains(op.id),
        !asked(op.spec, proto),
    ensures
        ({
            let s = slot_at(m, op.id, proto);
            let t = manager::enter_slot(m, op, proto);
            &&& agree_but(t.manager, m, op.id, proto)
            &&& !t.waiting
            &&& slot_at(t.manager, op.id, proto) is None
            &&& s is None ==> t.actions.len() == 0 && t.op.outcomes == op.outcomes
            &&& s is Some ==> t.op.outcomes == op.outcomes.push(
                SlotOutcomeView { proto, action: SlotAction::Deleted, error: None, retryable: None },
            )
            &&& s matches Some(s) ==> {
                &&& s.active is None ==> t.actions.len() == 0
                &&& s.active matches Some(a) ==> t.actions == seq![
                    Action::Stop { task: a.task },
                    Action::Drain { task: a.task, generation: a.generation, deadline: op.drain.on_delete },
                ]
            }
        }),
{
    let t = manager::enter_slot(m, op, proto);
    assert(m.slot(op.id, proto) == slot_at(m, op.id, proto));
    assert(t.manager.entries.dom() =~= m.entries.dom());
}

// --------------------------------------------------------------- beginning --

/// The deadlines of a spec, or else those of the process.
pub open spec fn deadlines(m: ManagerView, spec: EndpointSpecView) -> DrainPolicy {
    if spec.drain is Some {
        spec.drain->0
    } else {
        m.policy
    }
}

/// Applying an endpoint records its deadlines, and asks for a listener for the
/// first protocol that is asked for and does not run as it is asked for, tcp
/// before udp, under the generation it is applied at. Without such a protocol it
/// is through. An endpoint that asks for neither protocol is refused for good, and
/// nothing is done.
pub proof fn law_applying_begins_with_the_first_protocol_to_start(
    m: ManagerView,
    id: Seq<char>,
    generation: Generation,
    spec: EndpointSpecView,
    finished: Seq<TaskId>,
)
    ensures
        ({
            let n = manager::refreshed(m, finished);
            let drain = deadlines(m, spec);
            let p = manager::apply_begun(m, id, generation, spec, finished);
            let tcp = spec.tcp && !runs_it(slot_at(n, id, Proto::Tcp), spec, drain);
            let udp = spec.udp && !runs_it(slot_at(n, id, Proto::Udp), spec, drain);
            &&& !spec.tcp && !spec.udp ==> {
                &&& p.manager == n
                &&& p.actions.len() == 0
                &&& p.next == NextView::Done(
                    seq![
                        SlotOutcomeView {
                            proto: Proto::Tcp,
                            action: SlotAction::Failed,
                            error: Some("endpoint enables neither tcp nor udp"@),
                            retryable: Some(false),
                        },
                    ],
                )
            }
            &&& spec.tcp || spec.udp ==> {
                &&& p.next is More <==> tcp || udp
                &&& p.next matches NextView::More(op) ==> {
                    &&& op.id == id
                    &&& op.generation == generation
                    &&& op.spec == spec
                    &&& op.drain == drain
                    &&& manager::awaited(op) == (StartRequestView {
                        proto: if tcp {
                            Proto::Tcp
                        } else {
                            Proto::Udp
                        },
                        endpoint: spec.endpoint,
                        generation,
                    })
                    &&& p.manager.entries.dom().contains(id)
                    &&& p.manager.entries[id].drain == drain
                }
                &&& p.next is Done ==> p.manager.entries.dom().contains(id) && p.manager.entries[id].drain == drain
            }
        }),
{
    let n = manager::refreshed(m, finished);
    let drain = deadlines(m, spec);
    if spec.tcp || spec.udp {
        let e = manager::enrolled(n, id, drain);
        assert(slot_at(e, id, Proto::Tcp) == slot_at(n, id, Proto::Tcp));
        assert(slot_at(e, id, Proto::Udp) == slot_at(n, id, Proto::Udp));
        let op = ApplyOpView {
            id,
            generation,
            spec,
            drain,
            stage: StageView::Starting { proto: Proto::Tcp, route: Route::Fresh },
            outcomes: Seq::empty(),
        };
        if spec.tcp {
            law_protocol_that_is_asked_for(e, op, Proto::Tcp);
        } else {
            law_protocol_that_is_not_asked_for(e, op, Proto::Tcp);
        }
        let t = manager::enter_slot(e, op, Proto::Tcp);
        assert(t.manager.entries[id].drain == e.entries[id].drain);
        if !t.waiting {
            assert(t.op.spec == spec && t.op.id == id && t.op.drain == drain && t.op.generation == generation);
            assert(slot_at(t.manager, id, Proto::Udp) == slot_at(e, id, Proto::Udp));
            if spec.udp {
                law_protocol_that_is_asked_for(t.manager, t.op, Proto::Udp);
            } else {
                law_protocol_that_is_not_asked_for(t.manager, t.op, Proto::Udp);
            }
            let u = manager::enter_slot(t.manager, t.op, Proto::Udp);
            assert(u.manager.entries[id].drain == t.manager.entries[id].drain);
            if !u.waiting {
                assert(slot_at(u.manager, id, Proto::Tcp) == slot_at(t.manager, id, Proto::Tcp));
                let kept = if spec.tcp {
                    Proto::Tcp
                } else {
                    Proto::Udp
                };
                assert(slot_at(u.manager, id, kept)->0.state is Running);
            }
        }
    }
}

// --------------------------------------------------------------- going on --

/// The listener an operation supersedes, if it does.
pub open spec fn former_of(op: ApplyOpView) -> Option<Active> {
    match op.stage {
        StageView::Starting { route: Route::Rebind { former }, .. } => Some(former),
        StageView::Starting { route: Route::Move { former }, .. } => Some(former),
        _ => None,
    }
}

/// The cohorts of a slot that drain.
pub open spec fn drains_at(m: ManagerView, id: Seq<char>, proto: Proto) -> Seq<Draining> {
    match slot_at(m, id, proto) {
        Some(s) => s.draining,
        None => Seq::empty(),
    }
}

/// How long what a superseded listener had accepted may keep running.
pub open spec fn update_time(drain: DrainPolicy, proto: Proto) -> Option<Duration> {
    match proto {
        Proto::Tcp => drain.on_update,
        Proto::Udp => Some(Duration { secs: 0, nanos: 0 }),
    }
}

proof fn lemma_after(n: ManagerView, next: ApplyOpView, proto: Proto, s: SlotView, k: int)
    requires
        n.entries.dom().contains(next.id),
        slot_at(n, next.id, proto) == Some(s),
        !(s.state is Stopped),
        0 <= k < next.outcomes.len(),
    ensures
        ({
            let p = manager::run_after(n, next, proto);
            &&& slot_at(p.manager, next.id, proto) == Some(s)
            &&& outcomes_of(p.next).len() > k
            &&& outcomes_of(p.next)[k] == next.outcomes[k]
            &&& p.manager.entries.dom().contains(next.id)
            &&& p.manager.entries[next.id].drain == n.entries[next.id].drain
            &&& p.manager.policy == n.policy
            &&& p.next matches NextView::More(o) ==> busy_with(o) == Proto::Udp && proto == Proto::Tcp
        }),
{
    if proto == Proto::Tcp {
        let t = manager::enter_slot(n, next, Proto::Udp);
        if asked(next.spec, Proto::Udp) {
            law_protocol_that_is_asked_for(n, next, Proto::Udp);
        } else {
            law_protocol_that_is_not_asked_for(n, next, Proto::Udp);
        }
        assert(slot_at(t.manager, next.id, Proto::Tcp) == slot_at(n, next.id, Proto::Tcp));
        assert(t.manager.entries[next.id].drain == n.entries[next.id].drain);
        assert(t.op.outcomes[k] == next.outcomes[k]);
        assert(t.op.id == next.id);
    }
}

/// A listener that came up runs the rule, the material and the deadlines it was
/// started for, at the generation of the operation. It is reported created if
/// nothing was superseded, else updated. What was superseded is one more cohort
/// beside those that drain already, and drains under the update deadline for tcp
/// and at once for udp.
pub proof fn law_listener_that_came_up(m: ManagerView, op: ApplyOpView, bound: Bound)
    requires
        m.entries.dom().contains(op.id),
        op.stage is Starting,
    ensures
        ({
            let proto = busy_with(op);
            let former = former_of(op);
            let p = manager::apply_resumed(m, op, Ok(bound));
            let k = op.outcomes.len() as int;
            &&& slot_at(p.manager, op.id, proto) == Some(
                SlotView {
                    state: SlotStateView::Running,
                    generation: op.generation,
                    endpoint: op.spec.endpoint,
                    material: op.spec.material,
                    drain: op.drain,
                    active: Some(Active { generation: op.generation, laddr: bound.laddr, task: bound.task }),
                    draining: match former {
                        Some(f) => drains_at(m, op.id, proto).push(
                            Draining { generation: f.generation, task: f.task },
                        ),
                        None => drains_at(m, op.id, proto),
                    },
                },
            )
            &&& outcomes_of(p.next).len() > k
            &&& outcomes_of(p.next)[k] == (SlotOutcomeView {
                proto,
                action: if former is Some {
                    SlotAction::Updated
                } else {
                    SlotAction::Created
                },
                error: None,
                retryable: None,
            })
            &&& former matches Some(f) ==> p.actions.contains(
                Action::Drain { task: f.task, generation: f.generation, deadline: update_time(op.drain, proto) },
            )
            &&& op.stage->route is Move ==> p.actions.contains(Action::Stop { task: former->0.task })
            &&& p.manager.entries[op.id].drain == m.entries[op.id].drain
        }),
{
    let proto = busy_with(op);
    let former = former_of(op);
    assert(m.slot(op.id, proto) == slot_at(m, op.id, proto));
    let drained = match op.stage->route {
        Route::Fresh => Seq::empty(),
        Route::Rebind { former } => manager::superseded(former),
        Route::Move { former } => manager::superseded(former),
    };
    let s = manager::running_slot(m.slot(op.id, proto), op, bound, drained);
    assert(s.draining =~= match former {
        Some(f) => drains_at(m, op.id, proto).push(Draining { generation: f.generation, task: f.task }),
        None => drains_at(m, op.id, proto),
    });
    assert(s.generation == op.generation && s.endpoint == op.spec.endpoint && s.material == op.spec.material);
    assert(s.drain == op.drain && s.state is Running);
    let o = SlotOutcomeView {
        proto,
        action: if former is Some {
            SlotAction::Updated
        } else {
            SlotAction::Created
        },
        error: None,
        retryable: None,
    };
    let n = m.with_slot(op.id, proto, Some(s));
    let next = ApplyOpView { outcomes: op.outcomes.push(o), ..op };
    assert(slot_at(n, op.id, proto) == Some(s));
    lemma_after(n, next, proto, s, op.outcomes.len() as int);
    let p = manager::apply_resumed(m, op, Ok(bound));
    if let Some(f) = former {
        let own = Action::Drain { task: f.task, generation: f.generation, deadline: update_time(op.drain, proto) };
        if op.stage->route is Rebind {
            assert(p.actions[0] == own);
        } else {
            assert(p.actions[0] == Action::Stop { task: f.task });
            assert(p.actions[1] == own);
        }
    }
}

/// A listener that could not be started where nothing was running leaves the slot
/// failed, with the rule that was tried and the reason, and is reported failed and
/// worth a retry. Cohorts that drain go on draining.
pub proof fn law_listener_that_did_not_come_up(m: ManagerView, op: ApplyOpView, reason: Seq<char>)
    requires
        m.entries.dom().contains(op.id),
        op.stage matches StageView::Starting { route: Route::Fresh, .. },
    ensures
        ({
            let proto = busy_with(op);
            let error = "failed to bind "@ + net::addr_text(op.spec.endpoint.laddr) + ": "@ + reason;
            let p = manager::apply_resumed(m, op, Err(reason));
            let k = op.outcomes.len() as int;
            &&& slot_at(p.manager, op.id, proto) == Some(
                SlotView {
                    state: SlotStateView::Failed(error),
                    generation: op.generation,
                    endpoint: op.spec.endpoint,
                    material: op.spec.material,
                    drain: op.drain,
                    active: None,
                    draining: drains_at(m, op.id, proto),
                },
            )
            &&& outcomes_of(p.next).len() > k
            &&& outcomes_of(p.next)[k] == (SlotOutcomeView {
                proto,
                action: SlotAction::Failed,
                error: Some(error),
                retryable: Some(true),
            })
            &&& p.manager.entries[op.id].drain == m.entries[op.id].drain
        }),
{
    let proto = busy_with(op);
    let error = "failed to bind "@ + net::addr_text(op.spec.endpoint.laddr) + ": "@ + reason;
    assert(m.slot(op.id, proto) == slot_at(m, op.id, proto));
    let s = SlotView {
        state: SlotStateView::Failed(error),
        generation: op.generation,
        endpoint: op.spec.endpoint,
        material: op.spec.material,
        drain: op.drain,
        active: None,
        draining: drains_at(m, op.id, proto),
    };
    let o = SlotOutcomeView { proto, action: SlotAction::Failed, error: Some(error), retryable: Some(true) };
    let n = m.with_slot(op.id, proto, Some(s));
    let next = ApplyOpView { outcomes: op.outcomes.push(o), ..op };
    assert(slot_at(n, op.id, proto) == Some(s));
    lemma_after(n, next, proto, s, op.outcomes.len() as int);
}

/// A move to another address that failed leaves the listener where it was: the
/// slot keeps everything but its state, which gives the reason. It is reported
/// failed and worth a retry.
pub proof fn law_move_that_failed(m: ManagerView, op: ApplyOpView, reason: Seq<char>)
    requires
        m.entries.dom().contains(op.id),
        op.stage matches StageView::Starting { route: Route::Move { .. }, .. },
        slot_at(m, op.id, busy_with(op)) is Some,
    ensures
        ({
            let proto = busy_with(op);
            let error = "failed to bind "@ + net::addr_text(op.spec.endpoint.laddr) + ": "@ + reason;
            let p = manager::apply_resumed(m, op, Err(reason));
            let k = op.outcomes.len() as int;
            &&& slot_at(p.manager, op.id, proto) == Some(
                SlotView { state: SlotStateView::Failed(error), ..slot_at(m, op.id, proto)->0 },
            )
            &&& outcomes_of(p.next).len() > k
            &&& outcomes_of(p.next)[k] == (SlotOutcomeView {
                proto,
                action: SlotAction::Failed,
                error: Some(error),
                retryable: Some(true),
            })
            &&& p.manager.entries[op.id].drain == m.entries[op.id].drain
        }),
{
    let proto = busy_with(op);
    let error = "failed to bind "@ + net::addr_text(op.spec.endpoint.laddr) + ": "@ + reason;
    assert(m.slot(op.id, proto) == slot_at(m, op.id, proto));
    let s = SlotView { state: SlotStateView::Failed(error), ..slot_at(m, op.id, proto)->0 };
    let o = SlotOutcomeView { proto, action: SlotAction::Failed, error: Some(error), retryable: Some(true) };
    let n = m.with_slot(op.id, proto, Some(s));
    let next = ApplyOpView { outcomes: op.outcomes.push(o), ..op };
    assert(slot_at(n, op.id, proto) == Some(s));
    lemma_after(n, next, proto, s, op.outcomes.len() as int);
}

/// A listener that was stopped for one on the same address, which then could not
/// be started, is asked for again: the rule that was running, under the generation
/// it had. Nothing is done meanwhile. Once that was tried, the slot keeps the rule
/// and the generation it had, and runs if it came up. It is failed for the reason
/// that the new one was, reported so and worth a retry, and what had been accepted
/// before is one more cohort.
pub proof fn law_rebind_that_failed(
    m: ManagerView,
    op: ApplyOpView,
    reason: Seq<char>,
    again: Result<Bound, Seq<char>>,
)
    requires
        m.entries.dom().contains(op.id),
        op.stage matches StageView::Starting { route: Route::Rebind { .. }, .. },
        slot_at(m, op.id, busy_with(op)) is Some,
    ensures
        ({
            let proto = busy_with(op);
            let former = former_of(op)->0;
            let before = slot_at(m, op.id, proto)->0;
            let error = "failed to bind "@ + net::addr_text(op.spec.endpoint.laddr) + ": "@ + reason;
            let p = manager::apply_resumed(m, op, Err(reason));
            let k = op.outcomes.len() as int;
            &&& p.manager == m
            &&& p.actions.len() == 0
            &&& p.next matches NextView::More(waiting)
            &&& manager::awaited(waiting) == (StartRequestView {
                proto,
                endpoint: before.endpoint,
                generation: former.generation,
            })
            &&& {
                let q = manager::apply_resumed(p.manager, waiting, again);
                &&& slot_at(q.manager, op.id, proto) == Some(
                    SlotView {
                        state: SlotStateView::Failed(error),
                        active: match again {
                            Ok(bound) => Some(
                                Active { generation: former.generation, laddr: bound.laddr, task: bound.task },
                            ),
                            Err(_) => None,
                        },
                        draining: before.draining.push(
                            Draining { generation: former.generation, task: former.task },
                        ),
                        ..before
                    },
                )
                &&& outcomes_of(q.next).len() > k
                &&& outcomes_of(q.next)[k] == (SlotOutcomeView {
                    proto,
                    action: SlotAction::Failed,
                    error: Some(error),
                    retryable: Some(true),
                })
                &&& q.actions.contains(
                    Action::Drain {
                        task: former.task,
                        generation: former.generation,
                        deadline: update_time(op.drain, proto),
                    },
                )
                &&& q.manager.entries[op.id].drain == m.entries[op.id].drain
            }
        }),
{
    let proto = busy_with(op);
    let former = former_of(op)->0;
    let before = slot_at(m, op.id, proto)->0;
    let error = "failed to bind "@ + net::addr_text(op.spec.endpoint.laddr) + ": "@ + reason;
    assert(m.slot(op.id, proto) == slot_at(m, op.id, proto));
    let p = manager::apply_resumed(m, op, Err(reason));
    let waiting = p.next->More_0;
    let q = manager::apply_resumed(m, waiting, again);
    let s = SlotView {
        state: SlotStateView::Failed(error),
        active: match again {
            Ok(bound) => Some(Active { generation: former.generation, laddr: bound.laddr, task: bound.task }),
            Err(_) => None,
        },
        draining: before.draining.push(Draining { generation: former.generation, task: former.task }),
        ..before
    };
    assert(before.draining + manager::superseded(former) =~= s.draining);
    let o = SlotOutcomeView { proto, action: SlotAction::Failed, error: Some(error), retryable: Some(true) };
    let n = m.with_slot(op.id, proto, Some(s));
    let next = ApplyOpView { outcomes: op.outcomes.push(o), ..waiting };
    assert(slot_at(n, op.id, proto) == Some(s));
    lemma_after(n, next, proto, s, op.outcomes.len() as int);
    assert(q.actions[0] == Action::Drain {
        task: former.task,
        generation: former.generation,
        deadline: update_time(op.drain, proto),
    });
}

proof fn lemma_after_keeps_deadlines(n: ManagerView, next: ApplyOpView, proto: Proto)
    requires
        n.entries.dom().contains(next.id),
    ensures
        ({
            let p = manager::run_after(n, next, proto);
            &&& p.manager.policy == n.policy
            &&& p.manager.entries.dom().contains(next.id) ==> p.manager.entries[next.id].drain
                == n.entries[next.id].drain
            &&& p.next matches NextView::More(o) ==> {
                &&& o.id == next.id
                &&& o.generation == next.generation
                &&& o.spec == next.spec
                &&& o.drain == next.drain
            }
        }),
{
    let t = manager::enter_slot(n, next, Proto::Udp);
    if asked(next.spec, Proto::Udp) {
        law_protocol_that_is_asked_for(n, next, Proto::Udp);
    } else {
        law_protocol_that_is_not_asked_for(n, next, Proto::Udp);
    }
    assert(t.manager.entries[next.id].drain == n.entries[next.id].drain);
}

/// Whether a step of an operation leaves it what it is, and the deadlines that were
/// recorded.
pub open spec fn stays(m: ManagerView, op: ApplyOpView, p: Progress) -> bool {
    &&& p.manager.policy == m.policy
    &&& p.manager.entries.dom().contains(op.id) ==> p.manager.entries[op.id].drain == m.entries[op.id].drain
    &&& p.next matches NextView::More(o) ==> {
        &&& o.id == op.id
        &&& o.generation == op.generation
        &&& o.spec == op.spec
        &&& o.drain == op.drain
    }
}

/// An operation stays with its endpoint, its generation, its rule and its
/// deadlines to the end, and leaves the deadlines that were recorded.
pub proof fn law_operation_stays_what_it_is(m: ManagerView, op: ApplyOpView, started: Result<Bound, Seq<char>>)
    requires
        m.entries.dom().contains(op.id),
    ensures
        stays(m, op, manager::apply_resumed(m, op, started)),
{
    let proto = busy_with(op);
    assert forall|s: SlotView, o: SlotOutcomeView|
        #![trigger m.with_slot(op.id, proto, Some(s)), op.outcomes.push(o)]
        stays(
            m,
            op,
            manager::run_after(
                m.with_slot(op.id, proto, Some(s)),
                ApplyOpView { outcomes: op.outcomes.push(o), ..op },
                proto,
            ),
        ) by {
        lemma_after_keeps_deadlines(
            m.with_slot(op.id, proto, Some(s)),
            ApplyOpView { outcomes: op.outcomes.push(o), ..op },
            proto,
        );
    }
    assert forall|o: SlotOutcomeView|
        #![trigger op.outcomes.push(o)]
        stays(m, op, manager::run_after(m, ApplyOpView { outcomes: op.outcomes.push(o), ..op }, proto)) by {
        lemma_after_keeps_deadlines(m, ApplyOpView { outcomes: op.outcomes.push(o), ..op }, proto);
    }
}

// ----------------------------------------------------- learning and removing --

/// A slot keeps everything when the tasks that ended are neither what it runs nor
/// what drains in it. When what it runs ended, it runs nothing and is failed, and
/// keeps the rest.
pub proof fn law_only_tasks_that_ended_matter(m: ManagerView, finished: Seq<TaskId>, id: Seq<char>, proto: Proto)
    ensures
        ({
            let n = manager::refreshed(m, finished);
            let s = slot_at(m, id, proto);
            let t = slot_at(n, id, proto);
            &&& n.policy == m.policy
            &&& n.entries.dom() == m.entries.dom()
            &&& m.entries.dom().contains(id) ==> n.entries[id].drain == m.entries[id].drain
            &&& s is None ==> t is None
            &&& s matches Some(s) ==> {
                let ended = s.active matches Some(a) && finished.contains(a.task);
                &&& t matches Some(t)
                &&& t.generation == s.generation && t.endpoint == s.endpoint && t.material == s.material && t.drain
                    == s.drain
                &&& ended ==> t.active is None && t.state == SlotStateView::Failed(
                    "serving task exited unexpectedly"@,
                )
                &&& !ended ==> t.active == s.active && t.state == s.state
                &&& forall|d: Draining|
                    #[trigger] t.draining.contains(d) <==> s.draining.contains(d) && !finished.contains(d.task)
                &&& (forall|i: int| 0 <= i < s.draining.len() ==> !finished.contains((#[trigger] s.draining[i]).task))
                    ==> t.draining == s.draining
            }
        }),
{
    let n = manager::refreshed(m, finished);
    assert(n.entries.dom() =~= m.entries.dom());
    if let Some(s) = slot_at(m, id, proto) {
        let keep = |d: Draining| !finished.contains(d.task);
        assert forall|d: Draining| #[trigger] s.draining.filter(keep).contains(d) <==> s.draining.contains(d)
            && !finished.contains(d.task) by {
            lemma_filter_member(s.draining, keep, d);
        }
        if forall|i: int| 0 <= i < s.draining.len() ==> !finished.contains((#[trigger] s.draining[i]).task) {
            lemma_filter_all(s.draining, keep);
        }
    }
}

proof fn lemma_filter_member(s: Seq<Draining>, keep: spec_fn(Draining) -> bool, d: Draining)
    ensures
        s.filter(keep).contains(d) <==> s.contains(d) && keep(d),
    decreases s.len(),
{
    reveal(Seq::filter);
    if s.len() > 0 {
        let t = s.drop_last();
        let f = t.filter(keep);
        lemma_filter_member(t, keep, d);
        assert(s =~= t.push(s.last()));
        assert(s.contains(d) <==> t.contains(d) || d == s.last()) by {
            if t.contains(d) {
                assert(s[t.index_of(d)] == d);
            }
            if s.contains(d) && d != s.last() {
                assert(t[s.index_of(d)] == d);
            }
            assert(s[s.len() - 1] == s.last());
        }
        if keep(s.last()) {
            let g = f.push(s.last());
            assert(g[f.len() as int] == s.last());
            if f.contains(d) {
                assert(g[f.index_of(d)] == d);
            }
            if g.contains(d) && d != s.last() {
                assert(f[g.index_of(d)] == d);
            }
        }
    }
}

proof fn lemma_filter_all(s: Seq<Draining>, keep: spec_fn(Draining) -> bool)
    requires
        forall|i: int| 0 <= i < s.len() ==> keep(#[trigger] s[i]),
    ensures
        s.filter(keep) == s,
    decreases s.len(),
{
    reveal(Seq::filter);
    if s.len() > 0 {
        lemma_filter_all(s.drop_last(), keep);
        assert(keep(s.last()));
        assert(s.drop_last().push(s.last()) =~= s);
    }
}

/// Removing an id reports each slot it has as deleted, tcp before udp, and forgets
/// the id alone. What it runs is stopped, then drains under its delete deadline;
/// nothing else is done. An id that is not known comes to nothing.
pub proof fn law_removing_an_id(m: ManagerView, id: Seq<char>, finished: Seq<TaskId>)
    ensures
        ({
            let n = manager::refreshed(m, finished);
            let x = manager::removed(m, id, finished);
            let tcp = slot_at(n, id, Proto::Tcp);
            let udp = slot_at(n, id, Proto::Udp);
            let deadline = n.entries[id].drain.on_delete;
            &&& x.manager.policy == n.policy
            &&& x.manager.entries == n.entries.remove(id)
            &&& x.outcomes == deleted(tcp, Proto::Tcp) + deleted(udp, Proto::Udp)
            &&& x.actions == let_go(tcp, deadline) + let_go(udp, deadline)
        }),
{
    let n = manager::refreshed(m, finished);
    let x = manager::removed(m, id, finished);
    if !n.entries.dom().contains(id) {
        assert(n.entries.remove(id) =~= n.entries);
        assert(x.outcomes =~= Seq::<SlotOutcomeView>::empty() + Seq::<SlotOutcomeView>::empty());
        assert(x.actions =~= Seq::<Action>::empty() + Seq::<Action>::empty());
    }
}

/// What is reported of a slot that is removed.
pub open spec fn deleted(s: Option<SlotView>, proto: Proto) -> Seq<SlotOutcomeView> {
    if s is Some {
        seq![SlotOutcomeView { proto, action: SlotAction::Deleted, error: None, retryable: None }]
    } else {
        Seq::empty()
    }
}

/// What is done about a slot that is removed.
pub open spec fn let_go(s: Option<SlotView>, deadline: Option<Duration>) -> Seq<Action> {
    if s is Some && s->0.active is Some {
        let a = s->0.active->0;
        seq![
            Action::Stop { task: a.task },
            Action::Drain { task: a.task, generation: a.generation, deadline },
        ]
    } else {
        Seq::empty()
    }
}

/// Stopping to accept turns what a slot runs into one more cohort that drains, and
/// keeps its rule and generation. A slot that runs nothing stays as it is, and so
/// does every other.
pub proof fn law_stopping_to_accept(m: ManagerView, id: Seq<char>, proto: Proto)
    ensures
        ({
            let n = manager::accept_stopped(m, id, proto);
            &&& agree_but(n, m, id, proto)
            &&& !is_up(m, id, proto) ==> n == m
            &&& is_up(m, id, proto) ==> {
                let s = slot_at(m, id, proto)->0;
                slot_at(n, id, proto) == Some(
                    SlotView {
                        state: SlotStateView::Draining,
                        active: None,
                        draining: s.draining.push(
                            Draining { generation: s.active->0.generation, task: s.active->0.task },
                        ),
                        ..s
                    },
                )
            }
        }),
{
    let n = manager::accept_stopped(m, id, proto);
    assert(m.slot(id, proto) == slot_at(m, id, proto));
    assert(n.entries.dom() =~= m.entries.dom());
}

/// Waiting for the drains of an id takes all its cohorts off the list, and changes
/// nothing else.
pub proof fn law_waiting_takes_the_cohorts_off(m: ManagerView, id: Seq<char>, k: Seq<char>, proto: Proto)
    ensures
        ({
            let n = manager::drains_taken(m, id);
            let s = slot_at(m, k, proto);
            &&& n.policy == m.policy
            &&& n.entries.dom() == m.entries.dom()
            &&& m.entries.dom().contains(k) ==> n.entries[k].drain == m.entries[k].drain
            &&& k != id || s is None ==> slot_at(n, k, proto) == s
            &&& k == id && s is Some ==> slot_at(n, k, proto) == Some(SlotView { draining: Seq::empty(), ..s->0 })
        }),
{
    assert(manager::drains_taken(m, id).entries.dom() =~= m.entries.dom());
}

// --------------------------------------------------------------- deadlines --

/// A rule that gives a delete deadline has its connections ended that many seconds
/// after it is deleted, whatever its update deadline is: applying the rule records
/// the deadline, the next step of the operation keeps it, and removing the rule
/// drains under it.
#[verifier::rlimit(30)]
pub proof fn law_deleted_rule_drains_under_its_own_deadline(
    c: EndpointConfView,
    x: Lookups,
    secs: u64,
    m: ManagerView,
    id: Seq<char>,
    generation: Generation,
    finished: Seq<TaskId>,
    started: Result<Bound, Seq<char>>,
    ended: Seq<TaskId>,
)
    requires
        endpoint::spec_of(c, x) is Ok,
        c.delete_drain_timeout == Some(secs),
        endpoint::spec_of(c, x)->Ok_0.tcp || endpoint::spec_of(c, x)->Ok_0.udp,
    ensures
        ({
            let spec = endpoint::spec_of(c, x)->Ok_0;
            let deadline = Some(Duration { secs, nanos: 0 });
            let p = manager::apply_begun(m, id, generation, spec, finished);
            let gone = manager::removed(p.manager, id, ended);
            &&& p.manager.entries.dom().contains(id)
            &&& p.manager.entries[id].drain.on_delete == deadline
            &&& p.next matches NextView::More(op) ==> {
                let q = manager::apply_resumed(p.manager, op, started);
                &&& op.drain.on_delete == deadline
                &&& q.manager.entries.dom().contains(id) ==> q.manager.entries[id].drain.on_delete == deadline
            }
            &&& forall|k: int|
                0 <= k < gone.actions.len() ==> ((#[trigger] gone.actions[k]) matches Action::Drain { deadline: d, .. }
                    ==> d == deadline)
        }),
{
    let spec = endpoint::spec_of(c, x)->Ok_0;
    let p = manager::apply_begun(m, id, generation, spec, finished);
    crate::conf::rule_laws::law_built_spec_has_every_field(c, x);
    law_applying_begins_with_the_first_protocol_to_start(m, id, generation, spec, finished);
    if let NextView::More(op) = p.next {
        law_operation_stays_what_it_is(p.manager, op, started);
    }
    law_only_tasks_that_ended_matter(p.manager, ended, id, Proto::Tcp);
    law_removing_an_id(p.manager, id, ended);
}

// ------------------------------------------------------------------ status --

/// The report of a task is one of that task, and there is none only if no report
/// is of that task.
pub proof fn law_report_is_of_the_task(reports: Seq<TaskReport>, task: TaskId)
    ensures
        manager::report_of(reports, task) matches Some(t) ==> t.task == task && reports.contains(t),
        manager::report_of(reports, task) is None ==> forall|i: int|
            0 <= i < reports.len() ==> (#[trigger] reports[i]).task != task,
    decreases reports.len(),
{
    if reports.len() > 0 && reports[0].task != task {
        let rest = reports.drop_first();
        law_report_is_of_the_task(rest, task);
        if let Some(t) = manager::report_of(rest, task) {
            let i = rest.index_of(t);
            assert(reports[i + 1] == t);
        } else {
            assert forall|i: int| 0 <= i < reports.len() implies (#[trigger] reports[i]).task != task by {
                if i > 0 {
                    assert(rest[i - 1] == reports[i]);
                }
            }
        }
    } else if reports.len() > 0 {
        assert(reports[0].task == task);
    }
}

/// The status of a slot shows its protocol, state and generation, the address that
/// what it runs is bound to with the connections that task reports, and for each
/// cohort its generation with what its own task reports. A task that reports
/// nothing is shown empty.
pub proof fn law_status_shows_the_slot(proto: Proto, s: SlotView, reports: Seq<TaskReport>)
    ensures
        ({
            let v = manager::slot_status(proto, s, reports);
            &&& v.proto == proto
            &&& v.state == s.state
            &&& v.generation == s.generation
            &&& s.active is None ==> v.laddr is None && v.connections == 0
            &&& s.active matches Some(a) ==> v.laddr == Some(a.laddr)
            &&& s.active matches Some(a) ==> (manager::report_of(reports, a.task) matches Some(t) ==> v.connections
                == t.connections)
            &&& s.active matches Some(a) ==> (manager::report_of(reports, a.task) is None ==> v.connections == 0)
            &&& v.draining.len() == s.draining.len()
            &&& forall|i: int|
                0 <= i < s.draining.len() ==> (#[trigger] v.draining[i]).generation == s.draining[i].generation && (
                manager::report_of(reports, s.draining[i].task) matches Some(t) ==> {
                    &&& v.draining[i].connections == t.connections
                    &&& v.draining[i].age == t.age
                    &&& v.draining[i].draining_for == t.draining_for
                }) && (manager::report_of(reports, s.draining[i].task) is None ==> {
                    &&& v.draining[i].connections == 0
                    &&& v.draining[i].age == Duration { secs: 0, nanos: 0 }
                    &&& v.draining[i].draining_for is None
                })
        }),
{
}

/// The status of an endpoint shows its id and each slot that it has, tcp before
/// udp.
pub proof fn law_status_shows_every_slot(id: Seq<char>, m: ManagerView, reports: Seq<TaskReport>)
    requires
        m.entries.dom().contains(id),
    ensures
        ({
            let v = manager::endpoint_status(id, m.entries[id], reports);
            let tcp = slot_at(m, id, Proto::Tcp);
            let udp = slot_at(m, id, Proto::Udp);
            &&& v.id == id
            &&& v.slots.len() == (if tcp is Some { 1int } else { 0 }) + (if udp is Some { 1int } else { 0 })
            &&& tcp is Some ==> v.slots[0] == manager::slot_status(Proto::Tcp, tcp->0, reports)
            &&& udp is Some ==> v.slots.last() == manager::slot_status(Proto::Udp, udp->0, reports)
        }),
{
}

/// The tasks to wait for are those of the cohorts that drain, in order.
pub proof fn law_tasks_to_wait_for(s: Option<SlotView>, i: int)
    ensures
        s is None ==> manager::drain_tasks(s).len() == 0,
        s matches Some(t) ==> manager::drain_tasks(s).len() == t.draining.len(),
        s matches Some(t) ==> (0 <= i < t.draining.len() ==> manager::drain_tasks(s)[i] == t.draining[i].task),
{
}

/// The protocols of a spec are those it asks for, tcp before udp.
pub proof fn law_protocols_of_a_spec(spec: EndpointSpecView)
    ensures
        spec.tcp && spec.udp ==> spec.protos() == seq![Proto::Tcp, Proto::Udp],
        spec.tcp && !spec.udp ==> spec.protos() == seq![Proto::Tcp],
        !spec.tcp && spec.udp ==> spec.protos() == seq![Proto::Udp],
        !spec.tcp && !spec.udp ==> spec.protos() == Seq::<Proto>::empty(),
        spec.wants(Proto::Tcp) == spec.tcp,
        spec.wants(Proto::Udp) == spec.udp,
{
    assert(spec.tcp && spec.udp ==> spec.protos() =~= seq![Proto::Tcp, Proto::Udp]);
    assert(spec.tcp && !spec.udp ==> spec.protos() =~= seq![Proto::Tcp]);
    assert(!spec.tcp && spec.udp ==> spec.protos() =~= seq![Proto::Udp]);
    assert(!spec.tcp && !spec.udp ==> spec.protos() =~= Seq::<Proto>::empty());
}

/// Unless it is told otherwise, the process never ends a connection for an update,
/// and ends it 30 seconds after a delete.
pub proof fn law_deadlines_of_the_process()
    ensures
        crate::lifecycle::types::default_policy() == (DrainPolicy {
            on_update: None,
            on_delete: Some(Duration { secs: 30, nanos: 0 }),
        }),
{
}

/// The deadlines of an id are those it was last applied with, and an id that is not
/// managed has none.
pub proof fn law_deadlines_of_an_id(m: ManagerView, id: Seq<char>)
    ensures
        m.entries.dom().contains(id) ==> manager::policy_of(m, id) == Some(m.entries[id].drain),
        !m.entries.dom().contains(id) ==> manager::policy_of(m, id) is None,
{
}

} // verus!
