//! Endpoints that exchange their addresses, and what becomes of the connections
//! they had.

use vstd::prelude::*;

use crate::lifecycle::follow_laws;
use crate::lifecycle::manager;
use crate::lifecycle::manager::{Action, Active, ApplyOpView, Bound, Draining, ManagerView, Route, SlotView, StageView};
use crate::lifecycle::manager_laws;
use crate::lifecycle::plan;
use crate::lifecycle::plan::{DesiredView, HandoverView, PlanView};
use crate::lifecycle::reconcile;
use crate::lifecycle::reconcile::{
    AnswerView, ApplyStageView, ApplyingView, GenerationState, PendingView, ReconcilerView, StepNext, StepView,
};
use crate::lifecycle::run_laws;
use crate::lifecycle::success_laws;
use crate::lifecycle::types::{EndpointSpecView, Generation, Proto, SlotOutcomeView, TaskId};
use crate::net::SocketAddr;

verus! {

// ----------------------------------------------------------------- cohorts --

/// A draining cohort is listed.
pub open spec fn lists_cohort(m: ManagerView, id: Seq<char>, proto: Proto, d: Draining) -> bool {
    m.slot(id, proto) matches Some(s) && s.draining.contains(d)
}

/// The cohort of a listener that was stopped.
pub open spec fn cohort_of(a: Active) -> Draining {
    Draining { generation: a.generation, task: a.task }
}

proof fn lemma_refresh_lists(m: ManagerView, finished: Seq<TaskId>, id: Seq<char>, proto: Proto, d: Draining)
    requires
        lists_cohort(m, id, proto, d),
        !finished.contains(d.task),
    ensures
        lists_cohort(manager::refreshed(m, finished), id, proto, d),
{
    crate::lifecycle::listener_laws::law_drained_cohort_disappears(m, finished, id, proto, d);
    assert(manager::refreshed(m, finished).slot(id, proto) == manager::refreshed_opt(m.slot(id, proto), finished));
}

proof fn lemma_sum_lists(a: Seq<Draining>, b: Seq<Draining>, d: Draining)
    requires
        a.contains(d),
    ensures
        (a + b).contains(d),
{
    let i = a.index_of(d);
    assert((a + b)[i] == d);
}

proof fn lemma_finish_lists(m: ManagerView, op: ApplyOpView, proto: Proto, d: Draining)
    requires
        m.entries.dom().contains(op.id),
        lists_cohort(m, op.id, proto, d),
    ensures
        lists_cohort(manager::finish(m, op).manager, op.id, proto, d),
{
    assert(!manager::spent(m.slot(op.id, proto)));
}

proof fn lemma_enter_lists(m: ManagerView, op: ApplyOpView, q: Proto, proto: Proto, d: Draining)
    requires
        m.entries.dom().contains(op.id),
        op.spec.wants(proto),
        lists_cohort(m, op.id, proto, d),
    ensures
        ({
            let t = manager::enter_slot(m, op, q);
            &&& t.manager.entries.dom().contains(op.id)
            &&& t.op.id == op.id
            &&& t.op.spec == op.spec
            &&& lists_cohort(t.manager, op.id, proto, d)
        }),
{
}

proof fn lemma_udp_lists(m: ManagerView, op: ApplyOpView, proto: Proto, d: Draining)
    requires
        m.entries.dom().contains(op.id),
        op.spec.wants(proto),
        lists_cohort(m, op.id, proto, d),
    ensures
        lists_cohort(manager::run_udp(m, op).manager, op.id, proto, d),
{
    lemma_enter_lists(m, op, Proto::Udp, proto, d);
    let t = manager::enter_slot(m, op, Proto::Udp);
    if !t.waiting {
        lemma_finish_lists(t.manager, t.op, proto, d);
    }
}

proof fn lemma_begun_lists(
    m: ManagerView,
    id: Seq<char>,
    generation: Generation,
    spec: EndpointSpecView,
    finished: Seq<TaskId>,
    proto: Proto,
    d: Draining,
)
    requires
        spec.wants(proto),
        lists_cohort(m, id, proto, d),
        !finished.contains(d.task),
    ensures
        lists_cohort(manager::apply_begun(m, id, generation, spec, finished).manager, id, proto, d),
{
    let r = manager::refreshed(m, finished);
    lemma_refresh_lists(m, finished, id, proto, d);
    let drain = match spec.drain {
        Some(d) => d,
        None => r.policy,
    };
    let op = ApplyOpView {
        id,
        generation,
        spec,
        drain,
        stage: StageView::Starting { proto: Proto::Tcp, route: Route::Fresh },
        outcomes: Seq::empty(),
    };
    let e = manager::enrolled(r, id, drain);
    assert(e.slot(id, proto) == r.slot(id, proto));
    lemma_enter_lists(e, op, Proto::Tcp, proto, d);
    let t = manager::enter_slot(e, op, Proto::Tcp);
    if !t.waiting {
        lemma_udp_lists(t.manager, t.op, proto, d);
    }
}

proof fn lemma_settle_lists(
    m: ManagerView,
    op: ApplyOpView,
    s: SlotView,
    o: SlotOutcomeView,
    actions: Seq<Action>,
    proto: Proto,
    d: Draining,
)
    requires
        m.entries.dom().contains(op.id),
        op.spec.wants(proto),
        lists_cohort(m, op.id, proto, d),
        manager_laws::busy_with(op) == proto ==> s.draining.contains(d),
    ensures
        lists_cohort(
            manager::settle(m, op, manager_laws::busy_with(op), s, o, actions).manager,
            op.id,
            proto,
            d,
        ),
{
    let busy = manager_laws::busy_with(op);
    let n = m.with_slot(op.id, busy, Some(s));
    let next = ApplyOpView { outcomes: op.outcomes.push(o), ..op };
    assert(n.slot(op.id, proto) == if busy == proto {
        Some(s)
    } else {
        m.slot(op.id, proto)
    });
    match busy {
        Proto::Tcp => lemma_udp_lists(n, next, proto, d),
        Proto::Udp => lemma_finish_lists(n, next, proto, d),
    }
}

#[verifier::rlimit(30)]
proof fn lemma_resumed_lists(
    m: ManagerView,
    op: ApplyOpView,
    started: Result<Bound, Seq<char>>,
    proto: Proto,
    d: Draining,
)
    requires
        m.entries.dom().contains(op.id),
        op.spec.wants(proto),
        lists_cohort(m, op.id, proto, d),
    ensures
        lists_cohort(manager::apply_resumed(m, op, started).manager, op.id, proto, d),
{
    let busy = manager_laws::busy_with(op);
    assert forall|s: SlotView, o: SlotOutcomeView, actions: Seq<Action>|
        busy == proto ==> s.draining.contains(d) implies lists_cohort(
        (#[trigger] manager::settle(m, op, busy, s, o, actions)).manager,
        op.id,
        proto,
        d,
    ) by {
        lemma_settle_lists(m, op, s, o, actions, proto, d);
    }
    assert forall|o: SlotOutcomeView| lists_cohort(
        (#[trigger] manager::run_after(m, ApplyOpView { outcomes: op.outcomes.push(o), ..op }, busy)).manager,
        op.id,
        proto,
        d,
    ) by {
        let next = ApplyOpView { outcomes: op.outcomes.push(o), ..op };
        match busy {
            Proto::Tcp => lemma_udp_lists(m, next, proto, d),
            Proto::Udp => lemma_finish_lists(m, next, proto, d),
        }
    }
    if busy == proto {
        let held = m.slot(op.id, proto)->0.draining;
        assert(held + Seq::<Draining>::empty() =~= held);
        assert forall|more: Seq<Draining>| (#[trigger] (held + more)).contains(d) by {
            lemma_sum_lists(held, more, d);
        }
    }
}

/// A cohort that drains is listed after each step of a generation that keeps its
/// protocol and meets no failure, until it is known to have ended.
pub proof fn law_cohort_stays_listed<V>(
    r: ReconcilerView<V>,
    a: ApplyingView<V>,
    answer: AnswerView<V>,
    id: Seq<char>,
    proto: Proto,
    d: Draining,
)
    requires
        success_laws::on_course(r, a),
        lists_cohort(r.manager, id, proto, d),
        a.plans[id].target() matches Some(built) && built.wants(proto),
        answer matches AnswerView::Polled(finished) ==> !finished.contains(d.task),
    ensures
        lists_cohort(reconcile::applying_resumed(r, a, answer).reconciler.manager, id, proto, d),
{
    let m = r.manager;
    let c = reconcile::current(a);
    let b = ApplyingView { stage: ApplyStageView::Polling, ..a };
    match (a.stage, answer) {
        (ApplyStageView::Polling, AnswerView::Polled(finished)) => {
            let n = manager::refreshed(m, finished);
            lemma_refresh_lists(m, finished, id, proto, d);
            match a.plans[c] {
                PlanView::Delete => {
                    let x = manager::removed(m, c, finished);
                    assert(x.manager.entries.remove(c) =~= n.entries.remove(c));
                    success_laws::lemma_elsewhere(n, x.manager, c, id);
                    assert(x.manager.slot(id, proto) == n.slot(id, proto));
                },
                _ => {
                    let built = a.plans[c].target()->0;
                    let p = manager::apply_begun(m, c, a.generation, built, finished);
                    success_laws::lemma_progress_manager(r, b, p);
                    if c == id {
                        lemma_begun_lists(m, id, a.generation, built, finished, proto, d);
                    } else {
                        manager_laws::law_apply_touches_one_id(m, c, a.generation, built, finished);
                        success_laws::lemma_elsewhere(n, p.manager, c, id);
                        assert(p.manager.slot(id, proto) == n.slot(id, proto));
                    }
                },
            }
        },
        (ApplyStageView::Starting(op), AnswerView::Started(started)) => {
            let p = manager::apply_resumed(m, op, started);
            success_laws::lemma_progress_manager(r, b, p);
            if c == id {
                lemma_resumed_lists(m, op, started, proto, d);
            } else {
                manager_laws::law_resume_touches_one_id(m, op, started);
                success_laws::lemma_elsewhere(m, p.manager, c, id);
                assert(p.manager.slot(id, proto) == m.slot(id, proto));
            }
        },
        _ => {},
    }
}

#[verifier::rlimit(30)]
proof fn lemma_run_lists<V>(
    a: ApplyingView<V>,
    x: StepView<V>,
    answers: Seq<AnswerView<V>>,
    id: Seq<char>,
    proto: Proto,
    d: Draining,
)
    requires
        success_laws::step_on_course(a, x),
        success_laws::calm_run(x, answers),
        lists_cohort(x.reconciler.manager, id, proto, d),
        a.plans[id].target() matches Some(built) && built.wants(proto),
        follow_laws::never_ends(answers, d.task),
    ensures
        lists_cohort(run_laws::run(x, answers).reconciler.manager, id, proto, d),
    decreases answers.len(),
{
    reveal(run_laws::answered);
    if answers.len() > 0 {
        if let StepNext::More(PendingView::Applying(b)) = x.next {
            assert(answers[0] matches AnswerView::Polled(finished) ==> !finished.contains(d.task));
            law_cohort_stays_listed(x.reconciler, b, answers[0], id, proto, d);
            success_laws::law_step_stays_on_course(x.reconciler, b, answers[0]);
            let rest = answers.drop_first();
            assert forall|i: int| 0 <= i < rest.len() implies ((#[trigger] rest[i]) matches AnswerView::Polled(finished)
                ==> !finished.contains(d.task)) by {
                assert(rest[i] == answers[i + 1]);
            }
            lemma_run_lists(
                b,
                reconcile::applying_resumed(x.reconciler, b, answers[0]),
                rest,
                id,
                proto,
                d,
            );
        }
    }
}

// ---------------------------------------------------------------- handovers --

/// A listener is among the first `n` handovers.
spec fn handed(hs: Seq<HandoverView>, n: int, id: Seq<char>, proto: Proto) -> bool {
    exists|i: int| 0 <= i < n && (#[trigger] hs[i]).id == id && hs[i].proto == proto
}

proof fn lemma_handed_over_drains(m: ManagerView, hs: Seq<HandoverView>, n: int, id: Seq<char>, proto: Proto)
    requires
        0 <= n <= hs.len(),
        m.active(id, proto) is Some,
    ensures
        ({
            let x = plan::released(m, hs, n).manager;
            if handed(hs, n, id, proto) {
                x.active(id, proto) is None && lists_cohort(x, id, proto, cohort_of(m.active(id, proto)->0))
            } else {
                x.slot(id, proto) == m.slot(id, proto)
            }
        }),
    decreases n,
{
    if n > 0 {
        lemma_handed_over_drains(m, hs, n - 1, id, proto);
        let before = plan::released(m, hs, n - 1).manager;
        let h = hs[n - 1];
        let own = h.id == id && h.proto == proto;
        if handed(hs, n - 1, id, proto) {
            let i = choose|i: int| 0 <= i < n - 1 && (#[trigger] hs[i]).id == id && hs[i].proto == proto;
            assert(hs[i].id == id && hs[i].proto == proto);
            assert(handed(hs, n, id, proto));
        } else if own {
            assert(handed(hs, n, id, proto));
            let s = before.slot(id, proto)->0;
            let d = cohort_of(m.active(id, proto)->0);
            assert(s.draining.push(d)[s.draining.len() as int] == d);
        } else {
            assert(!handed(hs, n, id, proto)) by {
                if handed(hs, n, id, proto) {
                    let i = choose|i: int| 0 <= i < n && (#[trigger] hs[i]).id == id && hs[i].proto == proto;
                    assert(i < n - 1);
                }
            }
        }
    }
}

proof fn lemma_room_drains(
    m: ManagerView,
    plans: Map<Seq<char>, PlanView>,
    id: Seq<char>,
    proto: Proto,
)
    requires
        crate::idmap::lists(crate::idmap::in_order(plans.dom()), plans.dom()),
        plans.dom().contains(id),
        m.active(id, proto) is Some,
        plan::handed_over(m, plans, id, proto),
    ensures
        plan::all_released(m, plans).manager.active(id, proto) is None,
        lists_cohort(
            plan::all_released(m, plans).manager,
            id,
            proto,
            cohort_of(m.active(id, proto)->0),
        ),
{
    let order = crate::idmap::in_order(plans.dom());
    let hs = plan::handovers(m, plans, order, order.len() as int);
    assert(order.contains(id));
    let at = order.index_of(id);
    let i = run_laws::lemma_handover_listed(m, plans, order, order.len() as int, at, proto);
    assert(hs[i].id == id && hs[i].proto == proto);
    assert(handed(hs, hs.len() as int, id, proto));
    lemma_handed_over_drains(m, hs, hs.len() as int, id, proto);
}

// ----------------------------------------------------------------- exchange --

/// Two endpoints that serve one protocol at two addresses.
pub open spec fn apart(
    m: ManagerView,
    a: Seq<char>,
    b: Seq<char>,
    proto: Proto,
    x: SocketAddr,
    y: SocketAddr,
) -> bool {
    &&& a != b
    &&& x != y
    &&& m.serving(a, proto) matches Some(e) && e.laddr == x
    &&& m.serving(b, proto) matches Some(e) && e.laddr == y
}

/// A spec for one protocol at an address.
pub open spec fn only_at(spec: EndpointSpecView, proto: Proto, laddr: SocketAddr) -> bool {
    &&& spec.wants(proto)
    &&& !spec.wants(follow_laws::sibling(proto))
    &&& spec.endpoint.laddr == laddr
}

proof fn lemma_no_incumbent(
    m: ManagerView,
    plans: Map<Seq<char>, PlanView>,
    order: Seq<Seq<char>>,
    n: int,
    laddr: SocketAddr,
    proto: Proto,
)
    requires
        0 <= n <= order.len(),
        forall|j: int| 0 <= j < order.len() ==> !(plans[#[trigger] order[j]] is Unchanged),
    ensures
        plan::incumbent(m, plans, order, n, laddr, proto) is None,
    decreases n,
{
    if n > 0 {
        lemma_no_incumbent(m, plans, order, n - 1, laddr, proto);
        assert(!(plans[order[n - 1]] is Unchanged));
    }
}

/// What two endpoints are to become that exchange their addresses.
pub open spec fn exchanging<V>(
    r: ReconcilerView<V>,
    endpoints: Seq<DesiredView<V>>,
    builds: Seq<Result<EndpointSpecView, Seq<char>>>,
    proto: Proto,
    x: SocketAddr,
    y: SocketAddr,
) -> bool {
    &&& endpoints.len() == 2
    &&& builds.len() == 2
    &&& apart(r.manager, endpoints[0].id, endpoints[1].id, proto, x, y)
    &&& builds[0] matches Ok(built) && only_at(built, proto, y)
    &&& builds[1] matches Ok(built) && only_at(built, proto, x)
    &&& forall|i: int|
        0 <= i < 2 ==> r.applied.dom().contains((#[trigger] endpoints[i]).id) && r.applied[endpoints[i].id]
            != endpoints[i].spec
}

#[verifier::rlimit(30)]
proof fn lemma_exchange_is_planned<V>(
    r: ReconcilerView<V>,
    endpoints: Seq<DesiredView<V>>,
    builds: Seq<Result<EndpointSpecView, Seq<char>>>,
    proto: Proto,
    x: SocketAddr,
    y: SocketAddr,
)
    requires
        exchanging(r, endpoints, builds, proto, x, y),
    ensures
        ({
            let unref = Map::<Seq<char>, Seq<char>>::empty();
            let plans = reconcile::final_plans(r, endpoints, unref, builds);
            &&& plans.dom().contains(endpoints[0].id)
            &&& plans.dom().contains(endpoints[1].id)
            &&& plans[endpoints[0].id] == PlanView::Replace { built: builds[0]->Ok_0 }
            &&& plans[endpoints[1].id] == PlanView::Replace { built: builds[1]->Ok_0 }
            &&& success_laws::all_sound(plans)
        }),
{
    let m = r.manager;
    let unref = Map::<Seq<char>, Seq<char>>::empty();
    let a = endpoints[0].id;
    let b = endpoints[1].id;
    let ba = builds[0]->Ok_0;
    let bb = builds[1]->Ok_0;
    let alone = plan::plans_of(m, r.applied, endpoints, unref, builds);
    let plans = reconcile::final_plans(r, endpoints, unref, builds);
    let order = crate::idmap::in_order(alone.dom());
    assert(plan::occurs(endpoints, a)) by {
        assert(endpoints[0].id == a);
    }
    assert(plan::occurs(endpoints, b)) by {
        assert(endpoints[1].id == b);
    }
    plan::lemma_first(endpoints, a);
    plan::lemma_first(endpoints, b);
    assert(plan::first(endpoints, a) == 0);
    assert(plan::first(endpoints, b) == 1) by {
        assert(endpoints[0].id != b);
    }
    assert(!plan::repeated(endpoints, a) && !plan::repeated(endpoints, b));
    assert(alone[a] == PlanView::Replace { built: ba });
    assert(alone[b] == PlanView::Replace { built: bb });
    assert forall|k: Seq<char>| #[trigger] alone.dom().contains(k) implies k == a || k == b by {
        let i = choose|i: int| 0 <= i < endpoints.len() && (#[trigger] endpoints[i]).id == k;
        assert(i == 0 || i == 1);
    }
    assert(alone.dom() =~= Set::<Seq<char>>::empty().insert(a).insert(b));
    crate::idmap::lemma_finite_in_order(alone.dom());
    assert forall|j: int| 0 <= j < order.len() implies !(alone[#[trigger] order[j]] is Unchanged) by {
        assert(order.contains(order[j]));
        assert(alone.dom().contains(order[j]));
    }
    assert forall|k: Seq<char>, q: Proto| alone.dom().contains(k) implies #[trigger] plan::listen_error(
        m,
        alone,
        order,
        k,
        q,
    ) is None by {
        let built = alone[k].target()->0;
        let laddr = built.endpoint.laddr;
        lemma_no_incumbent(m, alone, order, order.len() as int, laddr, q);
        if built.wants(q) {
            assert(q == proto);
            assert(!plan::contested(alone, k, laddr, q)) by {
                if plan::contested(alone, k, laddr, q) {
                    let other = choose|other: Seq<char>|
                        other != k && #[trigger] alone.dom().contains(other) && alone[other].binds(laddr, q);
                    assert(other == a || other == b);
                }
            }
        }
    }
    assert(plan::listen_error(m, alone, order, a, Proto::Tcp) is None);
    assert(plan::listen_error(m, alone, order, a, Proto::Udp) is None);
    assert(plan::listen_error(m, alone, order, b, Proto::Tcp) is None);
    assert(plan::listen_error(m, alone, order, b, Proto::Udp) is None);
    assert(plans[a] == alone[a]);
    assert(plans[b] == alone[b]);
    assert forall|k: Seq<char>| #[trigger] plans.dom().contains(k) implies success_laws::sound_plan(plans[k]) by {
        if alone.dom().contains(k) {
            assert(k == a || k == b);
        }
    }
}

/// Two endpoints that serve at `x` and `y` and are to serve at `y` and `x` can
/// exchange their addresses in one generation. Before anything is bound neither
/// listens anymore, so neither address is in use by them; what they had accepted
/// drains. When every listener can be started and none ends on its own, the
/// generation is applied in full, and each serves what was built for it. A cohort
/// of connections from before is still listed at the end, unless it has ended.
pub proof fn law_addresses_can_be_exchanged<V>(
    r: ReconcilerView<V>,
    generation: Generation,
    submitted: Seq<DesiredView<V>>,
    endpoints: Seq<DesiredView<V>>,
    builds: Seq<Result<EndpointSpecView, Seq<char>>>,
    answers: Seq<AnswerView<V>>,
    proto: Proto,
    x: SocketAddr,
    y: SocketAddr,
    i: int,
)
    requires
        r.manager.entries.dom().finite(),
        exchanging(r, endpoints, builds, proto, x, y),
        0 <= i < 2,
        ({
            let unref = Map::<Seq<char>, Seq<char>>::empty();
            success_laws::calm_run(
                reconcile::planned(r, generation, submitted, endpoints, unref, builds),
                answers,
            )
        }),
    ensures
        ({
            let unref = Map::<Seq<char>, Seq<char>>::empty();
            let id = endpoints[i].id;
            let old_cohort = cohort_of(r.manager.active(id, proto)->0);
            let s = reconcile::planned(r, generation, submitted, endpoints, unref, builds);
            let z = run_laws::run(s, answers);
            &&& s.reconciler.manager.active(id, proto) is None
            &&& lists_cohort(s.reconciler.manager, id, proto, old_cohort)
            &&& z.next matches StepNext::Applied(response) ==> {
                &&& response.state == GenerationState::Applied
                &&& success_laws::brought(z.reconciler.manager, id, builds[i]->Ok_0, proto)
                &&& follow_laws::never_ends(answers, old_cohort.task) ==> lists_cohort(
                    z.reconciler.manager,
                    id,
                    proto,
                    old_cohort,
                )
            }
            &&& z.next is Applied || z.next is More
        }),
{
    let m = r.manager;
    let unref = Map::<Seq<char>, Seq<char>>::empty();
    let a = endpoints[0].id;
    let b = endpoints[1].id;
    let id = endpoints[i].id;
    let plans = reconcile::final_plans(r, endpoints, unref, builds);
    lemma_exchange_is_planned(r, endpoints, builds, proto, x, y);
    run_laws::lemma_plans_finite(r, endpoints, unref, builds);
    crate::idmap::lemma_finite_in_order(plans.dom());
    assert(plans[a].binds(y, proto) && plans[b].binds(x, proto));
    assert(m.serving(a, proto)->0.laddr == x && m.serving(b, proto)->0.laddr == y);
    assert(plan::wanted(m, plans, y, proto));
    assert(plan::wanted(m, plans, x, proto));
    assert(plan::leaving(m, plans[a], a));
    assert(plan::leaving(m, plans[b], b));
    assert(plan::handed_over(m, plans, id, proto));
    assert(m.active(id, proto) is Some);
    lemma_room_drains(m, plans, id, proto);
    let room = plan::all_released(m, plans);
    let first = run_laws::first_stage(generation, submitted, endpoints, unref, builds, plans, room.released);
    let s = reconcile::planned(r, generation, submitted, endpoints, unref, builds);
    run_laws::lemma_proceed(ReconcilerView { manager: room.manager, ..r }, first);
    success_laws::lemma_planned_on_course(r, generation, submitted, endpoints, unref, builds);
    success_laws::law_generation_is_applied_in_full(
        r,
        generation,
        submitted,
        endpoints,
        unref,
        builds,
        answers,
        id,
    );
    let old_cohort = cohort_of(m.active(id, proto)->0);
    if follow_laws::never_ends(answers, old_cohort.task) {
        lemma_run_lists(first, s, answers, id, proto, old_cohort);
    }
}

} // verus!
