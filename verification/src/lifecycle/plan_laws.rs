//! What a generation plans, said of what is submitted and of what is served.

use vstd::prelude::*;

use crate::lifecycle::manager;
use crate::lifecycle::manager::{Action, Draining, ManagerView, SlotView};
use crate::lifecycle::plan;
use crate::lifecycle::plan::{DesiredView, HandoverView, PlanView};
use crate::lifecycle::reconcile;
use crate::lifecycle::reconcile::ReconcilerView;
use crate::lifecycle::types::{EndpointSpecView, Proto, SlotStateView};
use crate::net;
use crate::net::SocketAddr;
use crate::time::Duration;

verus! {

// -------------------------------------------------------------- vocabulary --

/// Whether a rule asks for a protocol at an address.
pub open spec fn asks(built: EndpointSpecView, proto: Proto, laddr: SocketAddr) -> bool {
    &&& proto == Proto::Tcp ==> built.tcp
    &&& proto == Proto::Udp ==> built.udp
    &&& built.endpoint.laddr == laddr
}

/// Whether a plan is to bring up a listener for a protocol at an address.
pub open spec fn to_listen(plan: PlanView, proto: Proto, laddr: SocketAddr) -> bool {
    match plan {
        PlanView::Start { built } => asks(built, proto, laddr),
        PlanView::Replace { built } => asks(built, proto, laddr),
        _ => false,
    }
}

/// What is kept of a protocol of an id.
pub open spec fn slot_at(m: ManagerView, id: Seq<char>, proto: Proto) -> Option<SlotView> {
    if !m.entries.dom().contains(id) {
        None
    } else if proto == Proto::Tcp {
        m.entries[id].tcp
    } else {
        m.entries[id].udp
    }
}

/// Whether an id is served for a protocol.
pub open spec fn is_up(m: ManagerView, id: Seq<char>, proto: Proto) -> bool {
    slot_at(m, id, proto) matches Some(s) && s.active is Some
}

/// Whether an id is served for a protocol at an address.
pub open spec fn listens(m: ManagerView, id: Seq<char>, proto: Proto, laddr: SocketAddr) -> bool {
    slot_at(m, id, proto) matches Some(s) && s.active is Some && s.endpoint.laddr == laddr
}

/// Whether an id may not listen at an address: another id is to bring up a
/// listener there, or stays as it is and has one there.
pub open spec fn clash(
    m: ManagerView,
    alone: Map<Seq<char>, PlanView>,
    id: Seq<char>,
    proto: Proto,
    laddr: SocketAddr,
) -> bool {
    exists|other: Seq<char>|
        other != id && #[trigger] alone.dom().contains(other) && (to_listen(alone[other], proto, laddr) || (
        alone[other] is Unchanged && listens(m, other, proto, laddr)))
}

/// How a protocol is named in messages.
pub open spec fn name_of(proto: Proto) -> Seq<char> {
    match proto {
        Proto::Tcp => "tcp"@,
        Proto::Udp => "udp"@,
    }
}

proof fn lemma_names(m: ManagerView, id: Seq<char>, proto: Proto)
    ensures
        m.slot(id, proto) == slot_at(m, id, proto),
        m.serving(id, proto) is Some == is_up(m, id, proto),
        m.serving(id, proto) matches Some(e) ==> e == slot_at(m, id, proto)->0.endpoint,
        m.active(id, proto) is Some == is_up(m, id, proto),
{
}

// -------------------------------------------------------------- each alone --

/// An id that is submitted once, and whose description could be refreshed and
/// built, is started if nothing is applied for it. Otherwise it is left as it is
/// if it is applied as described and up for each protocol it asks for, and
/// replaced if not.
pub proof fn law_good_description_on_its_own<V>(
    m: ManagerView,
    applied: Map<Seq<char>, V>,
    eps: Seq<DesiredView<V>>,
    unref: Map<Seq<char>, Seq<char>>,
    builds: Seq<Result<EndpointSpecView, Seq<char>>>,
    i: int,
    built: EndpointSpecView,
)
    requires
        0 <= i < eps.len(),
        i < builds.len(),
        forall|j: int| 0 <= j < eps.len() && j != i ==> (#[trigger] eps[j]).id != eps[i].id,
        !unref.dom().contains(eps[i].id),
        builds[i] == Ok::<EndpointSpecView, Seq<char>>(built),
    ensures
        ({
            let id = eps[i].id;
            let p = plan::plans_of(m, applied, eps, unref, builds)[id];
            let up = (built.tcp ==> is_up(m, id, Proto::Tcp)) && (built.udp ==> is_up(m, id, Proto::Udp));
            let same = applied.dom().contains(id) && applied[id] == eps[i].spec;
            &&& plan::plans_of(m, applied, eps, unref, builds).dom().contains(id)
            &&& !applied.dom().contains(id) ==> p == (PlanView::Start { built })
            &&& same && up ==> p == PlanView::Unchanged
            &&& applied.dom().contains(id) && !(same && up) ==> p == (PlanView::Replace { built })
        }),
{
    let id = eps[i].id;
    assert(plan::occurs(eps, id));
    plan::lemma_first(eps, id);
    assert(plan::first(eps, id) == i);
    assert(!plan::repeated(eps, id));
    lemma_names(m, id, Proto::Tcp);
    lemma_names(m, id, Proto::Udp);
    assert(built.wants(Proto::Tcp) == built.tcp);
    assert(built.wants(Proto::Udp) == built.udp);
    assert(plan::all_running(m, id, built) == ((built.tcp ==> is_up(m, id, Proto::Tcp)) && (built.udp ==> is_up(
        m,
        id,
        Proto::Udp,
    ))));
}

/// An id that is submitted twice is refused, whatever is submitted for it. One
/// that is submitted once and could not be refreshed or built is refused for that
/// reason. Nothing of the other endpoints matters to this.
pub proof fn law_bad_description_is_refused<V>(
    r: ReconcilerView<V>,
    eps: Seq<DesiredView<V>>,
    unref: Map<Seq<char>, Seq<char>>,
    builds: Seq<Result<EndpointSpecView, Seq<char>>>,
    i: int,
)
    requires
        0 <= i < eps.len(),
        i < builds.len(),
    ensures
        ({
            let id = eps[i].id;
            let p = reconcile::final_plans(r, eps, unref, builds)[id];
            let twice = exists|j: int| 0 <= j < eps.len() && j != i && (#[trigger] eps[j]).id == id;
            &&& reconcile::final_plans(r, eps, unref, builds).dom().contains(id)
            &&& twice ==> p == (PlanView::Invalid {
                error: "duplicate endpoint id `"@ + id + "` in one generation"@,
            })
            &&& !twice && unref.dom().contains(id) ==> p == (PlanView::Invalid { error: unref[id] })
            &&& !twice && !unref.dom().contains(id) ==> (builds[i] matches Err(error) ==> p == PlanView::Invalid {
                error,
            })
        }),
{
    let id = eps[i].id;
    let alone = plan::plans_of(r.manager, r.applied, eps, unref, builds);
    assert(plan::occurs(eps, id));
    assert(alone.dom().contains(id));
    if exists|j: int| 0 <= j < eps.len() && j != i && (#[trigger] eps[j]).id == id {
        let j = choose|j: int| 0 <= j < eps.len() && j != i && (#[trigger] eps[j]).id == id;
        if i < j {
            assert(eps[i].id == id && eps[j].id == id);
        } else {
            assert(eps[j].id == id && eps[i].id == id);
        }
        assert(plan::repeated(eps, id));
    } else {
        plan::lemma_first(eps, id);
        assert(plan::first(eps, id) == i);
        assert(!plan::repeated(eps, id));
    }
}

/// An id that is submitted once, and whose description nobody answered for, is
/// refused.
pub proof fn law_unanswered_description_is_refused<V>(
    r: ReconcilerView<V>,
    eps: Seq<DesiredView<V>>,
    unref: Map<Seq<char>, Seq<char>>,
    builds: Seq<Result<EndpointSpecView, Seq<char>>>,
    i: int,
)
    requires
        builds.len() <= i < eps.len(),
        forall|j: int| 0 <= j < eps.len() && j != i ==> (#[trigger] eps[j]).id != eps[i].id,
        !unref.dom().contains(eps[i].id),
    ensures
        reconcile::final_plans(r, eps, unref, builds)[eps[i].id] == (PlanView::Invalid {
            error: "building the endpoint failed: no answer"@,
        }),
{
    let id = eps[i].id;
    let alone = plan::plans_of(r.manager, r.applied, eps, unref, builds);
    assert(plan::occurs(eps, id));
    assert(alone.dom().contains(id));
    plan::lemma_first(eps, id);
    assert(plan::first(eps, id) == i);
    assert(!plan::repeated(eps, id));
}

// --------------------------------------------------------- held against others --

proof fn lemma_incumbent(
    m: ManagerView,
    plans: Map<Seq<char>, PlanView>,
    order: Seq<Seq<char>>,
    n: int,
    laddr: SocketAddr,
    proto: Proto,
)
    requires
        0 <= n <= order.len(),
    ensures
        plan::incumbent(m, plans, order, n, laddr, proto) matches Some(x) ==> order.contains(x) && plans[x] is Unchanged
            && listens(m, x, proto, laddr),
        plan::incumbent(m, plans, order, n, laddr, proto) is None ==> forall|j: int|
            0 <= j < n ==> !(plans[#[trigger] order[j]] is Unchanged && listens(m, order[j], proto, laddr)),
    decreases n,
{
    if n > 0 {
        lemma_incumbent(m, plans, order, n - 1, laddr, proto);
        lemma_names(m, order[n - 1], proto);
        assert(plan::holds(m, plans, order[n - 1], laddr, proto) == (plans[order[n - 1]] is Unchanged && listens(
            m,
            order[n - 1],
            proto,
            laddr,
        )));
    }
}

proof fn lemma_binds(p: PlanView, laddr: SocketAddr, proto: Proto)
    ensures
        p.binds(laddr, proto) == to_listen(p, proto, laddr),
{
}

/// Why an endpoint is refused for its address: what it is told.
pub open spec fn told_why(
    m: ManagerView,
    alone: Map<Seq<char>, PlanView>,
    id: Seq<char>,
    proto: Proto,
    laddr: SocketAddr,
    error: Seq<char>,
) -> bool {
    let head = "duplicate listen address "@ + net::addr_text(laddr) + " for "@ + name_of(proto);
    let rival = exists|other: Seq<char>|
        other != id && #[trigger] alone.dom().contains(other) && to_listen(alone[other], proto, laddr);
    &&& rival ==> error == head + " in one generation"@
    &&& !rival ==> exists|other: Seq<char>|
        #[trigger] alone.dom().contains(other) && alone[other] is Unchanged && listens(m, other, proto, laddr) && error
            == head + ": already served by endpoint `"@ + other + "`"@
}

proof fn lemma_listen_error(
    m: ManagerView,
    alone: Map<Seq<char>, PlanView>,
    id: Seq<char>,
    built: EndpointSpecView,
    proto: Proto,
)
    requires
        alone.dom().finite(),
        alone.dom().contains(id),
        alone[id] == (PlanView::Start { built }) || alone[id] == (PlanView::Replace { built }),
    ensures
        ({
            let e = plan::listen_error(m, alone, crate::idmap::in_order(alone.dom()), id, proto);
            let laddr = built.endpoint.laddr;
            &&& e is Some <==> asks(built, proto, laddr) && clash(m, alone, id, proto, laddr)
            &&& e matches Some(error) ==> told_why(m, alone, id, proto, laddr, error)
        }),
{
    let order = crate::idmap::in_order(alone.dom());
    let laddr = built.endpoint.laddr;
    crate::idmap::lemma_finite_in_order(alone.dom());
    lemma_incumbent(m, alone, order, order.len() as int, laddr, proto);
    assert forall|other: Seq<char>| #[trigger] alone.dom().contains(other) implies alone[other].binds(laddr, proto)
        == to_listen(alone[other], proto, laddr) by {
        lemma_binds(alone[other], laddr, proto);
    }
    assert(built.wants(proto) == asks(built, proto, laddr));
    let rival = exists|other: Seq<char>|
        other != id && #[trigger] alone.dom().contains(other) && to_listen(alone[other], proto, laddr);
    assert(plan::contested(alone, id, laddr, proto) == rival);
    match plan::incumbent(m, alone, order, order.len() as int, laddr, proto) {
        Some(x) => {
            assert(order.contains(x));
            assert(alone.dom().contains(x));
            assert(x != id);
            assert(clash(m, alone, id, proto, laddr));
        },
        None => {
            if clash(m, alone, id, proto, laddr) && !rival {
                let other = choose|other: Seq<char>|
                    other != id && #[trigger] alone.dom().contains(other) && (to_listen(alone[other], proto, laddr) || (
                    alone[other] is Unchanged && listens(m, other, proto, laddr)));
                assert(order.contains(other));
                let j = order.index_of(other);
                assert(order[j] == other);
                assert(false);
            }
        },
    }
}

proof fn lemma_submitted_is_finite<V>(
    m: ManagerView,
    applied: Map<Seq<char>, V>,
    eps: Seq<DesiredView<V>>,
    unref: Map<Seq<char>, Seq<char>>,
    builds: Seq<Result<EndpointSpecView, Seq<char>>>,
)
    ensures
        plan::plans_of(m, applied, eps, unref, builds).dom().finite(),
{
    let ids = plan::plans_of(m, applied, eps, unref, builds).dom();
    let names = Seq::new(eps.len(), |i: int| eps[i].id);
    vstd::seq_lib::seq_to_set_is_finite(names);
    assert forall|id: Seq<char>| #[trigger] ids.contains(id) implies names.to_set().contains(id) by {
        let i = choose|i: int| 0 <= i < eps.len() && (#[trigger] eps[i]).id == id;
        assert(names[i] == id);
    }
    vstd::set_lib::lemma_set_subset_finite(names.to_set(), ids);
}

/// An endpoint that is to be started or replaced is refused exactly if another
/// endpoint of the submission is to listen, or stays as it is and listens, at
/// the very same address for a protocol that it asks for. It is told which
/// address and protocol that is, and who is in the way if that endpoint stays. If
/// it is not refused its plan stands, and so does any other plan.
pub proof fn law_refused_exactly_on_a_clash<V>(
    r: ReconcilerView<V>,
    eps: Seq<DesiredView<V>>,
    unref: Map<Seq<char>, Seq<char>>,
    builds: Seq<Result<EndpointSpecView, Seq<char>>>,
    id: Seq<char>,
    built: EndpointSpecView,
)
    requires
        exists|i: int| 0 <= i < eps.len() && (#[trigger] eps[i]).id == id,
    ensures
        ({
            let m = r.manager;
            let laddr = built.endpoint.laddr;
            let alone = plan::plans_of(m, r.applied, eps, unref, builds);
            let p = reconcile::final_plans(r, eps, unref, builds)[id];
            let tcp = built.tcp && clash(m, alone, id, Proto::Tcp, laddr);
            let udp = built.udp && clash(m, alone, id, Proto::Udp, laddr);
            let changes = alone[id] == (PlanView::Start { built }) || alone[id] == (PlanView::Replace { built });
            &&& changes && !tcp && !udp ==> p == alone[id]
            &&& changes && (tcp || udp) ==> {
                &&& p matches PlanView::Invalid { error }
                &&& udp ==> told_why(m, alone, id, Proto::Udp, laddr, error)
                &&& !udp ==> told_why(m, alone, id, Proto::Tcp, laddr, error)
            }
            &&& !(alone[id] is Start || alone[id] is Replace) ==> p == alone[id]
        }),
{
    let m = r.manager;
    let alone = plan::plans_of(m, r.applied, eps, unref, builds);
    let laddr = built.endpoint.laddr;
    assert(plan::occurs(eps, id));
    assert(alone.dom().contains(id));
    lemma_submitted_is_finite(m, r.applied, eps, unref, builds);
    if alone[id] == (PlanView::Start { built }) || alone[id] == (PlanView::Replace { built }) {
        lemma_listen_error(m, alone, id, built, Proto::Tcp);
        lemma_listen_error(m, alone, id, built, Proto::Udp);
    }
}

/// Endpoints with addresses of their own are all accepted. Each is submitted
/// once, with a description that could be refreshed and built, and none asks for
/// a protocol at the address where another of them is to listen or is listening.
pub proof fn law_own_addresses_are_accepted<V>(
    r: ReconcilerView<V>,
    eps: Seq<DesiredView<V>>,
    unref: Map<Seq<char>, Seq<char>>,
    builds: Seq<Result<EndpointSpecView, Seq<char>>>,
    i: int,
)
    requires
        0 <= i < eps.len(),
        builds.len() == eps.len(),
        forall|j: int| 0 <= j < eps.len() ==> #[trigger] builds[j] is Ok,
        forall|j: int| 0 <= j < eps.len() ==> !unref.dom().contains((#[trigger] eps[j]).id),
        forall|j: int, k: int| 0 <= j < k < eps.len() ==> (#[trigger] eps[j]).id != (#[trigger] eps[k]).id,
        forall|j: int, proto: Proto|
            0 <= j < eps.len() && j != i && asks(builds[i]->Ok_0, proto, builds[i]->Ok_0.endpoint.laddr) ==> {
                &&& !asks(builds[j]->Ok_0, proto, builds[i]->Ok_0.endpoint.laddr)
                &&& !#[trigger] listens(r.manager, eps[j].id, proto, builds[i]->Ok_0.endpoint.laddr)
            },
    ensures
        ({
            let p = reconcile::final_plans(r, eps, unref, builds)[eps[i].id];
            let built = builds[i]->Ok_0;
            &&& !r.applied.dom().contains(eps[i].id) ==> p == (PlanView::Start { built })
            &&& r.applied.dom().contains(eps[i].id) ==> p == PlanView::Unchanged || p == (PlanView::Replace { built })
        }),
{
    let m = r.manager;
    let id = eps[i].id;
    let built = builds[i]->Ok_0;
    let laddr = built.endpoint.laddr;
    let alone = plan::plans_of(m, r.applied, eps, unref, builds);
    law_good_description_on_its_own(m, r.applied, eps, unref, builds, i, built);
    assert(eps[i].id == id);
    law_refused_exactly_on_a_clash(r, eps, unref, builds, id, built);
    assert forall|proto: Proto| asks(built, proto, laddr) implies !#[trigger] clash(m, alone, id, proto, laddr) by {
        if clash(m, alone, id, proto, laddr) {
            let other = choose|other: Seq<char>|
                other != id && #[trigger] alone.dom().contains(other) && (to_listen(alone[other], proto, laddr) || (
                alone[other] is Unchanged && listens(m, other, proto, laddr)));
            let j = choose|j: int| 0 <= j < eps.len() && (#[trigger] eps[j]).id == other;
            assert(eps[j].id == other);
            law_good_description_on_its_own(m, r.applied, eps, unref, builds, j, builds[j]->Ok_0);
            assert(!listens(m, eps[j].id, proto, laddr));
            assert(false);
        }
    }
    assert(built.tcp ==> asks(built, Proto::Tcp, laddr));
    assert(built.udp ==> asks(built, Proto::Udp, laddr));
}

// --------------------------------------------------------------- handovers --

/// Whether a plan gives up a listener of an id: it deletes the id, or replaces it
/// by a rule that does not ask for a protocol where it is served.
pub open spec fn gives_way(m: ManagerView, plan: PlanView, id: Seq<char>) -> bool {
    match plan {
        PlanView::Delete => true,
        PlanView::Replace { built } => {
            ||| is_up(m, id, Proto::Tcp) && !asks(built, Proto::Tcp, slot_at(m, id, Proto::Tcp)->0.endpoint.laddr)
            ||| is_up(m, id, Proto::Udp) && !asks(built, Proto::Udp, slot_at(m, id, Proto::Udp)->0.endpoint.laddr)
        },
        _ => false,
    }
}

/// Whether an id that gives way is served at an address where an endpoint is to
/// listen that does not listen there yet.
pub open spec fn in_the_way(m: ManagerView, plans: Map<Seq<char>, PlanView>, id: Seq<char>, proto: Proto) -> bool {
    &&& plans.dom().contains(id)
    &&& is_up(m, id, proto)
    &&& gives_way(m, plans[id], id)
    &&& exists|other: Seq<char>|
        {
            let laddr = slot_at(m, id, proto)->0.endpoint.laddr;
            #[trigger] plans.dom().contains(other) && to_listen(plans[other], proto, laddr) && !listens(
                m,
                other,
                proto,
                laddr,
            )
        }
}

/// How long what an id in the way had accepted may keep running: a delete has its
/// own deadline, otherwise tcp has the update deadline and udp no time.
pub open spec fn time_left(m: ManagerView, plan: PlanView, id: Seq<char>, proto: Proto) -> Option<Duration> {
    if plan is Delete {
        m.entries[id].drain.on_delete
    } else if proto == Proto::Tcp {
        m.entries[id].drain.on_update
    } else {
        Some(Duration { secs: 0, nanos: 0 })
    }
}

/// A slot whose listener was stopped for another endpoint.
pub open spec fn stopped(s: SlotView) -> SlotView {
    SlotView {
        state: SlotStateView::Draining,
        active: None,
        draining: s.draining.push(Draining { generation: s.active->0.generation, task: s.active->0.task }),
        ..s
    }
}

/// The stop of a listener that is in the way.
pub open spec fn stop_of(m: ManagerView, id: Seq<char>, proto: Proto) -> Action {
    Action::Stop { task: slot_at(m, id, proto)->0.active->0.task }
}

/// The drain of a listener that is in the way.
pub open spec fn drain_of(m: ManagerView, plans: Map<Seq<char>, PlanView>, id: Seq<char>, proto: Proto) -> Action {
    let a = slot_at(m, id, proto)->0.active->0;
    Action::Drain { task: a.task, generation: a.generation, deadline: time_left(m, plans[id], id, proto) }
}

proof fn lemma_handed_over(m: ManagerView, plans: Map<Seq<char>, PlanView>, id: Seq<char>, proto: Proto)
    requires
        plans.dom().contains(id),
    ensures
        plan::handed_over(m, plans, id, proto) == in_the_way(m, plans, id, proto),
        plan::handed_over(m, plans, id, proto) ==> plan::handover(m, plans[id], id, proto).deadline == time_left(
            m,
            plans[id],
            id,
            proto,
        ),
{
    lemma_names(m, id, Proto::Tcp);
    lemma_names(m, id, Proto::Udp);
    if let PlanView::Replace { built } = plans[id] {
        assert(built.wants(Proto::Tcp) == built.tcp);
        assert(built.wants(Proto::Udp) == built.udp);
        if gives_way(m, plans[id], id) {
            let q = if is_up(m, id, Proto::Tcp) && !asks(
                built,
                Proto::Tcp,
                slot_at(m, id, Proto::Tcp)->0.endpoint.laddr,
            ) {
                Proto::Tcp
            } else {
                Proto::Udp
            };
            assert(m.serving(id, q) matches Some(e) && (e.laddr != built.endpoint.laddr || !built.wants(q)));
        }
        assert(plan::leaving(m, plans[id], id) == gives_way(m, plans[id], id));
    }
    if is_up(m, id, proto) {
        let laddr = slot_at(m, id, proto)->0.endpoint.laddr;
        assert forall|other: Seq<char>| #[trigger] plans.dom().contains(other) implies {
            &&& plans[other].binds(laddr, proto) == to_listen(plans[other], proto, laddr)
            &&& (m.serving(other, proto) matches Some(e) && e.laddr == laddr) == listens(m, other, proto, laddr)
        } by {
            lemma_binds(plans[other], laddr, proto);
            lemma_names(m, other, proto);
        }
    }
}

proof fn lemma_handovers(m: ManagerView, plans: Map<Seq<char>, PlanView>, order: Seq<Seq<char>>, n: int)
    requires
        0 <= n <= order.len(),
    ensures
        forall|k: int|
            0 <= k < plan::handovers(m, plans, order, n).len() ==> {
                let h = #[trigger] plan::handovers(m, plans, order, n)[k];
                &&& order.contains(h.id)
                &&& plan::handed_over(m, plans, h.id, h.proto)
                &&& h == plan::handover(m, plans[h.id], h.id, h.proto)
            },
        forall|j: int, proto: Proto|
            0 <= j < n && #[trigger] plan::handed_over(m, plans, order[j], proto) ==> plan::handovers(
                m,
                plans,
                order,
                n,
            ).contains(plan::handover(m, plans[order[j]], order[j], proto)),
    decreases n,
{
    if n > 0 {
        lemma_handovers(m, plans, order, n - 1);
        let id = order[n - 1];
        let before = plan::handovers(m, plans, order, n - 1);
        let own = plan::handovers_of(m, plans, id);
        let all = plan::handovers(m, plans, order, n);
        assert(all == before + own);
        assert forall|k: int| 0 <= k < all.len() implies {
            let h = #[trigger] all[k];
            &&& order.contains(h.id)
            &&& plan::handed_over(m, plans, h.id, h.proto)
            &&& h == plan::handover(m, plans[h.id], h.id, h.proto)
        } by {
            if k < before.len() {
                assert(all[k] == before[k]);
            } else {
                assert(all[k] == own[k - before.len() as int]);
            }
        }
        assert forall|j: int, proto: Proto|
            0 <= j < n && #[trigger] plan::handed_over(m, plans, order[j], proto) implies all.contains(
            plan::handover(m, plans[order[j]], order[j], proto),
        ) by {
            let h = plan::handover(m, plans[order[j]], order[j], proto);
            if j < n - 1 {
                let k = before.index_of(h);
                assert(before.contains(h));
                assert(all[k] == h);
            } else if proto == Proto::Tcp {
                assert(own[0] == h);
                assert(all[before.len() as int] == h);
            } else {
                assert(own[own.len() - 1] == h);
                assert(all[all.len() - 1] == h);
            }
        }
    }
}

/// Whether one of the first `n` handovers is of a protocol of an id.
pub open spec fn is_among(hs: Seq<HandoverView>, n: int, id: Seq<char>, proto: Proto) -> bool {
    exists|k: int| 0 <= k < n && (#[trigger] hs[k]).id == id && hs[k].proto == proto
}

proof fn lemma_released(m: ManagerView, plans: Map<Seq<char>, PlanView>, hs: Seq<HandoverView>, n: int)
    requires
        0 <= n <= hs.len(),
        forall|k: int|
            0 <= k < hs.len() ==> {
                let h = #[trigger] hs[k];
                &&& is_up(m, h.id, h.proto)
                &&& h.deadline == time_left(m, plans[h.id], h.id, h.proto)
                &&& h.deleting == plans[h.id] is Delete
            },
    ensures
        ({
            let x = plan::released(m, hs, n);
            &&& x.manager.policy == m.policy
            &&& x.manager.entries.dom() == m.entries.dom()
            &&& forall|id: Seq<char>|
                #[trigger] m.entries.dom().contains(id) ==> x.manager.entries[id].drain == m.entries[id].drain
            &&& forall|id: Seq<char>, proto: Proto|
                #[trigger] slot_at(x.manager, id, proto) == if is_among(hs, n, id, proto) {
                    Some(stopped(slot_at(m, id, proto)->0))
                } else {
                    slot_at(m, id, proto)
                }
            &&& forall|id: Seq<char>|
                #[trigger] x.released.contains(id) == (!(plans[id] is Delete) && (is_among(hs, n, id, Proto::Tcp)
                    || is_among(hs, n, id, Proto::Udp)))
            &&& forall|id: Seq<char>, proto: Proto| #[trigger]
                is_among(hs, n, id, proto) ==> x.actions.contains(stop_of(m, id, proto)) && x.actions.contains(
                    drain_of(m, plans, id, proto),
                )
            &&& forall|k: int|
                0 <= k < x.actions.len() ==> exists|id: Seq<char>, proto: Proto| #[trigger]
                    is_among(hs, n, id, proto) && ((#[trigger] x.actions[k]) == stop_of(m, id, proto) || x.actions[k]
                        == drain_of(m, plans, id, proto))
        }),
    decreases n,
{
    let x = plan::released(m, hs, n);
    if n > 0 {
        lemma_released(m, plans, hs, n - 1);
        let w = plan::released(m, hs, n - 1);
        let h = hs[n - 1];
        assert forall|id: Seq<char>, proto: Proto| #[trigger] is_among(hs, n, id, proto) == (is_among(
            hs,
            n - 1,
            id,
            proto,
        ) || (h.id == id && h.proto == proto)) by {
            if h.id == id && h.proto == proto {
                assert(hs[n - 1].id == id);
            }
            if is_among(hs, n - 1, id, proto) {
                let k = choose|k: int| 0 <= k < n - 1 && (#[trigger] hs[k]).id == id && hs[k].proto == proto;
                assert(hs[k].id == id);
            }
        }
        assert(is_up(m, hs[n - 1].id, hs[n - 1].proto));
        assert(slot_at(w.manager, h.id, h.proto) == if is_among(hs, n - 1, h.id, h.proto) {
            Some(stopped(slot_at(m, h.id, h.proto)->0))
        } else {
            slot_at(m, h.id, h.proto)
        });
        lemma_names(w.manager, h.id, h.proto);
        let fresh = !is_among(hs, n - 1, h.id, h.proto);
        assert(w.manager.active(h.id, h.proto) is Some == fresh);
        assert(w.manager.entries.dom().contains(h.id));
        assert(x.manager.entries.dom() =~= m.entries.dom());
        assert forall|id: Seq<char>| #[trigger] m.entries.dom().contains(id) implies x.manager.entries[id].drain
            == m.entries[id].drain by {
            assert(w.manager.entries[id].drain == m.entries[id].drain);
        }
        assert forall|id: Seq<char>, proto: Proto| #[trigger] slot_at(x.manager, id, proto) == if is_among(
            hs,
            n,
            id,
            proto,
        ) {
            Some(stopped(slot_at(m, id, proto)->0))
        } else {
            slot_at(m, id, proto)
        } by {
            let before = slot_at(w.manager, id, proto);
            assert(is_among(hs, n, id, proto) == (is_among(hs, n - 1, id, proto) || (h.id == id && h.proto == proto)));
        }
        assert forall|id: Seq<char>| #[trigger] x.released.contains(id) == (!(plans[id] is Delete) && (is_among(
            hs,
            n,
            id,
            Proto::Tcp,
        ) || is_among(hs, n, id, Proto::Udp))) by {
            assert(w.released.contains(id) == (!(plans[id] is Delete) && (is_among(hs, n - 1, id, Proto::Tcp)
                || is_among(hs, n - 1, id, Proto::Udp))));
            assert(is_among(hs, n, id, Proto::Tcp) == (is_among(hs, n - 1, id, Proto::Tcp) || (h.id == id && h.proto
                == Proto::Tcp)));
            assert(is_among(hs, n, id, Proto::Udp) == (is_among(hs, n - 1, id, Proto::Udp) || (h.id == id && h.proto
                == Proto::Udp)));
            if !h.deleting {
                assert(x.released == w.released.push(h.id));
                assert(x.released.last() == h.id);
                if w.released.contains(id) {
                    let k = w.released.index_of(id);
                    assert(x.released[k] == id);
                }
                if x.released.contains(id) && id != h.id {
                    let k = x.released.index_of(id);
                    assert(w.released[k] == id);
                }
            }
        }
        let own = manager::release_actions(w.manager.active(h.id, h.proto), h.deadline);
        assert(x.actions == w.actions + own);
        if fresh {
            assert(own[0] == stop_of(m, h.id, h.proto));
            assert(own[1] == drain_of(m, plans, h.id, h.proto));
            assert(x.actions[w.actions.len() as int] == own[0]);
            assert(x.actions[w.actions.len() as int + 1] == own[1]);
        }
        assert forall|id: Seq<char>, proto: Proto| #[trigger] is_among(hs, n, id, proto) implies x.actions.contains(
            stop_of(m, id, proto),
        ) && x.actions.contains(drain_of(m, plans, id, proto)) by {
            if is_among(hs, n - 1, id, proto) {
                assert(w.actions.contains(stop_of(m, id, proto)));
                let a = w.actions.index_of(stop_of(m, id, proto));
                let b = w.actions.index_of(drain_of(m, plans, id, proto));
                assert(x.actions[a] == w.actions[a]);
                assert(x.actions[b] == w.actions[b]);
            }
        }
        assert forall|k: int| 0 <= k < x.actions.len() implies exists|id: Seq<char>, proto: Proto| #[trigger]
            is_among(hs, n, id, proto) && ((#[trigger] x.actions[k]) == stop_of(m, id, proto) || x.actions[k]
                == drain_of(m, plans, id, proto)) by {
            if k < w.actions.len() {
                assert(x.actions[k] == w.actions[k]);
                let (id, proto) = choose|id: Seq<char>, proto: Proto| #[trigger]
                    is_among(hs, n - 1, id, proto) && (w.actions[k] == stop_of(m, id, proto) || w.actions[k]
                        == drain_of(m, plans, id, proto));
                assert(is_among(hs, n, id, proto));
            } else {
                assert(is_among(hs, n, h.id, h.proto));
                assert(x.actions[k] == own[k - w.actions.len() as int]);
            }
        }
    }
}

/// Before anything is bound, exactly the listeners in the way of others are
/// stopped: those of an endpoint that gives way, at an address where another is
/// to listen. What they had accepted is their own cohort, which drains in the time
/// that is left to it. No other slot is touched, no id is added or dropped, and
/// no deadline changes. The endpoints to come back elsewhere are those of a
/// stopped listener that are not deleted.
pub proof fn law_exactly_the_listeners_in_the_way_are_stopped(m: ManagerView, plans: Map<Seq<char>, PlanView>)
    requires
        plans.dom().finite(),
    ensures
        ({
            let x = plan::all_released(m, plans);
            &&& x.manager.policy == m.policy
            &&& x.manager.entries.dom() == m.entries.dom()
            &&& forall|id: Seq<char>|
                #[trigger] m.entries.dom().contains(id) ==> x.manager.entries[id].drain == m.entries[id].drain
            &&& forall|id: Seq<char>, proto: Proto|
                #[trigger] slot_at(x.manager, id, proto) == if in_the_way(m, plans, id, proto) {
                    Some(stopped(slot_at(m, id, proto)->0))
                } else {
                    slot_at(m, id, proto)
                }
            &&& forall|id: Seq<char>|
                #[trigger] x.released.contains(id) == (!(plans[id] is Delete) && (in_the_way(m, plans, id, Proto::Tcp)
                    || in_the_way(m, plans, id, Proto::Udp)))
            &&& forall|id: Seq<char>, proto: Proto| #[trigger]
                in_the_way(m, plans, id, proto) ==> x.actions.contains(stop_of(m, id, proto)) && x.actions.contains(
                    drain_of(m, plans, id, proto),
                )
            &&& forall|k: int|
                0 <= k < x.actions.len() ==> exists|id: Seq<char>, proto: Proto| #[trigger]
                    in_the_way(m, plans, id, proto) && ((#[trigger] x.actions[k]) == stop_of(m, id, proto)
                        || x.actions[k] == drain_of(m, plans, id, proto))
        }),
{
    let order = crate::idmap::in_order(plans.dom());
    crate::idmap::lemma_finite_in_order(plans.dom());
    let hs = plan::handovers(m, plans, order, order.len() as int);
    let x = plan::all_released(m, plans);
    lemma_handovers(m, plans, order, order.len() as int);
    assert forall|k: int| 0 <= k < hs.len() implies {
        let h = #[trigger] hs[k];
        &&& is_up(m, h.id, h.proto)
        &&& h.deadline == time_left(m, plans[h.id], h.id, h.proto)
        &&& h.deleting == plans[h.id] is Delete
    } by {
        let h = hs[k];
        assert(order.contains(h.id));
        assert(plans.dom().contains(h.id));
        lemma_handed_over(m, plans, h.id, h.proto);
    }
    lemma_released(m, plans, hs, hs.len() as int);
    assert forall|id: Seq<char>, proto: Proto| #[trigger] in_the_way(m, plans, id, proto) == is_among(
        hs,
        hs.len() as int,
        id,
        proto,
    ) by {
        if in_the_way(m, plans, id, proto) {
            lemma_handed_over(m, plans, id, proto);
            assert(order.contains(id));
            let j = order.index_of(id);
            assert(plan::handed_over(m, plans, order[j], proto));
            let h = plan::handover(m, plans[id], id, proto);
            assert(hs.contains(h));
            let k = hs.index_of(h);
            assert(hs[k].id == id && hs[k].proto == proto);
        }
        if is_among(hs, hs.len() as int, id, proto) {
            let k = choose|k: int| 0 <= k < hs.len() && (#[trigger] hs[k]).id == id && hs[k].proto == proto;
            assert(order.contains(hs[k].id));
            assert(plans.dom().contains(id));
            lemma_handed_over(m, plans, id, proto);
        }
    }
    assert forall|id: Seq<char>, proto: Proto| #[trigger] slot_at(x.manager, id, proto) == if in_the_way(
        m,
        plans,
        id,
        proto,
    ) {
        Some(stopped(slot_at(m, id, proto)->0))
    } else {
        slot_at(m, id, proto)
    } by {
        assert(in_the_way(m, plans, id, proto) == is_among(hs, hs.len() as int, id, proto));
    }
    assert forall|id: Seq<char>| #[trigger] x.released.contains(id) == (!(plans[id] is Delete) && (in_the_way(
        m,
        plans,
        id,
        Proto::Tcp,
    ) || in_the_way(m, plans, id, Proto::Udp))) by {
        assert(in_the_way(m, plans, id, Proto::Tcp) == is_among(hs, hs.len() as int, id, Proto::Tcp));
        assert(in_the_way(m, plans, id, Proto::Udp) == is_among(hs, hs.len() as int, id, Proto::Udp));
    }
    assert forall|k: int| 0 <= k < x.actions.len() implies exists|id: Seq<char>, proto: Proto| #[trigger]
        in_the_way(m, plans, id, proto) && ((#[trigger] x.actions[k]) == stop_of(m, id, proto) || x.actions[k]
            == drain_of(m, plans, id, proto)) by {
        let (id, proto) = choose|id: Seq<char>, proto: Proto| #[trigger]
            is_among(hs, hs.len() as int, id, proto) && (x.actions[k] == stop_of(m, id, proto) || x.actions[k]
                == drain_of(m, plans, id, proto));
        assert(in_the_way(m, plans, id, proto));
    }
}

} // verus!
