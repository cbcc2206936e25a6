//! What becomes of the endpoints of a generation as it is applied, and of the
//! generation once it is.

use vstd::prelude::*;

use crate::lifecycle::manager;
use crate::lifecycle::manager::{Action, Bound, ManagerView, NextView, StartRequestView};
use crate::lifecycle::plan;
use crate::lifecycle::plan::{DesiredView, EndpointSource, PlanView};
use crate::lifecycle::plan_laws::{is_up, slot_at};
use crate::lifecycle::reconcile;
use crate::lifecycle::reconcile::{
    AnswerView, ApplyStageView, ApplyingView, GenerationState, NeedView, PendingView, ReconcilerView, ResultView,
    StepNext,
};
use crate::lifecycle::slot_laws;
use crate::lifecycle::slot_laws::{deadlines, deleted, let_go, runs_it};
use crate::lifecycle::types::{EndpointSpecView, Generation, Proto, SlotAction, SlotOutcomeView, TaskId};
use crate::net;
use crate::net::SocketAddr;

verus! {

// ---------------------------------------------------- nothing to be done --

/// Whether an endpoint is served for any protocol.
pub open spec fn up_at_all(m: ManagerView, id: Seq<char>) -> bool {
    is_up(m, id, Proto::Tcp) || is_up(m, id, Proto::Udp)
}

/// Whether a result is what a plan without work owes for an id: one that stays is
/// unchanged for each protocol it is served for. One that is refused has failed
/// for good, for each protocol it is still served for, or for tcp if for none.
pub open spec fn is_owed(m: ManagerView, plan: PlanView, id: Seq<char>, x: ResultView) -> bool {
    &&& x.id == id
    &&& match plan {
        PlanView::Unchanged => {
            &&& is_up(m, id, x.proto)
            &&& x.action == SlotAction::Unchanged
            &&& x.error is None
            &&& x.retryable is None
        },
        PlanView::Invalid { error } => {
            &&& is_up(m, id, x.proto) || (!up_at_all(m, id) && x.proto == Proto::Tcp)
            &&& x.action == SlotAction::Failed
            &&& x.error == Some(error)
            &&& x.retryable == Some(false)
        },
        _ => false,
    }
}

proof fn lemma_owed(m: ManagerView, plan: PlanView, id: Seq<char>, x: ResultView)
    ensures
        plan is Unchanged ==> (reconcile::unchanged_results(m, id).contains(x) <==> is_owed(m, plan, id, x)),
        plan matches PlanView::Invalid { error } ==> (reconcile::invalid_results(m, id, error).contains(x) <==> is_owed(
            m,
            plan,
            id,
            x,
        )),
{
    assert(m.serving(id, Proto::Tcp) is Some == is_up(m, id, Proto::Tcp));
    assert(m.serving(id, Proto::Udp) is Some == is_up(m, id, Proto::Udp));
    let protos = reconcile::protos_of(m, id);
    assert(is_up(m, id, Proto::Tcp) ==> protos[0] == Proto::Tcp);
    assert(is_up(m, id, Proto::Udp) ==> protos[protos.len() - 1] == Proto::Udp);
    assert(forall|k: int| 0 <= k < protos.len() ==> is_up(m, id, #[trigger] protos[k]));
    match plan {
        PlanView::Unchanged => {
            let v = reconcile::unchanged_results(m, id);
            assert(v.len() == protos.len());
            if v.contains(x) {
                let k = v.index_of(x);
                assert(v[k] == x);
                assert(x.proto == protos[k]);
            }
            if is_owed(m, plan, id, x) {
                let k = if x.proto == Proto::Tcp {
                    0
                } else {
                    protos.len() - 1
                };
                assert(protos[k] == x.proto);
                assert(v[k] == x);
            }
        },
        PlanView::Invalid { error } => {
            let v = reconcile::invalid_results(m, id, error);
            let all = if reconcile::is_served(m, id) {
                protos
            } else {
                seq![Proto::Tcp]
            };
            assert(v.len() == all.len());
            if v.contains(x) {
                let k = v.index_of(x);
                assert(v[k] == x);
                assert(x.proto == all[k]);
            }
            if is_owed(m, plan, id, x) {
                let k = if x.proto == Proto::Tcp {
                    0
                } else {
                    all.len() - 1
                };
                assert(all[k] == x.proto);
                assert(v[k] == x);
            }
        },
        _ => {},
    }
}

/// Whether a plan asks for something to be done.
pub open spec fn has_work(plan: PlanView) -> bool {
    plan is Start || plan is Replace || plan is Delete
}

/// Whether an id is refused by one of the plans at positions `from..to`.
pub open spec fn is_refused<V>(a: ApplyingView<V>, from: int, to: int, id: Seq<char>) -> bool {
    exists|j: int| from <= j < to && #[trigger] a.order[j] == id && a.plans[id] is Invalid
}

/// What is desired of an id after others were passed over, `refused` or not: one
/// that is refused keeps the description that is applied, unless it is not managed.
pub open spec fn passed_over<V>(
    m: ManagerView,
    applied: Map<Seq<char>, V>,
    before: Map<Seq<char>, V>,
    after: Map<Seq<char>, V>,
    refused: bool,
    id: Seq<char>,
) -> bool {
    let managed = m.entries.dom().contains(id);
    &&& refused && !managed ==> !after.dom().contains(id)
    &&& refused && managed && applied.dom().contains(id) ==> after.dom().contains(id) && after[id] == applied[id]
    &&& !refused || (managed && !applied.dom().contains(id)) ==> after.dom().contains(id) == before.dom().contains(id)
        && (before.dom().contains(id) ==> after[id] == before[id])
}

/// Endpoints without work are passed over up to the next that has some. Each is
/// reported with exactly the results it owes, after what was reported before. One
/// that is refused keeps the description that is applied, or none if it is not
/// managed.
pub proof fn law_endpoints_without_work_are_passed_over<V>(
    m: ManagerView,
    applied: Map<Seq<char>, V>,
    a: ApplyingView<V>,
    id: Seq<char>,
    x: ResultView,
)
    requires
        0 <= a.index <= a.order.len(),
    ensures
        ({
            let b = reconcile::skip(m, applied, a);
            let added = b.results.skip(a.results.len() as int);
            &&& a.index <= b.index <= a.order.len()
            &&& forall|j: int| a.index <= j < b.index ==> !has_work(a.plans[#[trigger] a.order[j]])
            &&& b.index < a.order.len() ==> has_work(a.plans[a.order[b.index]])
            &&& b.results.len() >= a.results.len()
            &&& b.results.take(a.results.len() as int) == a.results
            &&& added.contains(x) <==> exists|j: int|
                a.index <= j < b.index && is_owed(m, a.plans[a.order[j]], #[trigger] a.order[j], x)
            &&& passed_over(m, applied, a.desired, b.desired, is_refused(a, a.index, b.index, id), id)
            &&& b == ApplyingView { index: b.index, desired: b.desired, results: b.results, ..a }
        }),
    decreases a.order.len() - a.index,
{
    let b = reconcile::skip(m, applied, a);
    let added = b.results.skip(a.results.len() as int);
    if a.index < a.order.len() && !has_work(a.plans[a.order[a.index]]) {
        let here = a.order[a.index];
        let p = a.plans[here];
        let own = if p is Unchanged {
            reconcile::unchanged_results(m, here)
        } else {
            reconcile::invalid_results(m, here, p->error)
        };
        let c = ApplyingView {
            index: a.index + 1,
            desired: if p is Unchanged {
                a.desired
            } else {
                reconcile::kept(m, applied, a.desired, here)
            },
            results: a.results + own,
            ..a
        };
        assert(b == reconcile::skip(m, applied, c));
        law_endpoints_without_work_are_passed_over(m, applied, c, id, x);
        let rest = b.results.skip(c.results.len() as int);
        assert forall|j: int| a.index <= j < b.index implies !has_work(a.plans[#[trigger] a.order[j]]) by {
            if j > a.index {
                assert(!has_work(c.plans[c.order[j]]));
            }
        }
        assert(b.results.take(a.results.len() as int) =~= a.results) by {
            assert(b.results.take(c.results.len() as int).take(a.results.len() as int) =~= b.results.take(
                a.results.len() as int,
            ));
            assert(c.results.take(a.results.len() as int) =~= a.results);
        }
        assert(added =~= own + rest) by {
            assert forall|k: int| 0 <= k < own.len() implies added[k] == own[k] by {
                assert(b.results.take(c.results.len() as int)[a.results.len() + k] == c.results[a.results.len() + k]);
            }
        }
        lemma_owed(m, p, here, x);
        assert(added.contains(x) <==> own.contains(x) || rest.contains(x)) by {
            if own.contains(x) {
                assert(added[own.index_of(x)] == x);
            }
            if rest.contains(x) {
                assert(added[own.len() + rest.index_of(x)] == x);
            }
            if added.contains(x) {
                let k = added.index_of(x);
                if k < own.len() {
                    assert(own[k] == x);
                } else {
                    assert(rest[k - own.len()] == x);
                }
            }
        }
        if exists|j: int| a.index <= j < b.index && is_owed(m, a.plans[a.order[j]], #[trigger] a.order[j], x) {
            let j = choose|j: int| a.index <= j < b.index && is_owed(m, a.plans[a.order[j]], #[trigger] a.order[j], x);
            if j > a.index {
                assert(is_owed(m, c.plans[c.order[j]], c.order[j], x));
            }
        }
        if rest.contains(x) {
            let j = choose|j: int| c.index <= j < b.index && is_owed(m, c.plans[c.order[j]], #[trigger] c.order[j], x);
            assert(is_owed(m, a.plans[a.order[j]], a.order[j], x));
        }
        assert(is_refused(a, a.index, b.index, id) <==> is_refused(c, c.index, b.index, id) || (here == id
            && p is Invalid)) by {
            if is_refused(a, a.index, b.index, id) {
                let j = choose|j: int| a.index <= j < b.index && #[trigger] a.order[j] == id && a.plans[id] is Invalid;
                if j > a.index {
                    assert(c.order[j] == id);
                }
            }
            if is_refused(c, c.index, b.index, id) {
                let j = choose|j: int| c.index <= j < b.index && #[trigger] c.order[j] == id && c.plans[id] is Invalid;
                assert(a.order[j] == id);
            }
            if here == id && p is Invalid {
                assert(a.order[a.index] == id);
            }
        }
    } else {
        assert(b == a);
        assert(added =~= Seq::empty());
        assert(b.results.take(a.results.len() as int) =~= a.results);
    }
}

/// A protocol that is served, as a result of an endpoint without work.
pub open spec fn one_result(
    m: ManagerView,
    id: Seq<char>,
    proto: Proto,
    action: SlotAction,
    error: Option<Seq<char>>,
    retryable: Option<bool>,
) -> Seq<ResultView> {
    if is_up(m, id, proto) {
        seq![ResultView { id, proto, action, error, retryable }]
    } else {
        Seq::empty()
    }
}

/// The endpoint it is at, if it has no work, is reported once for each protocol it
/// owes a result for, tcp before udp.
pub proof fn law_endpoint_without_work_is_reported_once<V>(
    m: ManagerView,
    applied: Map<Seq<char>, V>,
    a: ApplyingView<V>,
)
    requires
        0 <= a.index < a.order.len(),
    ensures
        ({
            let id = a.order[a.index];
            let b = reconcile::skip(m, applied, a);
            &&& a.plans[id] is Unchanged ==> {
                let own = one_result(m, id, Proto::Tcp, SlotAction::Unchanged, None, None) + one_result(
                    m,
                    id,
                    Proto::Udp,
                    SlotAction::Unchanged,
                    None,
                    None,
                );
                b == reconcile::skip(m, applied, ApplyingView { index: a.index + 1, results: a.results + own, ..a })
            }
            &&& a.plans[id] matches PlanView::Invalid { error } ==> {
                let own = if up_at_all(m, id) {
                    one_result(m, id, Proto::Tcp, SlotAction::Failed, Some(error), Some(false)) + one_result(
                        m,
                        id,
                        Proto::Udp,
                        SlotAction::Failed,
                        Some(error),
                        Some(false),
                    )
                } else {
                    seq![
                        ResultView {
                            id,
                            proto: Proto::Tcp,
                            action: SlotAction::Failed,
                            error: Some(error),
                            retryable: Some(false),
                        },
                    ]
                };
                b.results == reconcile::skip(
                    m,
                    applied,
                    ApplyingView {
                        index: a.index + 1,
                        desired: reconcile::kept(m, applied, a.desired, id),
                        results: a.results + own,
                        ..a
                    },
                ).results
            }
        }),
{
    let id = a.order[a.index];
    assert(m.serving(id, Proto::Tcp) is Some == is_up(m, id, Proto::Tcp));
    assert(m.serving(id, Proto::Udp) is Some == is_up(m, id, Proto::Udp));
    match a.plans[id] {
        PlanView::Unchanged => {
            assert(reconcile::unchanged_results(m, id) =~= one_result(
                m,
                id,
                Proto::Tcp,
                SlotAction::Unchanged,
                None,
                None,
            ) + one_result(m, id, Proto::Udp, SlotAction::Unchanged, None, None));
        },
        PlanView::Invalid { error } => {
            if up_at_all(m, id) {
                assert(reconcile::invalid_results(m, id, error) =~= one_result(
                    m,
                    id,
                    Proto::Tcp,
                    SlotAction::Failed,
                    Some(error),
                    Some(false),
                ) + one_result(m, id, Proto::Udp, SlotAction::Failed, Some(error), Some(false)));
            } else {
                assert(reconcile::invalid_results(m, id, error) =~= seq![
                    ResultView {
                        id,
                        proto: Proto::Tcp,
                        action: SlotAction::Failed,
                        error: Some(error),
                        retryable: Some(false),
                    },
                ]);
            }
        },
        _ => {},
    }
}

// --------------------------------------------------------------- in effect --

/// Once every endpoint is through the generation is in effect: it is the active
/// one, what is desired is what is applied, and its answer and what was submitted
/// are kept. The answer holds every result, and says that the generation was
/// applied in part exactly if one of them is a failure. What is served stays.
pub proof fn law_generation_takes_effect<V>(r: ReconcilerView<V>, a: ApplyingView<V>)
    requires
        a.index == a.order.len(),
    ensures
        ({
            let x = reconcile::proceed(r, a);
            let n = x.reconciler;
            let failed = exists|i: int| 0 <= i < a.results.len() && (#[trigger] a.results[i]).action
                == SlotAction::Failed;
            &&& x.actions.len() == 0
            &&& x.next matches StepNext::Applied(answer)
            &&& answer.generation == a.generation
            &&& answer.results == a.results
            &&& answer.state == (if failed {
                GenerationState::PartiallyApplied
            } else {
                GenerationState::Applied
            })
            &&& n.active == Some(a.generation)
            &&& n.applied == a.desired
            &&& n.last == Some(answer)
            &&& n.content == Some(a.submitted)
            &&& n.partial == failed
            &&& n.manager == r.manager
            &&& n.ready == r.ready
            &&& n.location == r.location
        }),
{
}

/// A generation that was applied is answered again as it was, when the same is
/// submitted again and every endpoint that is applied would be applied as it is.
pub proof fn law_applied_generation_is_replayed<S: EndpointSource>(
    r: ReconcilerView<S::V>,
    a: ApplyingView<S::V>,
    results: Seq<Result<S::V, Seq<char>>>,
)
    requires
        a.index == a.order.len(),
        results.len() == a.submitted.len(),
        forall|i: int| 0 <= i < results.len() ==> #[trigger] results[i] is Ok,
        forall|i: int|
            0 <= i < results.len() && a.desired.dom().contains((#[trigger] a.submitted[i]).id) ==> a.desired[a.submitted[i].id]
                == results[i]->Ok_0,
    ensures
        ({
            let x = reconcile::proceed(r, a);
            let y = reconcile::judged::<S>(x.reconciler, a.generation, a.submitted, results);
            &&& x.next matches StepNext::Applied(answer)
            &&& y.next == StepNext::<S::V>::Reply(Ok(answer))
            &&& y.reconciler == x.reconciler
            &&& y.actions.len() == 0
        }),
{
    let x = reconcile::proceed(r, a);
    crate::lifecycle::step_laws::law_repeat_is_replayed_or_a_conflict::<S>(
        x.reconciler,
        a.generation,
        a.submitted,
        results,
    );
}

/// The first step of a generation, once it is planned: what is in the way is
/// stopped, and the endpoints without work at the front are passed over. The rest
/// waits for its turn, with the plans that were made and nothing reported but what
/// those at the front owe.
pub proof fn law_planned_generation_begins<V>(
    r: ReconcilerView<V>,
    generation: Generation,
    submitted: Seq<DesiredView<V>>,
    endpoints: Seq<DesiredView<V>>,
    unref: Map<Seq<char>, Seq<char>>,
    builds: Seq<Result<EndpointSpecView, Seq<char>>>,
    id: Seq<char>,
    one: ResultView,
)
    ensures
        ({
            let plans = reconcile::final_plans(r, endpoints, unref, builds);
            let order = crate::idmap::in_order(plans.dom());
            let freed = plan::all_released(r.manager, plans);
            let x = reconcile::planned(r, generation, submitted, endpoints, unref, builds);
            &&& x.actions == freed.actions
            &&& x.reconciler.manager == freed.manager
            &&& x.reconciler.ready == r.ready && x.reconciler.location == r.location
            &&& x.next matches StepNext::More(pending) ==> {
                &&& x.reconciler == ReconcilerView { manager: freed.manager, ..r }
                &&& pending matches PendingView::Applying(a)
                &&& a.generation == generation
                &&& a.submitted == submitted
                &&& a.plans == plans
                &&& a.order == order
                &&& a.released == freed.released
                &&& a.stage is Polling
                &&& 0 <= a.index < order.len()
                &&& has_work(plans[order[a.index]])
                &&& forall|j: int| 0 <= j < a.index ==> !has_work(plans[#[trigger] order[j]])
                &&& a.results.contains(one) <==> exists|j: int|
                    0 <= j < a.index && is_owed(freed.manager, plans[order[j]], #[trigger] order[j], one)
                &&& passed_over(
                    freed.manager,
                    r.applied,
                    plan::desired_of(endpoints, unref, builds),
                    a.desired,
                    is_refused(a, 0, a.index, id),
                    id,
                )
            }
            &&& x.next is Reply ==> false
            &&& x.next matches StepNext::Applied(answer) ==> {
                &&& answer.generation == generation
                &&& answer.results.contains(one) <==> exists|j: int|
                    0 <= j < order.len() && is_owed(freed.manager, plans[order[j]], #[trigger] order[j], one)
                &&& forall|j: int| 0 <= j < order.len() ==> !has_work(plans[#[trigger] order[j]])
                &&& x.reconciler.content == Some(submitted)
                &&& x.reconciler.active == Some(generation)
                &&& passed_over(
                    freed.manager,
                    r.applied,
                    plan::desired_of(endpoints, unref, builds),
                    x.reconciler.applied,
                    order.contains(id) && plans[id] is Invalid,
                    id,
                )
            }
        }),
{
    let plans = reconcile::final_plans(r, endpoints, unref, builds);
    let freed = plan::all_released(r.manager, plans);
    let n = ReconcilerView { manager: freed.manager, ..r };
    let a = ApplyingView {
        generation,
        submitted,
        order: crate::idmap::in_order(plans.dom()),
        plans,
        index: 0,
        desired: plan::desired_of(endpoints, unref, builds),
        released: freed.released,
        results: Seq::empty(),
        stage: ApplyStageView::Polling,
    };
    law_endpoints_without_work_are_passed_over(n.manager, n.applied, a, id, one);
    let c = reconcile::skip(n.manager, n.applied, a);
    assert(c.results.skip(0) =~= c.results);
    assert(is_refused(a, 0, a.order.len() as int, id) == (a.order.contains(id) && plans[id] is Invalid)) by {
        if a.order.contains(id) && plans[id] is Invalid {
            let j = a.order.index_of(id);
            assert(a.order[j] == id);
        }
    }
    let d = ApplyingView { stage: ApplyStageView::Polling, ..c };
    assert(is_refused(a, 0, c.index, id) == is_refused(d, 0, c.index, id)) by {
        if is_refused(a, 0, c.index, id) {
            let j = choose|j: int| 0 <= j < c.index && #[trigger] a.order[j] == id && a.plans[id] is Invalid;
            assert(d.order[j] == id);
        }
        if is_refused(d, 0, c.index, id) {
            let j = choose|j: int| 0 <= j < c.index && #[trigger] d.order[j] == id && d.plans[id] is Invalid;
            assert(a.order[j] == id);
        }
    }
    assert(freed.actions + Seq::<Action>::empty() =~= freed.actions);
}

/// What is desired before anything is applied: the first description of every id
/// that could be refreshed and built, and nothing else.
pub proof fn law_desired_is_what_could_be_built<V>(
    eps: Seq<DesiredView<V>>,
    unref: Map<Seq<char>, Seq<char>>,
    builds: Seq<Result<EndpointSpecView, Seq<char>>>,
    i: int,
)
    requires
        0 <= i < eps.len(),
        i < builds.len(),
        forall|j: int| 0 <= j < i ==> (#[trigger] eps[j]).id != eps[i].id,
    ensures
        ({
            let d = plan::desired_of(eps, unref, builds);
            &&& d.dom().contains(eps[i].id) <==> !unref.dom().contains(eps[i].id) && builds[i] is Ok
            &&& d.dom().contains(eps[i].id) ==> d[eps[i].id] == eps[i].spec
            &&& forall|id: Seq<char>| #[trigger] d.dom().contains(id) ==> exists|j: int|
                0 <= j < eps.len() && (#[trigger] eps[j]).id == id
        }),
{
    assert(plan::occurs(eps, eps[i].id));
    plan::lemma_first(eps, eps[i].id);
    assert(plan::first(eps, eps[i].id) == i);
}

// ------------------------------------------------------------- one endpoint --

/// What an operation reported, as results of an id.
pub open spec fn reported_as(id: Seq<char>, outcomes: Seq<SlotOutcomeView>) -> Seq<ResultView> {
    Seq::new(
        outcomes.len(),
        |i: int|
            ResultView {
                id,
                proto: outcomes[i].proto,
                action: outcomes[i].action,
                error: outcomes[i].error,
                retryable: outcomes[i].retryable,
            },
    )
}

/// An endpoint that is to be started or replaced is asked to listen under the
/// generation that is being applied, as it was built, for the first protocol that
/// does not run that way yet. Nothing is reported yet, and nothing else applied.
/// If it is through at once it is judged by its outcomes.
pub proof fn law_listeners_are_started_under_the_generation<V>(
    r: ReconcilerView<V>,
    a: ApplyingView<V>,
    built: EndpointSpecView,
    finished: Seq<TaskId>,
)
    requires
        0 <= a.index < a.order.len(),
        a.stage is Polling,
        a.plans[a.order[a.index]] == (PlanView::Start { built }) || a.plans[a.order[a.index]] == (PlanView::Replace {
            built,
        }),
    ensures
        ({
            let id = a.order[a.index];
            let n = manager::refreshed(r.manager, finished);
            let tcp = built.tcp && !runs_it(slot_at(n, id, Proto::Tcp), built, deadlines(r.manager, built));
            let udp = built.udp && !runs_it(slot_at(n, id, Proto::Udp), built, deadlines(r.manager, built));
            let x = reconcile::applying_resumed(r, a, AnswerView::Polled(finished));
            tcp || udp ==> {
                &&& x.next matches StepNext::More(pending)
                &&& pending matches PendingView::Applying(b)
                &&& reconcile::needed(x.reconciler, pending) == NeedView::<V>::Start(
                    StartRequestView {
                        proto: if tcp {
                            Proto::Tcp
                        } else {
                            Proto::Udp
                        },
                        endpoint: built.endpoint,
                        generation: a.generation,
                    },
                )
                &&& b == ApplyingView { stage: b.stage, ..a }
                &&& b.stage matches ApplyStageView::Starting(op)
                &&& op.id == id && op.generation == a.generation && op.spec == built && op.drain == deadlines(
                    r.manager,
                    built,
                )
                &&& x.reconciler == ReconcilerView { manager: x.reconciler.manager, ..r }
                &&& x.reconciler.manager.entries.dom().contains(id)
                &&& x.actions == manager::apply_begun(r.manager, id, a.generation, built, finished).actions
            }
        }),
        ({
            let p = manager::apply_begun(r.manager, a.order[a.index], a.generation, built, finished);
            let x = reconcile::applying_resumed(r, a, AnswerView::Polled(finished));
            p.next matches NextView::Done(outcomes) ==> {
                let y = reconcile::applied_with(ReconcilerView { manager: p.manager, ..r }, a, outcomes);
                &&& x.reconciler == y.reconciler
                &&& x.next == y.next
                &&& x.actions == p.actions + y.actions
            }
        }),
{
    let id = a.order[a.index];
    slot_laws::law_applying_begins_with_the_first_protocol_to_start(r.manager, id, a.generation, built, finished);
    let p = manager::apply_begun(r.manager, id, a.generation, built, finished);
    assert(ApplyingView { stage: ApplyStageView::Polling, ..a } == a);
    assert(reconcile::applying_resumed(r, a, AnswerView::Polled(finished)) == reconcile::applying_progress(
        r,
        ApplyingView { stage: ApplyStageView::Polling, ..a },
        p,
    ));
    assert(p.actions + Seq::<Action>::empty() =~= p.actions);
}

/// While an endpoint is being started, it stays the one that is being applied: what
/// is started next for it is started for the same rule under the same generation.
/// Whatever is to be done for it is done, and once it is through it is judged by
/// its outcomes.
pub proof fn law_started_endpoint_stays_the_same<V>(
    r: ReconcilerView<V>,
    a: ApplyingView<V>,
    op: manager::ApplyOpView,
    started: Result<Bound, Seq<char>>,
)
    requires
        0 <= a.index < a.order.len(),
        a.stage == ApplyStageView::Starting(op),
        r.manager.entries.dom().contains(op.id),
    ensures
        ({
            let x = reconcile::applying_resumed(r, a, AnswerView::Started(started));
            let p = manager::apply_resumed(r.manager, op, started);
            &&& p.next matches NextView::More(o) ==> {
                &&& x.next == StepNext::<V>::More(
                    PendingView::Applying(ApplyingView { stage: ApplyStageView::Starting(o), ..a }),
                )
                &&& o.id == op.id && o.generation == op.generation && o.spec == op.spec && o.drain == op.drain
                &&& x.actions == p.actions
                &&& x.reconciler == ReconcilerView { manager: p.manager, ..r }
            }
            &&& p.next matches NextView::Done(outcomes) ==> {
                let y = reconcile::applied_with(
                    ReconcilerView { manager: p.manager, ..r },
                    ApplyingView { stage: ApplyStageView::Polling, ..a },
                    outcomes,
                );
                &&& x.reconciler == y.reconciler
                &&& x.next == y.next
                &&& x.actions == p.actions + y.actions
            }
            &&& x.reconciler.manager == p.manager
        }),
{
    slot_laws::law_operation_stays_what_it_is(r.manager, op, started);
    let b = ApplyingView { stage: ApplyStageView::Polling, ..a };
    let p = manager::apply_resumed(r.manager, op, started);
    if let NextView::More(o) = p.next {
        assert(ApplyingView { stage: ApplyStageView::Starting(o), ..b } == ApplyingView {
            stage: ApplyStageView::Starting(o),
            ..a
        });
        assert(p.actions + Seq::<Action>::empty() =~= p.actions);
    }
}

/// The same of an endpoint that is being put back.
pub proof fn law_endpoint_put_back_stays_the_same<V>(
    r: ReconcilerView<V>,
    a: ApplyingView<V>,
    op: manager::ApplyOpView,
    started: Result<Bound, Seq<char>>,
)
    requires
        0 <= a.index < a.order.len(),
        a.stage == ApplyStageView::Restarting(op),
        r.manager.entries.dom().contains(op.id),
    ensures
        ({
            let x = reconcile::applying_resumed(r, a, AnswerView::Started(started));
            let p = manager::apply_resumed(r.manager, op, started);
            &&& p.next matches NextView::More(o) ==> {
                &&& x.next == StepNext::<V>::More(
                    PendingView::Applying(ApplyingView { stage: ApplyStageView::Restarting(o), ..a }),
                )
                &&& o.id == op.id && o.generation == op.generation && o.spec == op.spec && o.drain == op.drain
                &&& x.actions == p.actions
                &&& x.reconciler == ReconcilerView { manager: p.manager, ..r }
            }
            &&& p.next matches NextView::Done(outcomes) ==> {
                let y = reconcile::restored_with(
                    ReconcilerView { manager: p.manager, ..r },
                    ApplyingView { stage: ApplyStageView::Polling, ..a },
                    outcomes,
                );
                &&& x.reconciler == y.reconciler
                &&& x.next == y.next
                &&& x.actions == p.actions + y.actions
            }
        }),
{
    slot_laws::law_operation_stays_what_it_is(r.manager, op, started);
    let b = ApplyingView { stage: ApplyStageView::Polling, ..a };
    let p = manager::apply_resumed(r.manager, op, started);
    if let NextView::More(o) = p.next {
        assert(ApplyingView { stage: ApplyStageView::Restarting(o), ..b } == ApplyingView {
            stage: ApplyStageView::Restarting(o),
            ..a
        });
        assert(p.actions + Seq::<Action>::empty() =~= p.actions);
    }
}

/// An id that is deleted is managed no more, desired no more, and reported deleted
/// for each protocol it had, tcp before udp. What it ran is stopped, and drains
/// under its delete deadline. The generation goes on with the next endpoint.
pub proof fn law_deleted_id_is_gone<V>(r: ReconcilerView<V>, a: ApplyingView<V>, finished: Seq<TaskId>)
    requires
        0 <= a.index < a.order.len(),
        a.stage is Polling,
        a.plans[a.order[a.index]] is Delete,
    ensures
        ({
            let id = a.order[a.index];
            let n = manager::refreshed(r.manager, finished);
            let tcp = slot_at(n, id, Proto::Tcp);
            let udp = slot_at(n, id, Proto::Udp);
            let deadline = n.entries[id].drain.on_delete;
            let x = reconcile::applying_resumed(r, a, AnswerView::Polled(finished));
            let left = ManagerView { entries: n.entries.remove(id), ..n };
            let next = ApplyingView {
                index: a.index + 1,
                desired: a.desired.remove(id),
                results: a.results + reported_as(id, deleted(tcp, Proto::Tcp) + deleted(udp, Proto::Udp)),
                ..a
            };
            let y = reconcile::proceed(ReconcilerView { manager: left, ..r }, next);
            &&& x.actions == let_go(tcp, deadline) + let_go(udp, deadline)
            &&& x.reconciler == y.reconciler
            &&& x.next == y.next
        }),
{
    let id = a.order[a.index];
    slot_laws::law_removing_an_id(r.manager, id, finished);
    let n = manager::refreshed(r.manager, finished);
    let x = manager::removed(r.manager, id, finished);
    let out = deleted(slot_at(n, id, Proto::Tcp), Proto::Tcp) + deleted(slot_at(n, id, Proto::Udp), Proto::Udp);
    assert(reconcile::outcome_results(id, x.outcomes) =~= reported_as(id, out));
    assert(x.manager == ManagerView { entries: n.entries.remove(id), ..n });
    let b = ApplyingView { stage: ApplyStageView::Polling, ..a };
    assert(b == a);
    assert(x.actions + Seq::<Action>::empty() =~= x.actions);
}

/// An endpoint that is through with what was to be done is reported with each
/// outcome. Without a failure it stays desired as it was described. With one, it is
/// desired as it is applied if it is still served and was applied before, as it was
/// described if it is served and was not, and not at all if it is not served. One
/// that is not served because it made room for another is put back first, as it is
/// applied.
pub proof fn law_endpoint_is_desired_as_it_is_served<V>(
    r: ReconcilerView<V>,
    a: ApplyingView<V>,
    outcomes: Seq<SlotOutcomeView>,
)
    requires
        0 <= a.index < a.order.len(),
    ensures
        ({
            let id = a.order[a.index];
            let failed = exists|i: int| 0 <= i < outcomes.len() && (#[trigger] outcomes[i]).action
                == SlotAction::Failed;
            let up = up_at_all(r.manager, id);
            let known = r.applied.dom().contains(id);
            let results = a.results + reported_as(id, outcomes);
            let desired = if !failed {
                a.desired
            } else if !up {
                a.desired.remove(id)
            } else if known {
                a.desired.insert(id, r.applied[id])
            } else {
                a.desired
            };
            let x = reconcile::applied_with(r, a, outcomes);
            let back = failed && a.released.contains(id) && !up && known;
            &&& !back ==> x == reconcile::proceed(r, ApplyingView { index: a.index + 1, results, desired, ..a })
            &&& back ==> {
                &&& x.reconciler == r
                &&& x.actions.len() == 0
                &&& x.next matches StepNext::More(pending)
                &&& pending == PendingView::Applying(
                    ApplyingView { results, stage: ApplyStageView::Rebuilding, ..a },
                )
                &&& reconcile::needed(r, pending) == NeedView::Build(seq![Some(r.applied[id])])
            }
        }),
{
    let id = a.order[a.index];
    assert(r.manager.serving(id, Proto::Tcp) is Some == is_up(r.manager, id, Proto::Tcp));
    assert(r.manager.serving(id, Proto::Udp) is Some == is_up(r.manager, id, Proto::Udp));
    assert(reconcile::outcome_results(id, outcomes) =~= reported_as(id, outcomes));
}

/// An endpoint that is to be put back, and whose applied description could be
/// built, is asked to listen as it was built then.
pub proof fn law_endpoint_is_put_back_as_it_was_applied<V>(
    r: ReconcilerView<V>,
    a: ApplyingView<V>,
    built: EndpointSpecView,
    finished: Seq<TaskId>,
)
    requires
        0 <= a.index < a.order.len(),
        a.stage is Rebuilding,
        built.tcp || built.udp,
        !up_at_all(manager::refreshed(r.manager, finished), a.order[a.index]),
    ensures
        ({
            let id = a.order[a.index];
            let x = reconcile::applying_resumed(r, a, AnswerView::Built(seq![Ok(built)]));
            let b = ApplyingView { stage: ApplyStageView::Repolling(built), ..a };
            let y = reconcile::applying_resumed(r, b, AnswerView::Polled(finished));
            &&& x.reconciler == r
            &&& x.actions.len() == 0
            &&& x.next == StepNext::<V>::More(PendingView::Applying(b))
            &&& reconcile::needed(r, PendingView::Applying(b)) == NeedView::<V>::Poll
            &&& y.next matches StepNext::More(pending)
            &&& reconcile::needed(y.reconciler, pending) == NeedView::<V>::Start(
                StartRequestView {
                    proto: if built.tcp {
                        Proto::Tcp
                    } else {
                        Proto::Udp
                    },
                    endpoint: built.endpoint,
                    generation: a.generation,
                },
            )
        }),
{
    let id = a.order[a.index];
    slot_laws::law_applying_begins_with_the_first_protocol_to_start(r.manager, id, a.generation, built, finished);
    let b = ApplyingView { stage: ApplyStageView::Repolling(built), ..a };
    let p = manager::apply_begun(r.manager, id, a.generation, built, finished);
    assert(reconcile::applying_resumed(r, b, AnswerView::Polled(finished)) == reconcile::restoring_progress(
        r,
        ApplyingView { stage: ApplyStageView::Polling, ..b },
        p,
    ));
}

/// An endpoint that is to be put back, and whose applied description cannot be
/// built, is given up: it is desired as it is applied if it is served after all,
/// and not at all if it is not.
pub proof fn law_endpoint_that_cannot_be_built_is_given_up<V>(
    r: ReconcilerView<V>,
    a: ApplyingView<V>,
    builds: Seq<Result<EndpointSpecView, Seq<char>>>,
)
    requires
        0 <= a.index < a.order.len(),
        a.stage is Rebuilding,
        builds.len() == 0 || builds[0] is Err,
    ensures
        ({
            let id = a.order[a.index];
            let desired = if !up_at_all(r.manager, id) {
                a.desired.remove(id)
            } else if r.applied.dom().contains(id) {
                a.desired.insert(id, r.applied[id])
            } else {
                a.desired
            };
            reconcile::applying_resumed(r, a, AnswerView::Built(builds)) == reconcile::proceed(
                r,
                ApplyingView { index: a.index + 1, desired, stage: ApplyStageView::Polling, ..a },
            )
        }),
{
    let id = a.order[a.index];
    assert(r.manager.serving(id, Proto::Tcp) is Some == is_up(r.manager, id, Proto::Tcp));
    assert(r.manager.serving(id, Proto::Udp) is Some == is_up(r.manager, id, Proto::Udp));
}

/// Whether an answer is to what a generation being applied waits for.
pub open spec fn is_awaited<V>(a: ApplyingView<V>, answer: AnswerView<V>) -> bool {
    match a.stage {
        ApplyStageView::Polling => answer is Polled,
        ApplyStageView::Starting(_) => answer is Started,
        ApplyStageView::Rebuilding => answer is Built,
        ApplyStageView::Repolling(_) => answer is Polled,
        ApplyStageView::Restarting(_) => answer is Started,
    }
}

/// An answer to something that a generation being applied does not wait for
/// changes nothing.
pub proof fn law_unasked_answer_changes_nothing<S: EndpointSource>(
    r: ReconcilerView<S::V>,
    a: ApplyingView<S::V>,
    answer: AnswerView<S::V>,
)
    requires
        0 <= a.index < a.order.len(),
    ensures
        ({
            let x = reconcile::resumed::<S>(r, PendingView::Applying(a), answer);
            &&& x == reconcile::applying_resumed(r, a, answer)
            &&& !is_awaited(a, answer) ==> {
                &&& x.reconciler == r
                &&& x.actions.len() == 0
                &&& x.next == StepNext::<S::V>::More(PendingView::Applying(a))
            }
        }),
{
}

/// Once the former listeners of an endpoint are back, its failures say so, for each
/// protocol that was put back. No other result changes, and nothing else of these
/// does. If they could not be put back, no result changes at all.
pub proof fn law_failures_tell_of_what_was_put_back<V>(
    r: ReconcilerView<V>,
    a: ApplyingView<V>,
    outcomes: Seq<SlotOutcomeView>,
)
    requires
        0 <= a.index < a.order.len(),
    ensures
        ({
            let id = a.order[a.index];
            let failed = exists|i: int| 0 <= i < outcomes.len() && (#[trigger] outcomes[i]).action
                == SlotAction::Failed;
            let x = reconcile::restored_with(r, a, outcomes);
            let up = up_at_all(r.manager, id);
            let desired = if !up {
                a.desired.remove(id)
            } else if r.applied.dom().contains(id) {
                a.desired.insert(id, r.applied[id])
            } else {
                a.desired
            };
            let told = reconcile::noted(a.results, id, outcomes);
            let results = if failed {
                a.results
            } else {
                told
            };
            &&& x == reconcile::proceed(r, ApplyingView { index: a.index + 1, results, desired, ..a })
            &&& told.len() == a.results.len()
            &&& forall|i: int|
                0 <= i < told.len() ==> {
                    let old = a.results[i];
                    let put_back = old.id == id && old.action == SlotAction::Failed && exists|k: int|
                        0 <= k < outcomes.len() && (#[trigger] outcomes[k]).proto == old.proto;
                    &&& !put_back ==> #[trigger] told[i] == old
                    &&& put_back ==> told[i] == ResultView {
                        error: Some(
                            if old.error is Some {
                                old.error->0 + " (previous listener restored)"@
                            } else {
                                "move failed, previous listener restored"@
                            },
                        ),
                        ..old
                    }
                }
        }),
{
    let id = a.order[a.index];
    assert(r.manager.serving(id, Proto::Tcp) is Some == is_up(r.manager, id, Proto::Tcp));
    assert(r.manager.serving(id, Proto::Udp) is Some == is_up(r.manager, id, Proto::Udp));
}

// ----------------------------------------------------------- shutting down --

proof fn lemma_shut_down(m: ManagerView, order: Seq<Seq<char>>, n: int, finished: Seq<TaskId>)
    requires
        0 <= n <= order.len(),
        crate::idmap::strictly_sorted(order),
    ensures
        ({
            let x = reconcile::shut_down(m, order, n, finished);
            let f = manager::refreshed(m, finished);
            &&& forall|j: int|
                n <= j < order.len() ==> #[trigger] slots_agree(
                    manager::refreshed(x.manager, finished),
                    f,
                    order[j],
                )
            &&& forall|j: int, proto: Proto|
                0 <= j < n && #[trigger] is_up(f, order[j], proto) ==> x.actions.contains(
                    stop_all(f, order[j], proto),
                ) && x.actions.contains(drain_all(f, order[j], proto))
        }),
    decreases n,
{
    let x = reconcile::shut_down(m, order, n, finished);
    let f = manager::refreshed(m, finished);
    if n > 0 {
        lemma_shut_down(m, order, n - 1, finished);
        let w = reconcile::shut_down(m, order, n - 1, finished);
        let id = order[n - 1];
        let g = manager::refreshed(w.manager, finished);
        assert(slots_agree(g, f, order[n - 1]));
        slot_laws::law_removing_an_id(w.manager, id, finished);
        let own = manager::removed(w.manager, id, finished);
        assert(x.actions == w.actions + own.actions);
        assert forall|j: int| n <= j < order.len() implies #[trigger] slots_agree(
            manager::refreshed(x.manager, finished),
            f,
            order[j],
        ) by {
            assert(slots_agree(g, f, order[j]));
            plan::lemma_distinct(order, n - 1);
            assert(order[j] != id);
            lemma_refresh_twice(w.manager, finished, order[j]);
            lemma_refresh_same(x.manager, g, finished, order[j]);
        }
        assert forall|j: int, proto: Proto| 0 <= j < n && #[trigger] is_up(f, order[j], proto) implies x.actions.contains(
            stop_all(f, order[j], proto),
        ) && x.actions.contains(drain_all(f, order[j], proto)) by {
            let s = stop_all(f, order[j], proto);
            let d = drain_all(f, order[j], proto);
            if j < n - 1 {
                assert(w.actions.contains(s) && w.actions.contains(d));
                assert(x.actions[w.actions.index_of(s)] == s);
                assert(x.actions[w.actions.index_of(d)] == d);
            } else {
                let tcp = let_go(slot_at(g, id, Proto::Tcp), g.entries[id].drain.on_delete);
                let at = w.actions.len() + match proto {
                    Proto::Tcp => 0,
                    Proto::Udp => tcp.len() as int,
                };
                assert(slot_at(g, id, proto) == slot_at(f, id, proto));
                assert(own.actions[at - w.actions.len()] == s);
                assert(own.actions[at - w.actions.len() + 1] == d);
                assert(x.actions[at] == s);
                assert(x.actions[at + 1] == d);
            }
        }
    } else {
        assert forall|j: int| 0 <= j < order.len() implies #[trigger] slots_agree(
            manager::refreshed(x.manager, finished),
            f,
            order[j],
        ) by {}
    }
}

/// Whether two states agree on an id: its slots, and its deadlines if it is there.
pub open spec fn slots_agree(a: ManagerView, b: ManagerView, id: Seq<char>) -> bool {
    &&& a.entries.dom().contains(id) == b.entries.dom().contains(id)
    &&& a.entries.dom().contains(id) ==> a.entries[id] == b.entries[id]
}

proof fn lemma_refresh_same(a: ManagerView, b: ManagerView, finished: Seq<TaskId>, id: Seq<char>)
    requires
        slots_agree(a, b, id),
    ensures
        slots_agree(manager::refreshed(a, finished), manager::refreshed(b, finished), id),
{
}

proof fn lemma_refresh_twice(m: ManagerView, finished: Seq<TaskId>, id: Seq<char>)
    ensures
        slots_agree(
            manager::refreshed(manager::refreshed(m, finished), finished),
            manager::refreshed(m, finished),
            id,
        ),
{
    let f = manager::refreshed(m, finished);
    let g = manager::refreshed(f, finished);
    if m.entries.dom().contains(id) {
        slot_laws::law_only_tasks_that_ended_matter(m, finished, id, Proto::Tcp);
        slot_laws::law_only_tasks_that_ended_matter(m, finished, id, Proto::Udp);
        slot_laws::law_only_tasks_that_ended_matter(f, finished, id, Proto::Tcp);
        slot_laws::law_only_tasks_that_ended_matter(f, finished, id, Proto::Udp);
        lemma_no_cohort_ended(m, finished, id, Proto::Tcp);
        lemma_no_cohort_ended(m, finished, id, Proto::Udp);
        assert(slot_at(g, id, Proto::Tcp) == slot_at(f, id, Proto::Tcp));
        assert(slot_at(g, id, Proto::Udp) == slot_at(f, id, Proto::Udp));
        assert(g.entries[id] =~= f.entries[id]);
    }
}

proof fn lemma_no_cohort_ended(m: ManagerView, finished: Seq<TaskId>, id: Seq<char>, proto: Proto)
    ensures
        slot_at(manager::refreshed(m, finished), id, proto) matches Some(s) ==> forall|i: int|
            0 <= i < s.draining.len() ==> !finished.contains((#[trigger] s.draining[i]).task),
{
    slot_laws::law_only_tasks_that_ended_matter(m, finished, id, proto);
    if let Some(s) = slot_at(manager::refreshed(m, finished), id, proto) {
        assert forall|i: int| 0 <= i < s.draining.len() implies !finished.contains((#[trigger] s.draining[i]).task) by {
            assert(s.draining.contains(s.draining[i]));
        }
    }
}

/// The stop of what an id runs.
pub open spec fn stop_all(m: ManagerView, id: Seq<char>, proto: Proto) -> Action {
    Action::Stop { task: slot_at(m, id, proto)->0.active->0.task }
}

/// The drain of what an id runs, under its delete deadline.
pub open spec fn drain_all(m: ManagerView, id: Seq<char>, proto: Proto) -> Action {
    let a = slot_at(m, id, proto)->0.active->0;
    Action::Drain { task: a.task, generation: a.generation, deadline: m.entries[id].drain.on_delete }
}

/// Shutting down stops every listener that is left, and drains each under the
/// delete deadline of its endpoint.
pub proof fn law_shutdown_stops_every_listener(
    m: ManagerView,
    finished: Seq<TaskId>,
    id: Seq<char>,
    proto: Proto,
)
    requires
        m.entries.dom().finite(),
        is_up(manager::refreshed(m, finished), id, proto),
    ensures
        ({
            let order = crate::idmap::in_order(m.entries.dom());
            let f = manager::refreshed(m, finished);
            let x = reconcile::shut_down(m, order, order.len() as int, finished);
            &&& x.actions.contains(Action::Stop { task: slot_at(f, id, proto)->0.active->0.task })
            &&& x.actions.contains(
                Action::Drain {
                    task: slot_at(f, id, proto)->0.active->0.task,
                    generation: slot_at(f, id, proto)->0.active->0.generation,
                    deadline: f.entries[id].drain.on_delete,
                },
            )
        }),
{
    let order = crate::idmap::in_order(m.entries.dom());
    let f = manager::refreshed(m, finished);
    crate::idmap::lemma_finite_in_order(m.entries.dom());
    lemma_shut_down(m, order, order.len() as int, finished);
    assert(m.entries.dom().contains(id));
    assert(order.contains(id));
    let j = order.index_of(id);
    assert(is_up(f, order[j], proto));
}

// ---------------------------------------------------------------- keeping --

/// What is kept for the next start is what is applied, under the active
/// generation, with whether that was applied in part.
pub proof fn law_what_is_applied_is_kept<V>(r: ReconcilerView<V>)
    ensures
        reconcile::snapshot_of(r).endpoints == r.applied,
        reconcile::snapshot_of(r).partial == r.partial,
        r.active matches Some(g) ==> reconcile::snapshot_of(r).generation == g,
        r.active is None ==> reconcile::snapshot_of(r).generation == 0,
{
}

/// A rule of the static configuration has an id made of its protocols and its
/// listen address; one without a protocol goes by tcp.
pub proof fn law_derived_id_spells_protocols_and_address(laddr: SocketAddr, tcp: bool, udp: bool)
    ensures
        ({
            let id = reconcile::derived_id(laddr, tcp, udp);
            &&& tcp && udp ==> id == "tcpudp"@ + ":"@ + net::addr_text(laddr)
            &&& tcp && !udp ==> id == "tcp"@ + ":"@ + net::addr_text(laddr)
            &&& !tcp && udp ==> id == "udp"@ + ":"@ + net::addr_text(laddr)
            &&& !tcp && !udp ==> id == "tcp"@ + ":"@ + net::addr_text(laddr)
        }),
{
}

} // verus!
