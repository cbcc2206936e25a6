//! What holds of submissions, whatever they ask for and whatever happens while
//! they are applied.

use vstd::prelude::*;

use crate::lifecycle::manager;
use crate::lifecycle::manager::ManagerView;
use crate::lifecycle::plan;
use crate::lifecycle::plan::{DesiredView, EndpointSource, PlanView};
use crate::lifecycle::reconcile;
use crate::lifecycle::reconcile::{ErrorView, ReconcilerView, StepNext};
use crate::lifecycle::types::{EndpointSpecView, Generation, Proto};
use crate::net::SocketAddr;

verus! {

// --------------------------------------------------------------- refusals --

/// Before the restore has finished every submission is refused, and nothing
/// changes.
pub proof fn law_not_ready_refuses<V>(
    r: ReconcilerView<V>,
    generation: Generation,
    endpoints: Seq<DesiredView<V>>,
)
    requires
        !r.ready,
    ensures
        reconcile::submitted(r, generation, endpoints) == reconcile::unmoved(
            r,
            StepNext::Reply(Err(ErrorView::NotReady)),
        ),
{
}

/// A generation older than the active one is refused, naming the active one,
/// and nothing changes.
pub proof fn law_older_generation_is_stale<V>(
    r: ReconcilerView<V>,
    generation: Generation,
    endpoints: Seq<DesiredView<V>>,
)
    requires
        r.ready,
        r.active matches Some(active) && generation < active,
    ensures
        reconcile::submitted(r, generation, endpoints) == reconcile::unmoved(
            r,
            StepNext::Reply(Err(ErrorView::Stale { active: r.active->0 })),
        ),
{
}

/// The active generation submitted again, with the same content and the
/// material its endpoints run on, is answered as the first time, and nothing
/// changes.
pub proof fn law_repeat_is_replayed<S: EndpointSource>(
    r: ReconcilerView<S::V>,
    generation: Generation,
    endpoints: Seq<DesiredView<S::V>>,
    results: Seq<Result<S::V, Seq<char>>>,
)
    requires
        r.active == Some(generation),
        r.last is Some,
        r.content matches Some(c) && reconcile::same_content::<S>(c, endpoints),
        forall|i: int| 0 <= i < endpoints.len() ==> #[trigger] reconcile::refresh_result(results, i) is Ok,
        !reconcile::material_drifted::<S>(r.applied, reconcile::refreshed_endpoints(endpoints, results)),
    ensures
        reconcile::judged::<S>(r, generation, endpoints, results) == reconcile::unmoved(
            r,
            StepNext::Reply(Ok(r.last->0)),
        ),
{
    lemma_all_refreshed(endpoints, results, endpoints.len() as int);
}

pub(crate) proof fn lemma_all_refreshed<V>(endpoints: Seq<DesiredView<V>>, results: Seq<Result<V, Seq<char>>>, n: int)
    requires
        n <= endpoints.len(),
        forall|i: int| 0 <= i < endpoints.len() ==> #[trigger] reconcile::refresh_result(results, i) is Ok,
    ensures
        reconcile::unrefreshed(endpoints, results, n).dom() =~= Set::<Seq<char>>::empty(),
    decreases n,
{
    if n > 0 {
        lemma_all_refreshed(endpoints, results, n - 1);
        assert(reconcile::refresh_result(results, n - 1) is Ok);
    }
}

/// The active generation submitted again with other content, or after the
/// material behind it changed, is a conflict, and nothing changes.
pub proof fn law_conflicting_repeat_is_stale<S: EndpointSource>(
    r: ReconcilerView<S::V>,
    generation: Generation,
    endpoints: Seq<DesiredView<S::V>>,
    results: Seq<Result<S::V, Seq<char>>>,
)
    requires
        r.active == Some(generation),
        r.last is Some,
        forall|i: int| 0 <= i < endpoints.len() ==> #[trigger] reconcile::refresh_result(results, i) is Ok,
        !(r.content matches Some(c) && reconcile::same_content::<S>(c, endpoints))
            || reconcile::material_drifted::<S>(
            r.applied,
            reconcile::refreshed_endpoints(endpoints, results),
        ),
    ensures
        reconcile::judged::<S>(r, generation, endpoints, results) == reconcile::unmoved(
            r,
            StepNext::Reply(Err(ErrorView::Stale { active: generation })),
        ),
{
    lemma_all_refreshed(endpoints, results, endpoints.len() as int);
}

proof fn lemma_sole_document<S: EndpointSource>(eps: Seq<DesiredView<S::V>>, i: int)
    requires
        0 <= i < eps.len(),
        !plan::repeated(eps, eps[i].id),
    ensures
        reconcile::documents::<S>(eps, eps[i].id) == seq![S::document(eps[i].spec)],
    decreases eps.len(),
{
    let id = eps[i].id;
    let t = eps.drop_last();
    if i == eps.len() - 1 {
        assert(!plan::occurs(t, id)) by {
            if plan::occurs(t, id) {
                let j = choose|j: int| 0 <= j < t.len() && (#[trigger] t[j]).id == id;
                assert(eps[j].id == id && eps[i].id == id);
            }
        }
        lemma_no_document::<S>(t, id);
        assert(Seq::<S::Document>::empty().push(S::document(eps[i].spec)) =~= seq![S::document(eps[i].spec)]);
    } else {
        assert(t[i] == eps[i]);
        assert(!plan::repeated(t, id)) by {
            if plan::repeated(t, id) {
                let (x, y) = choose|x: int, y: int|
                    0 <= x < y < t.len() && (#[trigger] t[x]).id == id && (#[trigger] t[y]).id == id;
                assert(eps[x].id == id && eps[y].id == id);
            }
        }
        lemma_sole_document::<S>(t, i);
        assert(eps.last() == eps[eps.len() - 1]);
        assert(eps[i].id == id && eps[eps.len() - 1].id != id);
    }
}

proof fn lemma_no_document<S: EndpointSource>(eps: Seq<DesiredView<S::V>>, id: Seq<char>)
    requires
        !plan::occurs(eps, id),
    ensures
        reconcile::documents::<S>(eps, id) == Seq::<S::Document>::empty(),
    decreases eps.len(),
{
    if eps.len() > 0 {
        let t = eps.drop_last();
        assert(!plan::occurs(t, id)) by {
            if plan::occurs(t, id) {
                let j = choose|j: int| 0 <= j < t.len() && (#[trigger] t[j]).id == id;
                assert(eps[j].id == id);
            }
        }
        assert(eps[eps.len() - 1].id != id);
        lemma_no_document::<S>(t, id);
    }
}

/// The order in which distinct endpoints are submitted does not matter: two
/// submissions of the same endpoints have the same content.
pub proof fn law_content_has_no_order<S: EndpointSource>(a: Seq<DesiredView<S::V>>, b: Seq<DesiredView<S::V>>)
    requires
        forall|id: Seq<char>| !#[trigger] plan::repeated(a, id),
        forall|id: Seq<char>| !#[trigger] plan::repeated(b, id),
        forall|i: int| 0 <= i < a.len() ==> b.contains(#[trigger] a[i]),
        forall|i: int| 0 <= i < b.len() ==> a.contains(#[trigger] b[i]),
    ensures
        reconcile::same_content::<S>(a, b),
{
    assert forall|id: Seq<char>| #[trigger] reconcile::documents::<S>(a, id) == reconcile::documents::<S>(b, id) by {
        if plan::occurs(a, id) {
            let i = choose|i: int| 0 <= i < a.len() && (#[trigger] a[i]).id == id;
            assert(b.contains(a[i]));
            let j = choose|j: int| 0 <= j < b.len() && b[j] == a[i];
            assert(!plan::repeated(a, id) && !plan::repeated(b, id));
            lemma_sole_document::<S>(a, i);
            lemma_sole_document::<S>(b, j);
        } else {
            if plan::occurs(b, id) {
                let j = choose|j: int| 0 <= j < b.len() && (#[trigger] b[j]).id == id;
                assert(a.contains(b[j]));
                let i = choose|i: int| 0 <= i < a.len() && a[i] == b[j];
                assert(a[i].id == id);
            }
            lemma_no_document::<S>(a, id);
            lemma_no_document::<S>(b, id);
        }
    }
}

// ------------------------------------------------------------------- plans --

/// An id nothing desires is deleted, if it is managed; with an empty desired
/// state that is every id.
pub proof fn law_undesired_is_deleted<V>(
    r: ReconcilerView<V>,
    endpoints: Seq<DesiredView<V>>,
    unref: Map<Seq<char>, Seq<char>>,
    builds: Seq<Result<EndpointSpecView, Seq<char>>>,
    id: Seq<char>,
)
    ensures
        ({
            let plans = reconcile::final_plans(r, endpoints, unref, builds);
            &&& plans.dom().contains(id) == (plan::occurs(endpoints, id) || r.manager.entries.dom().contains(id))
            &&& plans.dom().contains(id) && !plan::occurs(endpoints, id) ==> plans[id] is Delete
            &&& plan::occurs(endpoints, id) ==> !(plans[id] is Delete)
            &&& endpoints.len() == 0 && plans.dom().contains(id) ==> plans[id] is Delete
        }),
{
}

/// An endpoint is left as it is exactly when its description is the applied one
/// and everything it asks for is being served.
pub proof fn law_unchanged_means_same_and_running<V>(
    r: ReconcilerView<V>,
    endpoints: Seq<DesiredView<V>>,
    unref: Map<Seq<char>, Seq<char>>,
    builds: Seq<Result<EndpointSpecView, Seq<char>>>,
    id: Seq<char>,
)
    requires
        plan::occurs(endpoints, id),
    ensures
        ({
            let i = plan::first(endpoints, id);
            reconcile::final_plans(r, endpoints, unref, builds)[id] is Unchanged <==> {
                &&& !plan::repeated(endpoints, id)
                &&& !unref.dom().contains(id)
                &&& r.applied.dom().contains(id)
                &&& r.applied[id] == endpoints[i].spec
                &&& plan::build_result(builds, i) matches Ok(built) && plan::all_running(r.manager, id, built)
            }
        }),
{
    let alone = plan::plans_of(r.manager, r.applied, endpoints, unref, builds);
    assert(alone.dom().contains(id));
}

/// A description that could not be refreshed or built fails its own endpoint,
/// with the reason; the same goes for an id submitted twice.
pub proof fn law_bad_description_fails_alone<V>(
    r: ReconcilerView<V>,
    endpoints: Seq<DesiredView<V>>,
    unref: Map<Seq<char>, Seq<char>>,
    builds: Seq<Result<EndpointSpecView, Seq<char>>>,
    id: Seq<char>,
)
    requires
        plan::occurs(endpoints, id),
    ensures
        ({
            let p = reconcile::final_plans(r, endpoints, unref, builds)[id];
            let i = plan::first(endpoints, id);
            &&& plan::repeated(endpoints, id) ==> p == PlanView::Invalid { error: plan::repeated_error(id) }
            &&& !plan::repeated(endpoints, id) && unref.dom().contains(id) ==> p == PlanView::Invalid {
                error: unref[id],
            }
            &&& !plan::repeated(endpoints, id) && !unref.dom().contains(id) ==> (plan::build_result(
                builds,
                i,
            ) matches Err(error) ==> p == PlanView::Invalid { error })
        }),
{
    let alone = plan::plans_of(r.manager, r.applied, endpoints, unref, builds);
    assert(alone.dom().contains(id));
}

pub(crate) proof fn lemma_incumbent_found(
    m: ManagerView,
    plans: Map<Seq<char>, PlanView>,
    order: Seq<Seq<char>>,
    n: int,
    laddr: SocketAddr,
    proto: Proto,
    at: int,
)
    requires
        0 <= at < n <= order.len(),
        plan::holds(m, plans, order[at], laddr, proto),
    ensures
        plan::incumbent(m, plans, order, n, laddr, proto) is Some,
    decreases n,
{
    if at < n - 1 {
        lemma_incumbent_found(m, plans, order, n - 1, laddr, proto, at);
    }
}

/// Two endpoints of one generation that want to listen on the same address for
/// the same protocol both fail, before anything is bound.
pub proof fn law_colliding_newcomers_fail<V>(
    r: ReconcilerView<V>,
    endpoints: Seq<DesiredView<V>>,
    unref: Map<Seq<char>, Seq<char>>,
    builds: Seq<Result<EndpointSpecView, Seq<char>>>,
    a: Seq<char>,
    b: Seq<char>,
    laddr: SocketAddr,
    proto: Proto,
)
    requires
        a != b,
        ({
            let alone = plan::plans_of(r.manager, r.applied, endpoints, unref, builds);
            &&& alone.dom().contains(a) && alone[a].binds(laddr, proto)
            &&& alone.dom().contains(b) && alone[b].binds(laddr, proto)
        }),
    ensures
        reconcile::final_plans(r, endpoints, unref, builds)[a] is Invalid,
        reconcile::final_plans(r, endpoints, unref, builds)[b] is Invalid,
{
    let alone = plan::plans_of(r.manager, r.applied, endpoints, unref, builds);
    assert(plan::contested(alone, a, laddr, proto));
    assert(plan::contested(alone, b, laddr, proto));
    let order = crate::idmap::in_order(alone.dom());
    assert(plan::listen_error(r.manager, alone, order, a, proto) is Some);
    assert(plan::listen_error(r.manager, alone, order, b, proto) is Some);
}

proof fn lemma_submitted_is_finite<V>(endpoints: Seq<DesiredView<V>>, ids: Set<Seq<char>>)
    requires
        forall|id: Seq<char>| #[trigger] ids.contains(id) ==> plan::occurs(endpoints, id),
    ensures
        ids.finite(),
{
    let names = Seq::new(endpoints.len(), |i: int| endpoints[i].id);
    vstd::seq_lib::seq_to_set_is_finite(names);
    assert forall|id: Seq<char>| #[trigger] ids.contains(id) implies names.to_set().contains(id) by {
        let i = choose|i: int| 0 <= i < endpoints.len() && (#[trigger] endpoints[i]).id == id;
        assert(names[i] == id);
    }
    vstd::set_lib::lemma_set_subset_finite(names.to_set(), ids);
}

/// A newcomer that wants the address of an endpoint which stays as it is fails;
/// the incumbent is not disturbed.
pub proof fn law_newcomer_yields_to_incumbent<V>(
    r: ReconcilerView<V>,
    endpoints: Seq<DesiredView<V>>,
    unref: Map<Seq<char>, Seq<char>>,
    builds: Seq<Result<EndpointSpecView, Seq<char>>>,
    newcomer: Seq<char>,
    incumbent: Seq<char>,
    laddr: SocketAddr,
    proto: Proto,
)
    requires
        ({
            let alone = plan::plans_of(r.manager, r.applied, endpoints, unref, builds);
            &&& alone.dom().contains(newcomer) && alone[newcomer].binds(laddr, proto)
            &&& alone.dom().contains(incumbent) && plan::holds(r.manager, alone, incumbent, laddr, proto)
        }),
    ensures
        reconcile::final_plans(r, endpoints, unref, builds)[newcomer] is Invalid,
        reconcile::final_plans(r, endpoints, unref, builds)[incumbent] is Unchanged,
{
    let alone = plan::plans_of(r.manager, r.applied, endpoints, unref, builds);
    let order = crate::idmap::in_order(alone.dom());
    lemma_submitted_is_finite(endpoints, alone.dom());
    crate::idmap::lemma_finite_in_order(alone.dom());
    assert(order.contains(incumbent));
    let at = order.index_of(incumbent);
    lemma_incumbent_found(r.manager, alone, order, order.len() as int, laddr, proto, at);
    assert(plan::listen_error(r.manager, alone, order, newcomer, proto) is Some);
}

} // verus!
