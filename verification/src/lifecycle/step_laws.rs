//! What each step of a submission does, said of its answer and of the state it
//! leaves.

use vstd::prelude::*;

use crate::lifecycle::plan;
use crate::lifecycle::plan::{DesiredView, EndpointSource};
use crate::lifecycle::reconcile;
use crate::lifecycle::reconcile::{AnswerView, ErrorView, NeedView, PendingView, ReconcilerView, StepNext};
use crate::lifecycle::types::Generation;

verus! {

// --------------------------------------------------------------- taking in --

/// A submission that is not older than what is active is taken in once the process
/// is ready: each of its descriptions is asked to be refreshed, in order, and
/// nothing changes.
pub proof fn law_submission_is_taken_in<V>(
    r: ReconcilerView<V>,
    generation: Generation,
    endpoints: Seq<DesiredView<V>>,
)
    ensures
        ({
            let x = reconcile::submitted(r, generation, endpoints);
            let older = r.active matches Some(active) && generation < active;
            &&& x.reconciler == r
            &&& x.actions.len() == 0
            &&& !r.ready ==> x.next == StepNext::<V>::Reply(Err(ErrorView::NotReady))
            &&& r.ready && older ==> x.next == StepNext::<V>::Reply(Err(ErrorView::Stale { active: r.active->0 }))
            &&& r.ready && !older ==> {
                &&& x.next matches StepNext::More(pending)
                &&& reconcile::needed(r, pending) matches NeedView::Refresh(specs)
                &&& specs.len() == endpoints.len()
                &&& forall|i: int| 0 <= i < specs.len() ==> #[trigger] specs[i] == endpoints[i].spec
                &&& pending == PendingView::Refreshing { generation, endpoints }
            }
        }),
{
}

/// Whether refreshing a description failed: it was refused, or not answered.
pub open spec fn not_refreshed<V>(results: Seq<Result<V, Seq<char>>>, i: int) -> bool {
    i >= results.len() || results[i] is Err
}

/// Why refreshing a description failed.
pub open spec fn why_not_refreshed<V>(results: Seq<Result<V, Seq<char>>>, i: int) -> Seq<char> {
    if i >= results.len() {
        "refreshing the endpoint failed: no answer"@
    } else {
        results[i]->Err_0
    }
}

/// Whether the description at a position is the last of an id, among the first `n`,
/// that could not be refreshed.
pub open spec fn is_last_failure<V>(
    eps: Seq<DesiredView<V>>,
    results: Seq<Result<V, Seq<char>>>,
    n: int,
    id: Seq<char>,
    i: int,
) -> bool {
    &&& eps[i].id == id
    &&& not_refreshed(results, i)
    &&& forall|j: int| i < j < n && (#[trigger] eps[j]).id == id ==> !not_refreshed(results, j)
}

proof fn lemma_unrefreshed<V>(
    eps: Seq<DesiredView<V>>,
    results: Seq<Result<V, Seq<char>>>,
    n: int,
    id: Seq<char>,
)
    requires
        0 <= n <= eps.len(),
    ensures
        ({
            let u = reconcile::unrefreshed(eps, results, n);
            &&& u.dom().contains(id) <==> exists|i: int|
                0 <= i < n && (#[trigger] eps[i]).id == id && not_refreshed(results, i)
            &&& u.dom().contains(id) ==> exists|i: int|
                0 <= i < n && #[trigger] is_last_failure(eps, results, n, id, i) && u[id] == why_not_refreshed(
                    results,
                    i,
                )
        }),
    decreases n,
{
    if n > 0 {
        lemma_unrefreshed(eps, results, n - 1, id);
        let u = reconcile::unrefreshed(eps, results, n);
        let w = reconcile::unrefreshed(eps, results, n - 1);
        if not_refreshed(results, n - 1) && eps[n - 1].id == id {
            assert(u[id] == why_not_refreshed(results, n - 1));
            assert(u.dom().contains(id));
            assert(is_last_failure(eps, results, n, id, n - 1));
        } else {
            assert(u.dom().contains(id) == w.dom().contains(id));
            if w.dom().contains(id) {
                let i = choose|i: int|
                    0 <= i < n - 1 && #[trigger] is_last_failure(eps, results, n - 1, id, i) && w[id]
                        == why_not_refreshed(results, i);
                assert(eps[i].id == id && not_refreshed(results, i));
                assert(is_last_failure(eps, results, n, id, i));
                assert(u[id] == w[id]);
            }
        }
    }
}

/// A submission of another generation than the active one goes on to be built. Each
/// endpoint keeps its id and takes the description that refreshing gave, or keeps
/// the one it had where that failed, and the ids for which it failed are noted with
/// the last reason. The first description of each id that is not among those is
/// asked to be built, in its own place.
pub proof fn law_refreshed_descriptions_are_built<S: EndpointSource>(
    r: ReconcilerView<S::V>,
    generation: Generation,
    eps: Seq<DesiredView<S::V>>,
    results: Seq<Result<S::V, Seq<char>>>,
)
    requires
        r.active != Some(generation) || r.last is None || exists|i: int|
            0 <= i < eps.len() && #[trigger] not_refreshed(results, i),
    ensures
        ({
            let x = reconcile::judged::<S>(r, generation, eps, results);
            &&& x.reconciler == r
            &&& x.actions.len() == 0
            &&& x.next matches StepNext::More(pending)
            &&& pending matches PendingView::Building { generation: g, submitted, endpoints, unrefreshed }
            &&& g == generation
            &&& submitted == eps
            &&& endpoints.len() == eps.len()
            &&& forall|i: int|
                0 <= i < eps.len() ==> {
                    &&& (#[trigger] endpoints[i]).id == eps[i].id
                    &&& not_refreshed(results, i) ==> endpoints[i].spec == eps[i].spec
                    &&& !not_refreshed(results, i) ==> results[i] == Ok::<S::V, Seq<char>>(endpoints[i].spec)
                }
            &&& forall|id: Seq<char>|
                #[trigger] unrefreshed.dom().contains(id) <==> exists|i: int|
                    0 <= i < eps.len() && (#[trigger] eps[i]).id == id && not_refreshed(results, i)
            &&& forall|id: Seq<char>|
                #[trigger] unrefreshed.dom().contains(id) ==> exists|i: int|
                    0 <= i < eps.len() && #[trigger] is_last_failure(eps, results, eps.len() as int, id, i)
                        && unrefreshed[id] == why_not_refreshed(results, i)
            &&& reconcile::needed(r, pending) matches NeedView::Build(specs)
            &&& specs.len() == eps.len()
            &&& forall|i: int|
                0 <= i < eps.len() ==> {
                    let first = forall|j: int| 0 <= j < i ==> (#[trigger] endpoints[j]).id != endpoints[i].id;
                    let wanted = first && !unrefreshed.dom().contains(endpoints[i].id);
                    &&& wanted ==> #[trigger] specs[i] == Some(endpoints[i].spec)
                    &&& !wanted ==> specs[i] is None
                }
        }),
{
    let n = eps.len() as int;
    let u = reconcile::unrefreshed(eps, results, n);
    let e = reconcile::refreshed_endpoints(eps, results);
    assert forall|id: Seq<char>| {
        &&& #[trigger] u.dom().contains(id) <==> exists|i: int|
            0 <= i < n && (#[trigger] eps[i]).id == id && not_refreshed(results, i)
        &&& u.dom().contains(id) ==> exists|i: int|
            0 <= i < n && #[trigger] is_last_failure(eps, results, n, id, i) && u[id] == why_not_refreshed(
                results,
                i,
            )
    } by {
        lemma_unrefreshed(eps, results, n, id);
    }
    if exists|i: int| 0 <= i < eps.len() && #[trigger] not_refreshed(results, i) {
        let i = choose|i: int| 0 <= i < eps.len() && #[trigger] not_refreshed(results, i);
        assert(eps[i].id == eps[i].id);
        assert(u.dom().contains(eps[i].id));
        assert(!(u.dom() =~= Set::empty()));
    }
    assert forall|i: int| 0 <= i < n implies (plan::first(e, e[i].id) == i) == (forall|j: int|
        0 <= j < i ==> (#[trigger] e[j]).id != e[i].id) by {
        assert(plan::occurs(e, e[i].id));
        plan::lemma_first(e, e[i].id);
    }
}

/// The active generation submitted again is answered as it was the first time
/// exactly if it writes down the same, and no endpoint is applied with another
/// description that is written down alike. Otherwise it is a conflict. Nothing
/// changes either way.
pub proof fn law_repeat_is_replayed_or_a_conflict<S: EndpointSource>(
    r: ReconcilerView<S::V>,
    generation: Generation,
    eps: Seq<DesiredView<S::V>>,
    results: Seq<Result<S::V, Seq<char>>>,
)
    requires
        r.active == Some(generation),
        r.last is Some,
        results.len() == eps.len(),
        forall|i: int| 0 <= i < eps.len() ==> #[trigger] results[i] is Ok,
    ensures
        ({
            let x = reconcile::judged::<S>(r, generation, eps, results);
            let drifted = exists|i: int|
                0 <= i < eps.len() && {
                    let id = (#[trigger] eps[i]).id;
                    &&& r.applied.dom().contains(id)
                    &&& r.applied[id] != results[i]->Ok_0
                    &&& S::document(r.applied[id]) == S::document(results[i]->Ok_0)
                };
            let same = r.content matches Some(c) && reconcile::same_content::<S>(c, eps);
            &&& x.reconciler == r
            &&& x.actions.len() == 0
            &&& same && !drifted ==> x.next == StepNext::<S::V>::Reply(Ok(r.last->0))
            &&& !same || drifted ==> x.next == StepNext::<S::V>::Reply(Err(ErrorView::Stale { active: generation }))
        }),
{
    let n = eps.len() as int;
    let e = reconcile::refreshed_endpoints(eps, results);
    assert forall|i: int| 0 <= i < eps.len() implies #[trigger] reconcile::refresh_result(results, i) is Ok by {
        assert(results[i] is Ok);
    }
    crate::lifecycle::reconcile_laws::lemma_all_refreshed(eps, results, n);
    assert forall|i: int| 0 <= i < n implies #[trigger] e[i] == (DesiredView {
        id: eps[i].id,
        spec: results[i]->Ok_0,
    }) by {
        assert(results[i] is Ok);
    }
    if reconcile::material_drifted::<S>(r.applied, e) {
        let i = choose|i: int| 0 <= i < e.len() && reconcile::drifted::<S>(r.applied, #[trigger] e[i]);
        assert(eps[i].id == e[i].id);
    }
    if exists|i: int|
        0 <= i < eps.len() && {
            let id = (#[trigger] eps[i]).id;
            &&& r.applied.dom().contains(id)
            &&& r.applied[id] != results[i]->Ok_0
            &&& S::document(r.applied[id]) == S::document(results[i]->Ok_0)
        } {
        let i = choose|i: int|
            0 <= i < eps.len() && {
                let id = (#[trigger] eps[i]).id;
                &&& r.applied.dom().contains(id)
                &&& r.applied[id] != results[i]->Ok_0
                &&& S::document(r.applied[id]) == S::document(results[i]->Ok_0)
            };
        assert(reconcile::drifted::<S>(r.applied, e[i]));
    }
}

proof fn lemma_document_of<S: EndpointSource>(eps: Seq<DesiredView<S::V>>, id: Seq<char>)
    requires
        forall|i: int, j: int| 0 <= i < j < eps.len() ==> (#[trigger] eps[i]).id != (#[trigger] eps[j]).id,
    ensures
        reconcile::documents::<S>(eps, id).len() <= 1,
        reconcile::documents::<S>(eps, id).len() == 1 <==> exists|i: int|
            0 <= i < eps.len() && (#[trigger] eps[i]).id == id,
        forall|i: int|
            0 <= i < eps.len() && (#[trigger] eps[i]).id == id ==> reconcile::documents::<S>(eps, id)[0] == S::document(
                eps[i].spec,
            ),
    decreases eps.len(),
{
    if eps.len() > 0 {
        let t = eps.drop_last();
        assert forall|i: int, j: int| 0 <= i < j < t.len() implies (#[trigger] t[i]).id != (#[trigger] t[j]).id by {
            assert(t[i] == eps[i] && t[j] == eps[j]);
        }
        lemma_document_of::<S>(t, id);
        assert forall|i: int| 0 <= i < t.len() implies #[trigger] eps[i] == t[i] by {}
        let last = eps[eps.len() - 1];
        assert(eps.last() == last);
        if last.id == id {
            if exists|i: int| 0 <= i < t.len() && (#[trigger] t[i]).id == id {
                let i = choose|i: int| 0 <= i < t.len() && (#[trigger] t[i]).id == id;
                assert(eps[i].id != eps[eps.len() - 1].id);
            }
            assert forall|i: int| 0 <= i < eps.len() && (#[trigger] eps[i]).id == id implies i == eps.len() - 1 by {
                if i < eps.len() - 1 {
                    assert(eps[i].id != eps[eps.len() - 1].id);
                }
            }
        } else {
            if exists|i: int| 0 <= i < eps.len() && (#[trigger] eps[i]).id == id {
                let i = choose|i: int| 0 <= i < eps.len() && (#[trigger] eps[i]).id == id;
                assert(t[i].id == id);
            }
            if exists|i: int| 0 <= i < t.len() && (#[trigger] t[i]).id == id {
                let i = choose|i: int| 0 <= i < t.len() && (#[trigger] t[i]).id == id;
                assert(eps[i].id == id);
            }
            assert forall|i: int| 0 <= i < eps.len() && (#[trigger] eps[i]).id == id implies reconcile::documents::<S>(
                eps,
                id,
            )[0] == S::document(eps[i].spec) by {
                assert(t[i].id == id);
            }
        }
    }
}

/// Whether a submission has an endpoint of the same id that is written down alike.
pub open spec fn has_alike<S: EndpointSource>(eps: Seq<DesiredView<S::V>>, e: DesiredView<S::V>) -> bool {
    exists|j: int|
        0 <= j < eps.len() && (#[trigger] eps[j]).id == e.id && S::document(eps[j].spec) == S::document(e.spec)
}

/// Two submissions of distinct ids write down the same exactly if each endpoint of
/// either has its like in the other: the same id, with a description that is
/// written down alike.
pub proof fn law_same_content_is_same_documents<S: EndpointSource>(a: Seq<DesiredView<S::V>>, b: Seq<DesiredView<S::V>>)
    requires
        forall|i: int, j: int| 0 <= i < j < a.len() ==> (#[trigger] a[i]).id != (#[trigger] a[j]).id,
        forall|i: int, j: int| 0 <= i < j < b.len() ==> (#[trigger] b[i]).id != (#[trigger] b[j]).id,
    ensures
        reconcile::same_content::<S>(a, b) <==> {
            &&& forall|i: int| 0 <= i < a.len() ==> has_alike::<S>(b, #[trigger] a[i])
            &&& forall|j: int| 0 <= j < b.len() ==> has_alike::<S>(a, #[trigger] b[j])
        },
{
    let there = forall|i: int| 0 <= i < a.len() ==> has_alike::<S>(b, #[trigger] a[i]);
    let back = forall|j: int| 0 <= j < b.len() ==> has_alike::<S>(a, #[trigger] b[j]);
    if reconcile::same_content::<S>(a, b) {
        assert forall|i: int| 0 <= i < a.len() implies has_alike::<S>(b, #[trigger] a[i]) by {
            lemma_alike::<S>(a, b, i);
        }
        assert forall|j: int| 0 <= j < b.len() implies has_alike::<S>(a, #[trigger] b[j]) by {
            assert(reconcile::documents::<S>(a, b[j].id) == reconcile::documents::<S>(b, b[j].id));
            lemma_alike::<S>(b, a, j);
        }
    }
    if there && back {
        assert forall|id: Seq<char>| #[trigger] reconcile::documents::<S>(a, id) == reconcile::documents::<S>(b, id) by {
            lemma_same_documents::<S>(a, b, id);
        }
    }
}

proof fn lemma_alike<S: EndpointSource>(a: Seq<DesiredView<S::V>>, b: Seq<DesiredView<S::V>>, i: int)
    requires
        0 <= i < a.len(),
        forall|i: int, j: int| 0 <= i < j < a.len() ==> (#[trigger] a[i]).id != (#[trigger] a[j]).id,
        forall|i: int, j: int| 0 <= i < j < b.len() ==> (#[trigger] b[i]).id != (#[trigger] b[j]).id,
        reconcile::documents::<S>(a, a[i].id) == reconcile::documents::<S>(b, a[i].id),
    ensures
        has_alike::<S>(b, a[i]),
{
    let id = a[i].id;
    lemma_document_of::<S>(a, id);
    lemma_document_of::<S>(b, id);
    assert(a[i].id == id);
    let j = choose|j: int| 0 <= j < b.len() && (#[trigger] b[j]).id == id;
    assert(b[j].id == a[i].id);
}

proof fn lemma_same_documents<S: EndpointSource>(a: Seq<DesiredView<S::V>>, b: Seq<DesiredView<S::V>>, id: Seq<char>)
    requires
        forall|i: int, j: int| 0 <= i < j < a.len() ==> (#[trigger] a[i]).id != (#[trigger] a[j]).id,
        forall|i: int, j: int| 0 <= i < j < b.len() ==> (#[trigger] b[i]).id != (#[trigger] b[j]).id,
        forall|i: int| 0 <= i < a.len() ==> has_alike::<S>(b, #[trigger] a[i]),
        forall|j: int| 0 <= j < b.len() ==> has_alike::<S>(a, #[trigger] b[j]),
    ensures
        reconcile::documents::<S>(a, id) == reconcile::documents::<S>(b, id),
{
    lemma_document_of::<S>(a, id);
    lemma_document_of::<S>(b, id);
    let da = reconcile::documents::<S>(a, id);
    let db = reconcile::documents::<S>(b, id);
    if da.len() == 1 {
        let i = choose|i: int| 0 <= i < a.len() && (#[trigger] a[i]).id == id;
        assert(has_alike::<S>(b, a[i]));
        let j = choose|j: int|
            0 <= j < b.len() && (#[trigger] b[j]).id == a[i].id && S::document(b[j].spec) == S::document(a[i].spec);
        assert(b[j].id == id);
    } else if db.len() == 1 {
        let j = choose|j: int| 0 <= j < b.len() && (#[trigger] b[j]).id == id;
        assert(has_alike::<S>(a, b[j]));
        let i = choose|i: int|
            0 <= i < a.len() && (#[trigger] a[i]).id == b[j].id && S::document(a[i].spec) == S::document(b[j].spec);
        assert(a[i].id == id);
    }
    assert(da =~= db);
}

// ------------------------------------------------------------------ going on --

/// Each answer leads to the step it is for, and an answer to something that was
/// not asked changes nothing.
pub proof fn law_answers_lead_to_their_steps<S: EndpointSource>(
    r: ReconcilerView<S::V>,
    generation: Generation,
    submitted: Seq<DesiredView<S::V>>,
    endpoints: Seq<DesiredView<S::V>>,
    unref: Map<Seq<char>, Seq<char>>,
    answer: AnswerView<S::V>,
)
    ensures
        ({
            let pending = PendingView::Refreshing { generation, endpoints };
            let x = reconcile::resumed::<S>(r, pending, answer);
            &&& answer matches AnswerView::Refreshed(results) ==> x == reconcile::judged::<S>(
                r,
                generation,
                endpoints,
                results,
            )
            &&& !(answer is Refreshed) ==> x.reconciler == r && x.actions.len() == 0 && x.next == StepNext::<S::V>::More(
                pending,
            )
        }),
        ({
            let pending = PendingView::Building { generation, submitted, endpoints, unrefreshed: unref };
            let x = reconcile::resumed::<S>(r, pending, answer);
            &&& answer matches AnswerView::Built(builds) ==> x == reconcile::planned(
                r,
                generation,
                submitted,
                endpoints,
                unref,
                builds,
            )
            &&& !(answer is Built) ==> x.reconciler == r && x.actions.len() == 0 && x.next == StepNext::<S::V>::More(
                pending,
            )
        }),
{
}

/// A process begins with nothing served, applied or answered, under the deadlines
/// of the process.
pub proof fn law_process_begins_with_nothing<V>(ready: bool, location: Option<Seq<char>>)
    ensures
        ({
            let r = reconcile::initial::<V>(ready, location);
            &&& r.manager.entries.dom() == Set::<Seq<char>>::empty()
            &&& r.manager.policy == crate::lifecycle::types::default_policy()
            &&& r.applied.dom() == Set::<Seq<char>>::empty()
            &&& r.active is None && r.last is None && r.content is None
            &&& !r.partial
            &&& r.ready == ready
            &&& r.location == location
        }),
{
    let r = reconcile::initial::<V>(ready, location);
    assert(r.manager.entries.dom() =~= Set::<Seq<char>>::empty());
    assert(r.applied.dom() =~= Set::<Seq<char>>::empty());
}

/// A submission with one endpoint more writes down something else, even if that
/// endpoint is a copy of another.
pub proof fn law_every_copy_counts<S: EndpointSource>(
    a: Seq<DesiredView<S::V>>,
    b: Seq<DesiredView<S::V>>,
    e: DesiredView<S::V>,
)
    requires
        reconcile::same_content::<S>(a, b),
    ensures
        !reconcile::same_content::<S>(a, b.push(e)),
{
    assert(b.push(e).drop_last() =~= b);
    assert(reconcile::documents::<S>(a, e.id) == reconcile::documents::<S>(b, e.id));
    assert(reconcile::documents::<S>(b.push(e), e.id).len() == reconcile::documents::<S>(b, e.id).len() + 1);
    if reconcile::same_content::<S>(a, b.push(e)) {
        assert(reconcile::documents::<S>(a, e.id) == reconcile::documents::<S>(b.push(e), e.id));
    }
}

} // verus!
