//! What a submission asks for, endpoint by endpoint, before anything happens.

use vstd::prelude::*;
use vstd::string::*;

use crate::idmap::IdMap;
use crate::lifecycle::manager;
use crate::lifecycle::manager::{Action, EndpointManager, ManagerView};
use crate::lifecycle::types;
use crate::lifecycle::types::{DrainPolicy, EndpointId, EndpointSpec, EndpointSpecView, Proto};
use crate::net;
use crate::net::SocketAddr;
use crate::text::same_text;
use crate::time::Duration;

verus! {

/// A desired endpoint description that can be compared.
///
/// Implemented by the caller's own configuration shape. Its view is everything
/// two descriptions are compared by; its document is the part of the view that
/// the caller writes down and sends, which need not show everything (a digest of
/// files the description names, say).
pub trait EndpointSource: Sized + View {
    /// What a serialized description shows.
    type Document;

    /// The serialized form of a description.
    spec fn document(state: Self::V) -> Self::Document;

    /// Whether two descriptions are the same in every respect.
    fn same(&self, other: &Self) -> (r: bool)
        ensures
            r == (self@ == other@),
    ;

    /// Whether two descriptions serialize identically.
    fn serializes_alike(&self, other: &Self) -> (r: bool)
        ensures
            r == (Self::document(self@) == Self::document(other@)),
    ;

    /// The same description again.
    fn duplicate(&self) -> (r: Self)
        ensures
            r@ == self@,
    ;
}

/// A desired endpoint, as submitted by the caller.
#[derive(Debug)]
pub struct DesiredEndpoint<S> {
    /// caller-provided stable key
    pub id: EndpointId,
    pub spec: S,
}

#[verifier::ext_equal]
pub struct DesiredView<V> {
    pub id: Seq<char>,
    pub spec: V,
}

impl<S: View> View for DesiredEndpoint<S> {
    type V = DesiredView<S::V>;

    open spec fn view(&self) -> DesiredView<S::V> {
        DesiredView { id: self.id@, spec: self.spec@ }
    }
}

/// The desired endpoints of a list.
pub open spec fn desired_views<S: View>(v: Seq<DesiredEndpoint<S>>) -> Seq<DesiredView<S::V>> {
    Seq::new(v.len(), |i: int| v[i]@)
}

/// The descriptions of a map.
pub open spec fn spec_views<S: View>(m: Map<Seq<char>, S>) -> Map<Seq<char>, S::V> {
    m.map_values(|s: S| s@)
}

/// What is decided for one endpoint, before anything is applied.
#[derive(Debug)]
pub enum Plan {
    Unchanged,
    Start { built: EndpointSpec },
    Replace { built: EndpointSpec },
    Delete,
    Invalid { error: String },
}

pub enum PlanView {
    Unchanged,
    Start { built: EndpointSpecView },
    Replace { built: EndpointSpecView },
    Delete,
    Invalid { error: Seq<char> },
}

impl View for Plan {
    type V = PlanView;

    open spec fn view(&self) -> PlanView {
        match self {
            Plan::Unchanged => PlanView::Unchanged,
            Plan::Start { built } => PlanView::Start { built: built@ },
            Plan::Replace { built } => PlanView::Replace { built: built@ },
            Plan::Delete => PlanView::Delete,
            Plan::Invalid { error } => PlanView::Invalid { error: error@ },
        }
    }
}

/// The plans of a map.
pub open spec fn plan_views(m: Map<Seq<char>, Plan>) -> Map<Seq<char>, PlanView> {
    m.map_values(|p: Plan| p@)
}

impl PlanView {
    /// What the endpoint is to be brought to.
    pub open spec fn target(self) -> Option<EndpointSpecView> {
        match self {
            PlanView::Start { built } => Some(built),
            PlanView::Replace { built } => Some(built),
            _ => None,
        }
    }

    /// Whether the endpoint is to listen on an address.
    pub open spec fn binds(self, laddr: SocketAddr, proto: Proto) -> bool {
        self.target() matches Some(b) && b.wants(proto) && b.endpoint.laddr == laddr
    }
}

impl Plan {
    fn target(&self) -> (r: Option<&EndpointSpec>)
        ensures
            r is Some == self@.target() is Some,
            r matches Some(b) ==> self@.target() == Some(b@),
    {
        match self {
            Plan::Start { built } => Some(built),
            Plan::Replace { built } => Some(built),
            _ => None,
        }
    }

    fn binds(&self, laddr: SocketAddr, proto: Proto) -> (r: bool)
        ensures
            r == self@.binds(laddr, proto),
    {
        match self.target() {
            Some(b) => b.wants(proto) && b.endpoint.laddr == laddr,
            None => false,
        }
    }
}

// -------------------------------------------------------------- submission --

/// Whether an id is submitted at all.
pub open spec fn occurs<V>(eps: Seq<DesiredView<V>>, id: Seq<char>) -> bool {
    exists|i: int| 0 <= i < eps.len() && (#[trigger] eps[i]).id == id
}

/// Whether an id is submitted more than once.
pub open spec fn repeated<V>(eps: Seq<DesiredView<V>>, id: Seq<char>) -> bool {
    exists|i: int, j: int| 0 <= i < j < eps.len() && (#[trigger] eps[i]).id == id && (#[trigger] eps[j]).id == id
}

/// Where an id is submitted first.
pub open spec fn first<V>(eps: Seq<DesiredView<V>>, id: Seq<char>) -> int
    decreases eps.len(),
{
    if eps.len() == 0 {
        0
    } else if occurs(eps.drop_last(), id) {
        first(eps.drop_last(), id)
    } else {
        eps.len() - 1
    }
}

/// The first submission of an id is one of it, and none is before it.
pub(crate) proof fn lemma_first<V>(eps: Seq<DesiredView<V>>, id: Seq<char>)
    requires
        occurs(eps, id),
    ensures
        0 <= first(eps, id) < eps.len(),
        eps[first(eps, id)].id == id,
        forall|i: int| 0 <= i < first(eps, id) ==> (#[trigger] eps[i]).id != id,
    decreases eps.len(),
{
    let t = eps.drop_last();
    if occurs(t, id) {
        lemma_first(t, id);
        assert forall|i: int| 0 <= i < first(eps, id) implies (#[trigger] eps[i]).id != id by {
            assert(eps[i] == t[i]);
        }
    } else {
        let i = choose|i: int| 0 <= i < eps.len() && (#[trigger] eps[i]).id == id;
        if i < eps.len() - 1 {
            assert(t[i].id == id);
        }
        assert forall|i: int| 0 <= i < first(eps, id) implies (#[trigger] eps[i]).id != id by {
            assert(eps[i] == t[i]);
        }
    }
}

proof fn lemma_push<V>(eps: Seq<DesiredView<V>>, n: int, id: Seq<char>)
    requires
        0 <= n < eps.len(),
    ensures
        occurs(eps.take(n + 1), id) == (occurs(eps.take(n), id) || eps[n].id == id),
        repeated(eps.take(n + 1), id) == (repeated(eps.take(n), id) || (occurs(eps.take(n), id) && eps[n].id == id)),
        first(eps.take(n + 1), id) == if occurs(eps.take(n), id) {
            first(eps.take(n), id)
        } else {
            n
        },
{
    let a = eps.take(n);
    let b = eps.take(n + 1);
    assert(b.drop_last() =~= a);
    assert(b[n] == eps[n]);
    if occurs(a, id) {
        let i = choose|i: int| 0 <= i < a.len() && (#[trigger] a[i]).id == id;
        assert(b[i].id == id);
    }
    if occurs(b, id) && eps[n].id != id {
        let i = choose|i: int| 0 <= i < b.len() && (#[trigger] b[i]).id == id;
        assert(a[i].id == id);
    }
    if repeated(a, id) {
        let (i, j) = choose|i: int, j: int|
            0 <= i < j < a.len() && (#[trigger] a[i]).id == id && (#[trigger] a[j]).id == id;
        assert(b[i].id == id && b[j].id == id);
    }
    if occurs(a, id) && eps[n].id == id {
        let i = choose|i: int| 0 <= i < a.len() && (#[trigger] a[i]).id == id;
        assert(b[i].id == id && b[n].id == id);
    }
    if repeated(b, id) {
        let (i, j) = choose|i: int, j: int|
            0 <= i < j < b.len() && (#[trigger] b[i]).id == id && (#[trigger] b[j]).id == id;
        assert(a[i].id == id);
        if j < n {
            assert(a[j].id == id);
        }
    }
}

// ------------------------------------------------------------- first plans --

/// Why an id that is submitted twice is refused.
pub open spec fn repeated_error(id: Seq<char>) -> Seq<char> {
    "duplicate endpoint id `"@ + id + "` in one generation"@
}

/// Whether every protocol a spec asks for is actually being served.
pub open spec fn all_running(m: ManagerView, id: Seq<char>, built: EndpointSpecView) -> bool {
    forall|proto: Proto| #[trigger] built.wants(proto) ==> m.serving(id, proto) is Some
}

/// What building a description gave; without an answer it counts as failed.
pub open spec fn build_result(
    builds: Seq<Result<EndpointSpecView, Seq<char>>>,
    i: int,
) -> Result<EndpointSpecView, Seq<char>> {
    if 0 <= i < builds.len() {
        builds[i]
    } else {
        Err(no_build())
    }
}

pub open spec fn no_build() -> Seq<char> {
    "building the endpoint failed: no answer"@
}

/// The result of a build, by view.
pub open spec fn built_view(r: Result<EndpointSpec, String>) -> Result<EndpointSpecView, Seq<char>> {
    match r {
        Ok(b) => Ok(b@),
        Err(e) => Err(e@),
    }
}

pub open spec fn built_views(
    v: Seq<Result<EndpointSpec, String>>,
) -> Seq<Result<EndpointSpecView, Seq<char>>> {
    Seq::new(v.len(), |i: int| built_view(v[i]))
}

/// The plan of one submitted id, judged on its own.
pub open spec fn plan_of<V>(
    m: ManagerView,
    applied: Map<Seq<char>, V>,
    eps: Seq<DesiredView<V>>,
    unrefreshed: Map<Seq<char>, Seq<char>>,
    builds: Seq<Result<EndpointSpecView, Seq<char>>>,
    id: Seq<char>,
) -> PlanView {
    let i = first(eps, id);
    if repeated(eps, id) {
        PlanView::Invalid { error: repeated_error(id) }
    } else if unrefreshed.dom().contains(id) {
        PlanView::Invalid { error: unrefreshed[id] }
    } else {
        match build_result(builds, i) {
            Err(error) => PlanView::Invalid { error },
            Ok(built) => if !applied.dom().contains(id) {
                PlanView::Start { built }
            } else if applied[id] == eps[i].spec && all_running(m, id, built) {
                PlanView::Unchanged
            } else {
                PlanView::Replace { built }
            },
        }
    }
}

/// The plans of every submitted id, each judged on its own.
pub open spec fn plans_of<V>(
    m: ManagerView,
    applied: Map<Seq<char>, V>,
    eps: Seq<DesiredView<V>>,
    unrefreshed: Map<Seq<char>, Seq<char>>,
    builds: Seq<Result<EndpointSpecView, Seq<char>>>,
) -> Map<Seq<char>, PlanView> {
    Map::new(
        |id: Seq<char>| occurs(eps, id),
        |id: Seq<char>| plan_of(m, applied, eps, unrefreshed, builds, id),
    )
}

/// The desired state before anything was applied: every submitted id whose
/// description could be refreshed and built.
pub open spec fn desired_of<V>(
    eps: Seq<DesiredView<V>>,
    unrefreshed: Map<Seq<char>, Seq<char>>,
    builds: Seq<Result<EndpointSpecView, Seq<char>>>,
) -> Map<Seq<char>, V> {
    Map::new(
        |id: Seq<char>|
            occurs(eps, id) && !unrefreshed.dom().contains(id) && build_result(builds, first(eps, id)) is Ok,
        |id: Seq<char>| eps[first(eps, id)].spec,
    )
}

/// Whether a submitted description has to be built: the first of its id, and
/// its refresh did not fail.
pub open spec fn to_build<V>(
    eps: Seq<DesiredView<V>>,
    unrefreshed: Map<Seq<char>, Seq<char>>,
    i: int,
) -> bool {
    first(eps, eps[i].id) == i && !unrefreshed.dom().contains(eps[i].id)
}

fn is_all_running(manager: &EndpointManager, id: &str, built: &EndpointSpec) -> (r: bool)
    requires
        manager.wf(),
    ensures
        r == all_running(manager@, id@, built@),
{
    let tcp = !built.tcp || manager.active_endpoint(id, Proto::Tcp).is_some();
    let udp = !built.udp || manager.active_endpoint(id, Proto::Udp).is_some();
    proof {
        assert(built@.wants(Proto::Tcp) == built.tcp);
        assert(built@.wants(Proto::Udp) == built.udp);
    }
    tcp && udp
}

fn render_repeated_error(id: &str) -> (r: String)
    ensures
        r@ == repeated_error(id@),
{
    let mut r = "duplicate endpoint id `".to_string();
    r.append(id);
    r.append("` in one generation");
    r
}

/// The map of texts, by view.
pub open spec fn text_views(m: Map<Seq<char>, String>) -> Map<Seq<char>, Seq<char>> {
    m.map_values(|s: String| s@)
}

proof fn lemma_desired_push<V>(
    eps: Seq<DesiredView<V>>,
    i: int,
    unref: Map<Seq<char>, Seq<char>>,
    bs: Seq<Result<EndpointSpecView, Seq<char>>>,
)
    requires
        0 <= i < eps.len(),
    ensures
        ({
            let k = eps[i].id;
            let before = desired_of(eps.take(i), unref, bs);
            desired_of(eps.take(i + 1), unref, bs) == if occurs(eps.take(i), k) || unref.dom().contains(k)
                || build_result(bs, i) is Err {
                before
            } else {
                before.insert(k, eps[i].spec)
            }
        }),
{
    let a = eps.take(i);
    let b = eps.take(i + 1);
    let k = eps[i].id;
    let da = desired_of(a, unref, bs);
    let db = desired_of(b, unref, bs);
    assert forall|j: Seq<char>| {
        &&& #[trigger] db.dom().contains(j) == (da.dom().contains(j) || (j == k && !occurs(a, k)
            && !unref.dom().contains(k) && build_result(bs, i) is Ok))
        &&& da.dom().contains(j) ==> db[j] == da[j]
        &&& db.dom().contains(j) && !da.dom().contains(j) ==> db[j] == eps[i].spec
    } by {
        lemma_push(eps, i, j);
        if occurs(a, j) {
            lemma_first(a, j);
            assert(a[first(a, j)] == b[first(a, j)]);
        }
        assert(b[i] == eps[i]);
    }
    if occurs(a, k) || unref.dom().contains(k) || build_result(bs, i) is Err {
        assert(db =~= da);
    } else {
        assert(db.dom().contains(k));
        assert(db =~= da.insert(k, eps[i].spec));
    }
}

proof fn lemma_plans_push<V>(
    m: ManagerView,
    applied: Map<Seq<char>, V>,
    eps: Seq<DesiredView<V>>,
    i: int,
    unref: Map<Seq<char>, Seq<char>>,
    bs: Seq<Result<EndpointSpecView, Seq<char>>>,
)
    requires
        0 <= i < eps.len(),
    ensures
        ({
            let k = eps[i].id;
            let a = eps.take(i);
            let b = eps.take(i + 1);
            &&& plans_of(m, applied, b, unref, bs) == plans_of(m, applied, a, unref, bs).insert(
                k,
                plan_of(m, applied, b, unref, bs, k),
            )
            &&& plans_of(m, applied, a, unref, bs).dom().contains(k) == occurs(a, k)
            &&& occurs(a, k) == repeated(b, k)
            &&& !occurs(a, k) ==> first(b, k) == i
            &&& b[i] == eps[i]
        }),
{
    let a = eps.take(i);
    let b = eps.take(i + 1);
    let k = eps[i].id;
    let pa = plans_of(m, applied, a, unref, bs);
    let pb = plans_of(m, applied, b, unref, bs);
    assert(b[i] == eps[i]);
    assert forall|j: Seq<char>| {
        &&& #[trigger] pb.dom().contains(j) == (pa.dom().contains(j) || j == k)
        &&& j != k && pb.dom().contains(j) ==> pb[j] == pa[j]
    } by {
        lemma_push(eps, i, j);
        if occurs(a, j) {
            lemma_first(a, j);
            assert(a[first(a, j)] == b[first(a, j)]);
        }
    }
    lemma_push(eps, i, k);
    assert(pb.dom().contains(k));
    assert(pb =~= pa.insert(k, plan_of(m, applied, b, unref, bs, k)));
    if repeated(a, k) {
        let (x, y) = choose|x: int, y: int|
            0 <= x < y < a.len() && (#[trigger] a[x]).id == k && (#[trigger] a[y]).id == k;
        assert(occurs(a, k));
    }
}

/// Judge every submitted endpoint on its own.
pub fn plan_endpoints<S: EndpointSource>(
    manager: &EndpointManager,
    applied: &IdMap<S>,
    endpoints: &Vec<DesiredEndpoint<S>>,
    unrefreshed: &IdMap<String>,
    builds: &Vec<Result<EndpointSpec, String>>,
) -> (r: (IdMap<S>, IdMap<Plan>))
    requires
        manager.wf(),
        applied.wf(),
        unrefreshed.wf(),
    ensures
        r.0.wf(),
        r.1.wf(),
        spec_views(r.0@) == desired_of(desired_views(endpoints@), text_views(unrefreshed@), built_views(builds@)),
        plan_views(r.1@) == plans_of(
            manager@,
            spec_views(applied@),
            desired_views(endpoints@),
            text_views(unrefreshed@),
            built_views(builds@),
        ),
{
    let ghost m = manager@;
    let ghost app = spec_views(applied@);
    let ghost eps = desired_views(endpoints@);
    let ghost unref = text_views(unrefreshed@);
    let ghost bs = built_views(builds@);
    let mut desired: IdMap<S> = IdMap::new();
    let mut plans: IdMap<Plan> = IdMap::new();
    let mut i: usize = 0;
    proof {
        assert(spec_views(desired@) =~= desired_of(eps.take(0), unref, bs));
        assert(plan_views(plans@) =~= plans_of(m, app, eps.take(0), unref, bs));
    }
    while i < endpoints.len()
        invariant
            i <= endpoints@.len(),
            manager.wf(),
            applied.wf(),
            unrefreshed.wf(),
            desired.wf(),
            plans.wf(),
            m == manager@,
            app == spec_views(applied@),
            eps == desired_views(endpoints@),
            unref == text_views(unrefreshed@),
            bs == built_views(builds@),
            spec_views(desired@) == desired_of(eps.take(i as int), unref, bs),
            plan_views(plans@) == plans_of(m, app, eps.take(i as int), unref, bs),
        decreases endpoints@.len() - i,
    {
        let endpoint = &endpoints[i];
        let id = endpoint.id.clone();
        let ghost k = id@;
        let ghost a = eps.take(i as int);
        let ghost b = eps.take(i + 1);
        let ghost d0 = desired@;
        let ghost p0 = plans@;
        proof {
            assert(eps[i as int] == endpoint@);
            lemma_desired_push(eps, i as int, unref, bs);
            lemma_plans_push(m, app, eps, i as int, unref, bs);
            assert(plan_views(p0).dom().contains(k) == p0.dom().contains(k));
        }
        if plans.contains(id.as_str()) {
            let error = render_repeated_error(id.as_str());
            plans.insert(id, Plan::Invalid { error });
        } else if let Some(error) = unrefreshed.get(id.as_str()) {
            plans.insert(id, Plan::Invalid { error: error.clone() });
        } else if i < builds.len() {
            match &builds[i] {
                Ok(built) => {
                    let plan = match applied.get(id.as_str()) {
                        Some(previous) => if previous.same(&endpoint.spec) && is_all_running(
                            manager,
                            id.as_str(),
                            built,
                        ) {
                            Plan::Unchanged
                        } else {
                            Plan::Replace { built: built.clone() }
                        },
                        None => Plan::Start { built: built.clone() },
                    };
                    desired.insert(id.clone(), endpoint.spec.duplicate());
                    plans.insert(id, plan);
                },
                Err(error) => {
                    plans.insert(id, Plan::Invalid { error: error.clone() });
                },
            }
        } else {
            plans.insert(id, Plan::Invalid { error: "building the endpoint failed: no answer".to_string() });
        }
        proof {
            assert(plans@ == p0.insert(k, plans@[k]));
            assert(plans@[k]@ == plan_of(m, app, b, unref, bs, k));
            assert(plan_views(plans@) =~= plan_views(p0).insert(k, plans@[k]@));
            if occurs(a, k) || unref.dom().contains(k) || build_result(bs, i as int) is Err {
                assert(desired@ == d0);
            } else {
                assert(desired@ == d0.insert(k, desired@[k]));
                assert(spec_views(desired@) =~= spec_views(d0).insert(k, desired@[k]@));
            }
        }
        i = i + 1;
    }
    assert(eps.take(i as int) =~= eps);
    (desired, plans)
}

/// The descriptions that have to be built, each at the place of its endpoint.
pub fn descriptions_to_build<S: EndpointSource>(
    endpoints: &Vec<DesiredEndpoint<S>>,
    unrefreshed: &IdMap<String>,
) -> (r: Vec<Option<S>>)
    requires
        unrefreshed.wf(),
    ensures
        r@.len() == endpoints@.len(),
        forall|i: int|
            0 <= i < r@.len() ==> {
                &&& (#[trigger] r@[i]) is Some == to_build(
                    desired_views(endpoints@),
                    text_views(unrefreshed@),
                    i,
                )
                &&& r@[i] matches Some(s) ==> s@ == endpoints@[i].spec@
            },
{
    let ghost eps = desired_views(endpoints@);
    let mut seen: IdMap<bool> = IdMap::new();
    let mut r: Vec<Option<S>> = Vec::new();
    let mut i: usize = 0;
    while i < endpoints.len()
        invariant
            i <= endpoints@.len(),
            unrefreshed.wf(),
            seen.wf(),
            eps == desired_views(endpoints@),
            r@.len() == i,
            forall|k: Seq<char>| #[trigger] seen.has(k) == occurs(eps.take(i as int), k),
            forall|j: int|
                0 <= j < i ==> {
                    &&& (#[trigger] r@[j]) is Some == to_build(eps, text_views(unrefreshed@), j)
                    &&& r@[j] matches Some(s) ==> s@ == endpoints@[j].spec@
                },
        decreases endpoints@.len() - i,
    {
        let endpoint = &endpoints[i];
        let id = endpoint.id.clone();
        let ghost k = id@;
        let ghost before = seen;
        proof {
            assert(eps[i as int].id == k);
            assert(occurs(eps, k));
            lemma_first(eps, k);
            let f = first(eps, k);
            if occurs(eps.take(i as int), k) {
                let x = choose|x: int|
                    0 <= x < eps.take(i as int).len() && (#[trigger] eps.take(i as int)[x]).id == k;
                assert(eps[x].id == k);
                assert(f != i);
            } else if f < i {
                assert(eps.take(i as int)[f].id == k);
            }
            assert(seen.has(k) == (f != i));
        }
        let fresh = !seen.contains(id.as_str()) && !unrefreshed.contains(id.as_str());
        if fresh {
            r.push(Some(endpoint.spec.duplicate()));
        } else {
            r.push(None);
        }
        seen.insert(id, true);
        proof {
            assert forall|j: Seq<char>| #[trigger] seen.has(j) == occurs(eps.take(i + 1), j) by {
                lemma_push(eps, i as int, j);
                assert(before.has(j) == occurs(eps.take(i as int), j));
            }
        }
        i = i + 1;
    }
    r
}

// --------------------------------------------------------------- conflicts --

/// Whether another endpoint of the submission is to listen on the same address.
pub open spec fn contested(
    plans: Map<Seq<char>, PlanView>,
    id: Seq<char>,
    laddr: SocketAddr,
    proto: Proto,
) -> bool {
    exists|other: Seq<char>|
        other != id && #[trigger] plans.dom().contains(other) && plans[other].binds(laddr, proto)
}

/// Whether an endpoint that stays as it is listens on an address.
pub open spec fn holds(
    m: ManagerView,
    plans: Map<Seq<char>, PlanView>,
    id: Seq<char>,
    laddr: SocketAddr,
    proto: Proto,
) -> bool {
    &&& plans[id] is Unchanged
    &&& m.serving(id, proto) matches Some(e) && e.laddr == laddr
}

/// The last of the first `n` ids that stays as it is and listens on an address.
pub open spec fn incumbent(
    m: ManagerView,
    plans: Map<Seq<char>, PlanView>,
    order: Seq<Seq<char>>,
    n: int,
    laddr: SocketAddr,
    proto: Proto,
) -> Option<Seq<char>>
    decreases n,
{
    if n <= 0 {
        None
    } else if holds(m, plans, order[n - 1], laddr, proto) {
        Some(order[n - 1])
    } else {
        incumbent(m, plans, order, n - 1, laddr, proto)
    }
}

pub open spec fn contested_error(laddr: SocketAddr, proto: Proto) -> Seq<char> {
    "duplicate listen address "@ + net::addr_text(laddr) + " for "@ + types::proto_name(proto)
        + " in one generation"@
}

pub open spec fn occupied_error(laddr: SocketAddr, proto: Proto, incumbent: Seq<char>) -> Seq<char> {
    "duplicate listen address "@ + net::addr_text(laddr) + " for "@ + types::proto_name(proto)
        + ": already served by endpoint `"@ + incumbent + "`"@
}

/// Why an endpoint cannot listen where it is to, for one protocol.
pub open spec fn listen_error(
    m: ManagerView,
    plans: Map<Seq<char>, PlanView>,
    order: Seq<Seq<char>>,
    id: Seq<char>,
    proto: Proto,
) -> Option<Seq<char>> {
    match plans[id].target() {
        Some(b) => {
            let laddr = b.endpoint.laddr;
            if !b.wants(proto) {
                None
            } else if contested(plans, id, laddr, proto) {
                Some(contested_error(laddr, proto))
            } else {
                match incumbent(m, plans, order, order.len() as int, laddr, proto) {
                    Some(x) => Some(occupied_error(laddr, proto, x)),
                    None => None,
                }
            }
        },
        None => None,
    }
}

/// The plan of an endpoint once it is held against the others: refused where
/// it would listen on an address that another one wants or keeps.
pub open spec fn marked_plan(
    m: ManagerView,
    plans: Map<Seq<char>, PlanView>,
    order: Seq<Seq<char>>,
    id: Seq<char>,
) -> PlanView {
    match listen_error(m, plans, order, id, Proto::Udp) {
        Some(error) => PlanView::Invalid { error },
        None => match listen_error(m, plans, order, id, Proto::Tcp) {
            Some(error) => PlanView::Invalid { error },
            None => plans[id],
        },
    }
}

pub open spec fn marked(m: ManagerView, plans: Map<Seq<char>, PlanView>) -> Map<Seq<char>, PlanView> {
    let order = crate::idmap::in_order(plans.dom());
    Map::new(|id: Seq<char>| plans.dom().contains(id), |id: Seq<char>| marked_plan(m, plans, order, id))
}

fn is_contested(plans: &IdMap<Plan>, id: &str, laddr: SocketAddr, proto: Proto) -> (r: bool)
    requires
        plans.wf(),
    ensures
        r == contested(plan_views(plans@), id@, laddr, proto),
{
    let ghost pv = plan_views(plans@);
    let mut i: usize = 0;
    while i < plans.len()
        invariant
            plans.wf(),
            pv == plan_views(plans@),
            i <= plans.ids().len(),
            forall|j: int|
                0 <= j < i ==> #[trigger] plans.ids()[j] == id@ || !pv[plans.ids()[j]].binds(laddr, proto),
        decreases plans.ids().len() - i,
    {
        let other = plans.key_at(i);
        if !same_text(other.as_str(), id) && plans.value_at(i).binds(laddr, proto) {
            assert(pv.dom().contains(other@));
            return true;
        }
        i = i + 1;
    }
    proof {
        assert forall|other: Seq<char>| other != id@ && #[trigger] pv.dom().contains(other) implies !pv[other].binds(
            laddr,
            proto,
        ) by {
            assert(plans.has(other));
            let p = plans.lemma_has_position(other);
            assert(plans.ids()[p] == other);
        }
    }
    false
}

fn find_incumbent(
    manager: &EndpointManager,
    plans: &IdMap<Plan>,
    laddr: SocketAddr,
    proto: Proto,
) -> (r: Option<String>)
    requires
        manager.wf(),
        plans.wf(),
    ensures
        crate::text::opt_text(r) == incumbent(
            manager@,
            plan_views(plans@),
            plans.ids(),
            plans.ids().len() as int,
            laddr,
            proto,
        ),
{
    let mut n: usize = plans.len();
    while n > 0
        invariant
            manager.wf(),
            plans.wf(),
            n <= plans.ids().len(),
            incumbent(manager@, plan_views(plans@), plans.ids(), plans.ids().len() as int, laddr, proto)
                == incumbent(manager@, plan_views(plans@), plans.ids(), n as int, laddr, proto),
        decreases n,
    {
        let id = plans.key_at(n - 1);
        if matches!(plans.value_at(n - 1), Plan::Unchanged) {
            if let Some(e) = manager.active_endpoint(id.as_str(), proto) {
                if e.laddr == laddr {
                    return Some(id.clone());
                }
            }
        }
        n = n - 1;
    }
    None
}

fn find_listen_error(
    manager: &EndpointManager,
    plans: &IdMap<Plan>,
    i: usize,
    proto: Proto,
) -> (r: Option<String>)
    requires
        manager.wf(),
        plans.wf(),
        i < plans.ids().len(),
    ensures
        crate::text::opt_text(r) == listen_error(
            manager@,
            plan_views(plans@),
            plans.ids(),
            plans.ids()[i as int],
            proto,
        ),
{
    let id = plans.key_at(i);
    match plans.value_at(i).target() {
        Some(b) => {
            if !b.wants(proto) {
                return None;
            }
            let laddr = b.endpoint.laddr;
            if is_contested(plans, id.as_str(), laddr, proto) {
                let mut e = "duplicate listen address ".to_string();
                e.append(laddr.render().as_str());
                e.append(" for ");
                e.append(proto.name());
                e.append(" in one generation");
                return Some(e);
            }
            match find_incumbent(manager, plans, laddr, proto) {
                Some(x) => {
                    let mut e = "duplicate listen address ".to_string();
                    e.append(laddr.render().as_str());
                    e.append(" for ");
                    e.append(proto.name());
                    e.append(": already served by endpoint `");
                    e.append(x.as_str());
                    e.append("`");
                    Some(e)
                },
                None => None,
            }
        },
        None => None,
    }
}

/// Fail every endpoint that shares a listen address and protocol with another
/// endpoint of the same generation, deterministically and before any bind.
///
/// An endpoint this generation leaves unchanged is still listening, so a
/// newcomer colliding with it fails just as two newcomers do; the incumbent is
/// not disturbed.
pub fn mark_duplicates(manager: &EndpointManager, plans: &mut IdMap<Plan>)
    requires
        manager.wf(),
        old(plans).wf(),
    ensures
        final(plans).wf(),
        final(plans).ids() == old(plans).ids(),
        plan_views(final(plans)@) == marked(manager@, plan_views(old(plans)@)),
{
    let ghost m = manager@;
    let ghost pv = plan_views(plans@);
    let ghost order = plans.ids();
    let n: usize = plans.len();
    let mut errors: Vec<Option<String>> = Vec::new();
    let mut i: usize = 0;
    while i < n
        invariant
            manager.wf(),
            plans.wf(),
            *plans == *old(plans),
            m == manager@,
            pv == plan_views(plans@),
            order == plans.ids(),
            n == order.len(),
            i <= n,
            errors@.len() == i,
            forall|j: int|
                0 <= j < i ==> marked_plan(m, pv, order, order[j]) == match #[trigger] errors@[j] {
                    Some(e) => PlanView::Invalid { error: e@ },
                    None => pv[order[j]],
                },
        decreases n - i,
    {
        let error = match find_listen_error(manager, plans, i, Proto::Udp) {
            Some(e) => Some(e),
            None => find_listen_error(manager, plans, i, Proto::Tcp),
        };
        errors.push(error);
        i = i + 1;
    }
    let mut i: usize = 0;
    while i < n
        invariant
            plans.wf(),
            order == plans.ids(),
            order == old(plans).ids(),
            n == order.len(),
            i <= n,
            pv == plan_views(old(plans)@),
            old(plans).wf(),
            errors@.len() == n,
            plans@.dom() == old(plans)@.dom(),
            forall|j: int|
                0 <= j < n ==> marked_plan(m, pv, order, order[j]) == match #[trigger] errors@[j] {
                    Some(e) => PlanView::Invalid { error: e@ },
                    None => pv[order[j]],
                },
            forall|j: int|
                0 <= j < i ==> (#[trigger] plans@[order[j]])@ == marked_plan(m, pv, order, order[j]),
            forall|j: int| i <= j < n ==> (#[trigger] plans@[order[j]])@ == pv[order[j]],
        decreases n - i,
    {
        let ghost prior = *plans;
        assert(marked_plan(m, pv, order, order[i as int]) == match errors@[i as int] {
            Some(e) => PlanView::Invalid { error: e@ },
            None => pv[order[i as int]],
        });
        if let Some(e) = &errors[i] {
            *plans.value_at_mut(i) = Plan::Invalid { error: e.clone() };
            proof {
                prior.lemma_position(i as int);
                assert(plans@.dom() =~= prior@.dom());
                lemma_distinct(order, i as int);
            }
        }
        i = i + 1;
    }
    proof {
        crate::idmap::law_order_follows_contents(*old(plans));
        assert(pv.dom() =~= old(plans)@.dom());
        let r = marked(m, pv);
        assert forall|k: Seq<char>| #[trigger] r.dom().contains(k) == plan_views(plans@).dom().contains(k) by {}
        assert forall|k: Seq<char>| #[trigger] r.dom().contains(k) implies r[k] == plan_views(plans@)[k] by {
            assert(plans.has(k));
            let p = plans.lemma_has_position(k);
            assert(plans@[order[p]]@ == plans@[k]@);
        }
        assert(plan_views(plans@) =~= r);
    }
}

/// No key of a strictly sorted sequence stands anywhere else in it.
pub(crate) proof fn lemma_distinct(order: Seq<Seq<char>>, i: int)
    requires
        crate::idmap::strictly_sorted(order),
        0 <= i < order.len(),
    ensures
        forall|j: int| 0 <= j < order.len() && j != i ==> #[trigger] order[j] != order[i],
{
    assert forall|j: int| 0 <= j < order.len() && j != i implies #[trigger] order[j] != order[i] by {
        if j < i {
            crate::text::lemma_precedes_asymmetric(order[j], order[i]);
        } else {
            crate::text::lemma_precedes_asymmetric(order[i], order[j]);
        }
    }
}

// ---------------------------------------------------------------- removals --

/// Every id that is being managed and that nothing desires is to be deleted.
pub open spec fn with_removals(m: ManagerView, plans: Map<Seq<char>, PlanView>) -> Map<Seq<char>, PlanView> {
    Map::new(
        |id: Seq<char>| plans.dom().contains(id) || m.entries.dom().contains(id),
        |id: Seq<char>|
            if plans.dom().contains(id) {
                plans[id]
            } else {
                PlanView::Delete
            },
    )
}

/// Plan to delete what is managed and not desired anymore.
pub fn plan_removals(manager: &EndpointManager, plans: &mut IdMap<Plan>)
    requires
        manager.wf(),
        old(plans).wf(),
    ensures
        final(plans).wf(),
        plan_views(final(plans)@) == with_removals(manager@, plan_views(old(plans)@)),
{
    let ghost m = manager@;
    let ghost pv = plan_views(plans@);
    let ids = manager.ids();
    let ghost names = crate::text::texts(ids@);
    let mut i: usize = 0;
    while i < ids.len()
        invariant
            manager.wf(),
            plans.wf(),
            i <= ids@.len(),
            names == crate::text::texts(ids@),
            crate::idmap::lists(names, m.entries.dom()),
            forall|k: Seq<char>|
                #[trigger] plans@.dom().contains(k) == (pv.dom().contains(k) || names.take(i as int).contains(k)),
            forall|k: Seq<char>|
                #[trigger] plans@.dom().contains(k) ==> plans@[k]@ == if pv.dom().contains(k) {
                    pv[k]
                } else {
                    PlanView::Delete
                },
        decreases ids@.len() - i,
    {
        let ghost prior = plans@;
        let ghost id = names[i as int];
        if !plans.contains(ids[i].as_str()) {
            plans.insert(ids[i].clone(), Plan::Delete);
        }
        proof {
            let a = names.take(i as int);
            let b = names.take(i + 1);
            assert(b =~= a.push(id));
            assert forall|k: Seq<char>|
                #[trigger] plans@.dom().contains(k) == (pv.dom().contains(k) || b.contains(k)) by {
                assert(b[i as int] == id);
                if a.contains(k) {
                    let x = choose|x: int| 0 <= x < a.len() && a[x] == k;
                    assert(b[x] == k);
                }
                if b.contains(k) && k != id {
                    let x = choose|x: int| 0 <= x < b.len() && b[x] == k;
                    assert(a[x] == k);
                }
                assert(prior.dom().contains(k) == (pv.dom().contains(k) || a.contains(k)));
            }
        }
        i = i + 1;
    }
    assert(names.take(i as int) =~= names);
    proof {
        let r = with_removals(m, pv);
        assert forall|k: Seq<char>| #[trigger] r.dom().contains(k) == plan_views(plans@).dom().contains(k) by {
            assert(plans@.dom().contains(k) == (pv.dom().contains(k) || names.contains(k)));
        }
        assert(plan_views(plans@) =~= r);
    }
}

// --------------------------------------------------------------- handovers --

/// Whether an endpoint is about to bind an address that it does not hold yet.
pub open spec fn wanted(
    m: ManagerView,
    plans: Map<Seq<char>, PlanView>,
    laddr: SocketAddr,
    proto: Proto,
) -> bool {
    exists|id: Seq<char>|
        #[trigger] plans.dom().contains(id) && plans[id].binds(laddr, proto) && !(m.serving(id, proto) matches Some(e)
            && e.laddr == laddr)
}

/// Whether an endpoint gives up a listener: it is deleted, or replaced by one
/// that listens elsewhere or for fewer protocols.
pub open spec fn leaving(m: ManagerView, plan: PlanView, id: Seq<char>) -> bool {
    match plan {
        PlanView::Delete => true,
        PlanView::Replace { built } => exists|proto: Proto|
            #[trigger] m.serving(id, proto) matches Some(e) && (e.laddr != built.endpoint.laddr || !built.wants(
                proto,
            )),
        _ => false,
    }
}

/// Whether an endpoint's listener is in the way of another endpoint.
pub open spec fn handed_over(
    m: ManagerView,
    plans: Map<Seq<char>, PlanView>,
    id: Seq<char>,
    proto: Proto,
) -> bool {
    &&& leaving(m, plans[id], id)
    &&& m.serving(id, proto) matches Some(e) && wanted(m, plans, e.laddr, proto)
}

/// A listener to be stopped so that another endpoint can take its address.
#[derive(Debug)]
pub struct Handover {
    pub id: EndpointId,
    pub proto: Proto,
    pub deadline: Option<Duration>,
    /// whether the endpoint goes away altogether
    pub deleting: bool,
}

pub struct HandoverView {
    pub id: Seq<char>,
    pub proto: Proto,
    pub deadline: Option<Duration>,
    pub deleting: bool,
}

impl View for Handover {
    type V = HandoverView;

    open spec fn view(&self) -> HandoverView {
        HandoverView { id: self.id@, proto: self.proto, deadline: self.deadline, deleting: self.deleting }
    }
}

pub open spec fn handover_views(v: Seq<Handover>) -> Seq<HandoverView> {
    Seq::new(v.len(), |i: int| v[i]@)
}

/// The handover of one listener: a delete keeps its force-close deadline, a
/// replaced endpoint drains as it would without contention.
pub open spec fn handover(m: ManagerView, plan: PlanView, id: Seq<char>, proto: Proto) -> HandoverView {
    let policy = match manager::policy_of(m, id) {
        Some(p) => p,
        None => types::default_policy(),
    };
    HandoverView {
        id,
        proto,
        deadline: if plan is Delete {
            policy.on_delete
        } else {
            types::replaced_deadline(policy, proto)
        },
        deleting: plan is Delete,
    }
}

pub open spec fn handovers_of(
    m: ManagerView,
    plans: Map<Seq<char>, PlanView>,
    id: Seq<char>,
) -> Seq<HandoverView> {
    (if handed_over(m, plans, id, Proto::Tcp) {
        seq![handover(m, plans[id], id, Proto::Tcp)]
    } else {
        Seq::empty()
    }) + (if handed_over(m, plans, id, Proto::Udp) {
        seq![handover(m, plans[id], id, Proto::Udp)]
    } else {
        Seq::empty()
    })
}

/// The handovers of the first `n` ids.
pub open spec fn handovers(
    m: ManagerView,
    plans: Map<Seq<char>, PlanView>,
    order: Seq<Seq<char>>,
    n: int,
) -> Seq<HandoverView>
    decreases n,
{
    if n <= 0 {
        Seq::empty()
    } else {
        handovers(m, plans, order, n - 1) + handovers_of(m, plans, order[n - 1])
    }
}

/// State and actions after some handovers, and the ids that were not deleted.
pub struct Release {
    pub manager: ManagerView,
    pub actions: Seq<Action>,
    pub released: Seq<Seq<char>>,
}

/// Stop the listeners of the first `n` handovers.
pub open spec fn released(m: ManagerView, hs: Seq<HandoverView>, n: int) -> Release
    decreases n,
{
    if n <= 0 {
        Release { manager: m, actions: Seq::empty(), released: Seq::empty() }
    } else {
        let before = released(m, hs, n - 1);
        let h = hs[n - 1];
        Release {
            manager: manager::accept_stopped(before.manager, h.id, h.proto),
            actions: before.actions + manager::release_actions(before.manager.active(h.id, h.proto), h.deadline),
            released: if h.deleting {
                before.released
            } else {
                before.released.push(h.id)
            },
        }
    }
}

fn is_wanted(manager: &EndpointManager, plans: &IdMap<Plan>, laddr: SocketAddr, proto: Proto) -> (r: bool)
    requires
        manager.wf(),
        plans.wf(),
    ensures
        r == wanted(manager@, plan_views(plans@), laddr, proto),
{
    let ghost m = manager@;
    let ghost pv = plan_views(plans@);
    let mut i: usize = 0;
    while i < plans.len()
        invariant
            manager.wf(),
            plans.wf(),
            m == manager@,
            pv == plan_views(plans@),
            i <= plans.ids().len(),
            forall|j: int|
                0 <= j < i ==> {
                    let id = #[trigger] plans.ids()[j];
                    !pv[id].binds(laddr, proto) || (m.serving(id, proto) matches Some(e) && e.laddr == laddr)
                },
        decreases plans.ids().len() - i,
    {
        let id = plans.key_at(i);
        if plans.value_at(i).binds(laddr, proto) {
            let keeps = match manager.active_endpoint(id.as_str(), proto) {
                Some(e) => e.laddr == laddr,
                None => false,
            };
            if !keeps {
                assert(pv.dom().contains(id@));
                return true;
            }
        }
        i = i + 1;
    }
    proof {
        assert forall|id: Seq<char>| #[trigger] pv.dom().contains(id) implies !pv[id].binds(laddr, proto) || (
        m.serving(id, proto) matches Some(e) && e.laddr == laddr) by {
            assert(plans.has(id));
            let p = plans.lemma_has_position(id);
            assert(plans.ids()[p] == id);
        }
    }
    false
}

fn gives_up(manager: &EndpointManager, id: &str, built: &EndpointSpec, proto: Proto) -> (r: bool)
    requires
        manager.wf(),
    ensures
        r == (manager@.serving(id@, proto) matches Some(e) && (e.laddr != built@.endpoint.laddr || !built@.wants(
            proto,
        ))),
{
    match manager.active_endpoint(id, proto) {
        Some(e) => e.laddr != built.endpoint.laddr || !built.wants(proto),
        None => false,
    }
}

fn is_leaving(manager: &EndpointManager, plan: &Plan, id: &str) -> (r: bool)
    requires
        manager.wf(),
    ensures
        r == leaving(manager@, plan@, id@),
{
    match plan {
        Plan::Delete => true,
        Plan::Replace { built } => {
            let r = gives_up(manager, id, built, Proto::Tcp) || gives_up(manager, id, built, Proto::Udp);
            proof {
                let m = manager@;
                if r {
                    let proto = if m.serving(id@, Proto::Tcp) matches Some(e) && (e.laddr != built@.endpoint.laddr
                        || !built@.wants(Proto::Tcp)) {
                        Proto::Tcp
                    } else {
                        Proto::Udp
                    };
                    assert(m.serving(id@, proto) matches Some(e) && (e.laddr != built@.endpoint.laddr
                        || !built@.wants(proto)));
                }
            }
            r
        },
        _ => false,
    }
}

/// The listeners that have to be stopped before anything is bound, because
/// another endpoint of this generation is about to take their address.
pub fn plan_handovers(manager: &EndpointManager, plans: &IdMap<Plan>) -> (r: Vec<Handover>)
    requires
        manager.wf(),
        plans.wf(),
    ensures
        handover_views(r@) == handovers(manager@, plan_views(plans@), plans.ids(), plans.ids().len() as int),
{
    let ghost m = manager@;
    let ghost pv = plan_views(plans@);
    let mut r: Vec<Handover> = Vec::new();
    let mut i: usize = 0;
    assert(handover_views(r@) =~= handovers(m, pv, plans.ids(), 0));
    while i < plans.len()
        invariant
            manager.wf(),
            plans.wf(),
            m == manager@,
            pv == plan_views(plans@),
            i <= plans.ids().len(),
            handover_views(r@) == handovers(m, pv, plans.ids(), i as int),
        decreases plans.ids().len() - i,
    {
        let id = plans.key_at(i);
        let plan = plans.value_at(i);
        let ghost before = r@;
        assert(pv[id@] == plan@);
        if is_leaving(manager, plan, id.as_str()) {
            push_handover(manager, plans, plan, id, Proto::Tcp, &mut r);
            push_handover(manager, plans, plan, id, Proto::Udp, &mut r);
        }
        assert(handover_views(r@) =~= handover_views(before) + handovers_of(m, pv, id@));
        i = i + 1;
    }
    r
}

fn push_handover(
    manager: &EndpointManager,
    plans: &IdMap<Plan>,
    plan: &Plan,
    id: &String,
    proto: Proto,
    out: &mut Vec<Handover>,
)
    requires
        manager.wf(),
        plans.wf(),
        plan_views(plans@)[id@] == plan@,
        leaving(manager@, plan@, id@),
    ensures
        handover_views(final(out)@) == handover_views(old(out)@) + if handed_over(
            manager@,
            plan_views(plans@),
            id@,
            proto,
        ) {
            seq![handover(manager@, plan@, id@, proto)]
        } else {
            Seq::empty()
        },
{
    if let Some(e) = manager.active_endpoint(id.as_str(), proto) {
        if is_wanted(manager, plans, e.laddr, proto) {
            let policy = match manager.drain_policy(id.as_str()) {
                Some(p) => p,
                None => DrainPolicy::default(),
            };
            let deleting = matches!(plan, Plan::Delete);
            let deadline = if deleting {
                policy.on_delete
            } else {
                policy.on_replace(proto)
            };
            let h = Handover { id: id.clone(), proto, deadline, deleting };
            let ghost before = out@;
            out.push(h);
            assert(handover_views(out@) =~= handover_views(before).push(handover(manager@, plan@, id@, proto)));
        }
    }
    assert(handover_views(out@) =~= handover_views(old(out)@) + if handed_over(
        manager@,
        plan_views(plans@),
        id@,
        proto,
    ) {
        seq![handover(manager@, plan@, id@, proto)]
    } else {
        Seq::empty()
    });
}

/// Everything handed over by a set of plans.
pub open spec fn all_released(m: ManagerView, plans: Map<Seq<char>, PlanView>) -> Release {
    let order = crate::idmap::in_order(plans.dom());
    let hs = handovers(m, plans, order, order.len() as int);
    released(m, hs, hs.len() as int)
}

/// Stop accepting on every listener that is handed over, and say which of their
/// endpoints are to come back elsewhere.
pub fn release_contended_addresses(
    manager: &mut EndpointManager,
    plans: &IdMap<Plan>,
    actions: &mut Vec<Action>,
) -> (r: Vec<EndpointId>)
    requires
        old(manager).wf(),
        plans.wf(),
    ensures
        final(manager).wf(),
        ({
            let x = all_released(old(manager)@, plan_views(plans@));
            &&& final(manager)@ == x.manager
            &&& final(actions)@ == old(actions)@ + x.actions
            &&& crate::text::texts(r@) == x.released
        }),
{
    let ghost m = manager@;
    let hs = plan_handovers(manager, plans);
    let ghost hv = handover_views(hs@);
    proof {
        crate::idmap::law_order_follows_contents(*plans);
        assert(plan_views(plans@).dom() =~= plans@.dom());
    }
    let mut r: Vec<EndpointId> = Vec::new();
    let mut i: usize = 0;
    assert(crate::text::texts(r@) =~= Seq::empty());
    assert(actions@ =~= old(actions)@ + Seq::empty());
    while i < hs.len()
        invariant
            manager.wf(),
            i <= hs@.len(),
            hv == handover_views(hs@),
            manager@ == released(m, hv, i as int).manager,
            actions@ == old(actions)@ + released(m, hv, i as int).actions,
            crate::text::texts(r@) == released(m, hv, i as int).released,
        decreases hs@.len() - i,
    {
        let h = &hs[i];
        let ghost before = actions@;
        let ghost held = manager@.active(h.id@, h.proto);
        let _ = manager.stop_accept(h.id.as_str(), h.proto, h.deadline, actions);
        if !h.deleting {
            let ghost names = r@;
            r.push(h.id.clone());
            assert(crate::text::texts(r@) =~= crate::text::texts(names).push(h.id@));
        }
        proof {
            assert(hv[i as int] == h@);
            let x = released(m, hv, i as int);
            let y = released(m, hv, i + 1);
            assert(y.actions == x.actions + manager::release_actions(held, h.deadline));
            assert(actions@ =~= old(actions)@ + y.actions);
        }
        i = i + 1;
    }
    r
}

} // verus!
