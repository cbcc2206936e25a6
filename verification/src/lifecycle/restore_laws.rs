//! What holds of restoring a snapshot.

use vstd::prelude::*;

use crate::lifecycle::manager;
use crate::lifecycle::manager::{
    Active, ApplyOpView, Bound, ManagerView, NextView, Progress, Route, SlotView, StageView, StartRequestView,
};
use crate::lifecycle::manager_laws;
use crate::lifecycle::plan::EndpointSource;
use crate::lifecycle::plan_laws::{is_up, slot_at};
use crate::lifecycle::reconcile;
use crate::lifecycle::reconcile::{AnswerView, NeedView, ReconcilerView};
use crate::lifecycle::restore;
use crate::lifecycle::restore::{RestoreNext, RestoreStageView, RestoreStepView, RestoringView};
use crate::lifecycle::snapshot;
use crate::lifecycle::snapshot::{FileRead, SnapshotView};
use crate::lifecycle::types;
use crate::lifecycle::types::{
    EndpointSpecView, Generation, Proto, SlotAction, SlotOutcomeView, SlotStateView, TaskId,
};

verus! {

/// An unreadable or corrupt snapshot is an error, and changes nothing: the
/// process does not become ready on an empty state.
pub proof fn law_corrupt_snapshot_changes_nothing<S: EndpointSource>(
    r: ReconcilerView<S::V>,
    read: FileRead<S>,
)
    requires
        r.location is Some,
        snapshot::load_error(r.location->0, read) is Some,
    ensures
        restore::restore_begun(r, read).reconciler == r,
        restore::restore_begun(r, read).next == RestoreNext::<S::V>::Done(
            Err(snapshot::load_error(r.location->0, read)->0),
        ),
{
}

/// Whether an id is among the failures.
pub open spec fn is_listed(failed: Seq<(Seq<char>, Seq<char>)>, id: Seq<char>) -> bool {
    exists|i: int| 0 <= i < failed.len() && (#[trigger] failed[i]).0 == id
}

/// How far a restore has got.
pub open spec fn counted<V>(o: RestoringView<V>) -> bool {
    &&& 0 <= o.index <= o.order.len()
    &&& o.restored + o.failed.len() == o.index
}

/// Every endpoint of the first `index` is applied, or listed as failed.
pub open spec fn accounted<V>(r: ReconcilerView<V>, o: RestoringView<V>) -> bool {
    &&& counted(o)
    &&& forall|j: int|
        0 <= j < o.index ==> r.applied.dom().contains(#[trigger] o.order[j]) || is_listed(o.failed, o.order[j])
}

/// What a step of a restore leads to.
pub open spec fn accounted_step<V>(o: RestoringView<V>, x: RestoreStepView<V>) -> bool {
    match x.next {
        RestoreNext::More(n) => accounted(x.reconciler, n) && n.order == o.order && n.snapshot == o.snapshot
            && n.index < n.order.len(),
        RestoreNext::Done(Ok(outcome)) => {
            &&& outcome.restored + outcome.failed.len() == o.order.len()
            &&& outcome.generation == Some(o.snapshot.generation)
            &&& outcome.partial == (o.snapshot.partial || outcome.failed.len() > 0)
            &&& x.reconciler.ready
            &&& x.reconciler.active == outcome.generation
            &&& x.reconciler.partial == outcome.partial
            &&& forall|j: int|
                0 <= j < o.order.len() ==> x.reconciler.applied.dom().contains(#[trigger] o.order[j]) || is_listed(outcome.failed, o.order[j])
        },
        RestoreNext::Done(Err(_)) => false,
    }
}

proof fn lemma_other_stage<V>(
    r: ReconcilerView<V>,
    n: ReconcilerView<V>,
    o: RestoringView<V>,
    stage: RestoreStageView<V>,
)
    requires
        accounted(r, o),
        n.applied == r.applied,
    ensures
        accounted(n, RestoringView { stage, ..o }),
{
    let p = RestoringView { stage, ..o };
    assert forall|j: int| 0 <= j < p.index implies n.applied.dom().contains(#[trigger] p.order[j]) || is_listed(p.failed, p.order[j]) by {
        assert(r.applied.dom().contains(o.order[j]) || is_listed(o.failed, o.order[j]));
    }
}

proof fn lemma_next<V>(r: ReconcilerView<V>, o: RestoringView<V>)
    requires
        accounted(r, o),
    ensures
        accounted_step(o, restore::restore_next(r, o)),
{
}

proof fn lemma_failed<V>(r: ReconcilerView<V>, o: RestoringView<V>, error: Seq<char>)
    requires
        accounted(r, o),
        o.index < o.order.len(),
    ensures
        accounted_step(o, restore::restore_failed(r, o, error)),
{
    let n = RestoringView { index: o.index + 1, failed: o.failed.push((o.order[o.index], error)), ..o };
    assert forall|j: int| 0 <= j < n.index implies r.applied.dom().contains(#[trigger] n.order[j]) || is_listed(n.failed, n.order[j]) by {
        if j < o.index {
            if is_listed(o.failed, o.order[j]) {
                let i = choose|i: int| 0 <= i < o.failed.len() && (#[trigger] o.failed[i]).0 == o.order[j];
                assert(n.failed[i].0 == n.order[j]);
            }
        } else {
            assert(n.failed[o.failed.len() as int].0 == n.order[j]);
        }
    }
    lemma_next(r, n);
}

proof fn lemma_applied<V>(r: ReconcilerView<V>, o: RestoringView<V>, spec: V, outcomes: Seq<SlotOutcomeView>)
    requires
        accounted(r, o),
        o.index < o.order.len(),
    ensures
        accounted_step(o, restore::restore_applied(r, o, spec, outcomes)),
{
    match restore::first_failure(outcomes) {
        Some(error) => lemma_failed(r, o, error),
        None => {
            let id = o.order[o.index];
            let n = ReconcilerView { applied: r.applied.insert(id, spec), ..r };
            let next = RestoringView { index: o.index + 1, restored: o.restored + 1, ..o };
            assert forall|j: int| 0 <= j < next.index implies n.applied.dom().contains(#[trigger] next.order[j])
                || is_listed(next.failed, next.order[j]) by {
                assert(j < o.index ==> r.applied.dom().contains(o.order[j]) || is_listed(o.failed, o.order[j]));
            }
            lemma_next(n, next);
        },
    }
}

proof fn lemma_progress<V>(r: ReconcilerView<V>, o: RestoringView<V>, spec: V, p: Progress)
    requires
        accounted(r, o),
        o.index < o.order.len(),
    ensures
        accounted_step(o, restore::restore_progress(r, o, spec, p)),
{
    let n = ReconcilerView { manager: p.manager, ..r };
    lemma_other_stage(r, n, o, o.stage);
    assert(RestoringView { stage: o.stage, ..o } == o);
    match p.next {
        NextView::Done(outcomes) => {
            lemma_applied(n, o, spec, outcomes);
        },
        NextView::More(op) => {
            lemma_other_stage(r, n, o, RestoreStageView::Starting(spec, op));
        },
    }
}

/// No endpoint of a snapshot is dropped silently: at the end each has come back
/// or is listed as failed, the numbers add up, the generation of the snapshot is
/// in effect, and submissions are accepted.
pub proof fn law_restore_accounts_for_everything<V>(r: ReconcilerView<V>, o: RestoringView<V>, answer: AnswerView<V>)
    requires
        accounted(r, o),
        o.index < o.order.len(),
    ensures
        accounted_step(o, restore::restore_resumed(r, o, answer)),
{
    let b = RestoringView { stage: RestoreStageView::Refreshing, ..o };
    lemma_other_stage(r, r, o, RestoreStageView::Refreshing);
    match (o.stage, answer) {
        (RestoreStageView::Refreshing, AnswerView::Refreshed(results)) => {
            if let Err(e) = reconcile::refresh_result(results, 0) {
                lemma_failed(r, b, e);
            } else {
                let spec = reconcile::refresh_result(results, 0)->Ok_0;
                lemma_other_stage(r, r, o, RestoreStageView::Building(spec));
            }
        },
        (RestoreStageView::Building(spec), AnswerView::Built(builds)) => {
            if let Err(e) = crate::lifecycle::plan::build_result(builds, 0) {
                lemma_failed(r, b, e);
            } else {
                let built = crate::lifecycle::plan::build_result(builds, 0)->Ok_0;
                lemma_other_stage(r, r, o, RestoreStageView::Polling(spec, built));
            }
        },
        (RestoreStageView::Polling(spec, built), AnswerView::Polled(finished)) => {
            lemma_progress(
                r,
                b,
                spec,
                manager::apply_begun(r.manager, o.order[o.index], o.snapshot.generation, built, finished),
            );
        },
        (RestoreStageView::Starting(spec, op), AnswerView::Started(started)) => {
            lemma_progress(r, b, spec, manager::apply_resumed(r.manager, op, started));
        },
        _ => {},
    }
}

/// The first wait of a restore, or its end when the snapshot is empty, has lost
/// nothing either.
pub proof fn law_restore_begins_with_everything<S: EndpointSource>(
    r: ReconcilerView<S::V>,
    read: FileRead<S>,
)
    requires
        r.location is Some,
        snapshot::load_error(r.location->0, read) is None,
        read is Parsed,
    ensures
        ({
            let s = read->Parsed_0.snapshot@;
            let o = RestoringView {
                snapshot: s,
                order: crate::idmap::in_order(s.endpoints.dom()),
                index: 0,
                restored: 0,
                failed: Seq::empty(),
                stage: RestoreStageView::Refreshing,
            };
            accounted_step(o, restore::restore_begun(r, read))
        }),
{
}

// -------------------------------------------------------------- generation --

/// Whether a slot belongs to a generation with what it runs, and nothing drains.
pub open spec fn is_under(s: Option<SlotView>, generation: Generation) -> bool {
    s matches Some(s) ==> {
        &&& s.generation == generation
        &&& s.draining.len() == 0
        &&& s.active matches Some(a) ==> a.generation == generation
    }
}

/// Whether everything that is kept belongs to one generation, and nothing drains.
pub open spec fn all_under(m: ManagerView, generation: Generation) -> bool {
    forall|id: Seq<char>, proto: Proto| is_under(#[trigger] slot_at(m, id, proto), generation)
}

/// Where a restore stands that began with nothing managed: what is there belongs
/// to the generation of the snapshot, what is still to come is not managed yet,
/// and the endpoint that is being started is the one it is at.
pub open spec fn restoring_under<V>(r: ReconcilerView<V>, o: RestoringView<V>) -> bool {
    &&& 0 <= o.index < o.order.len()
    &&& crate::idmap::strictly_sorted(o.order)
    &&& all_under(r.manager, o.snapshot.generation)
    &&& forall|j: int|
        o.index < j < o.order.len() ==> !r.manager.entries.dom().contains(#[trigger] o.order[j])
    &&& match o.stage {
        RestoreStageView::Starting(_, op) => fresh_start(r.manager, op, o.order[o.index], o.snapshot.generation),
        _ => !r.manager.entries.dom().contains(o.order[o.index]),
    }
}

/// Whether an operation is to start a listener where there is none.
pub open spec fn fresh_start(m: ManagerView, op: ApplyOpView, id: Seq<char>, generation: Generation) -> bool {
    &&& op.id == id
    &&& op.generation == generation
    &&& m.entries.dom().contains(id)
    &&& slot_at(m, id, Proto::Udp) is None
    &&& match op.stage {
        StageView::Starting { proto, route } => route == Route::Fresh && slot_at(m, id, proto) is None,
        _ => false,
    }
}

/// What a step of such a restore leads to.
pub open spec fn restored_under<V>(snapshot: SnapshotView<V>, x: RestoreStepView<V>) -> bool {
    match x.next {
        RestoreNext::More(n) => {
            &&& n.snapshot == snapshot
            &&& restoring_under(x.reconciler, n)
            &&& restore::restore_needs(n) matches NeedView::Start(request) ==> request.generation
                == snapshot.generation
        },
        RestoreNext::Done(Ok(outcome)) => {
            &&& all_under(x.reconciler.manager, snapshot.generation)
            &&& outcome.generation == Some(snapshot.generation)
            &&& x.reconciler.active == Some(snapshot.generation)
        },
        RestoreNext::Done(Err(_)) => false,
    }
}

proof fn lemma_refreshed_under(m: ManagerView, finished: Seq<TaskId>, generation: Generation)
    requires
        all_under(m, generation),
    ensures
        all_under(manager::refreshed(m, finished), generation),
        manager::refreshed(m, finished).entries.dom() == m.entries.dom(),
        manager::refreshed(m, finished).policy == m.policy,
{
    let n = manager::refreshed(m, finished);
    assert(n.entries.dom() =~= m.entries.dom());
    assert forall|id: Seq<char>, proto: Proto| is_under(
        #[trigger] slot_at(n, id, proto),
        generation,
    ) by {
        let before = slot_at(m, id, proto);
        assert(slot_at(n, id, proto) == manager::refreshed_opt(before, finished));
        assert(is_under(before, generation));
        if let Some(t) = before {
            assert(t.draining =~= Seq::empty());
            assert(t.draining.filter(|d: manager::Draining| !finished.contains(d.task)).len() == 0) by {
                reveal(Seq::filter);
            }
        }
    }
}

/// The step of an operation that leaves everything under one generation.
pub open spec fn progress_under(m: ManagerView, p: Progress, id: Seq<char>, generation: Generation) -> bool {
    &&& all_under(p.manager, generation)
    &&& forall|k: Seq<char>|
        k != id ==> #[trigger] p.manager.entries.dom().contains(k) == m.entries.dom().contains(k)
    &&& p.next matches NextView::More(op) ==> fresh_start(p.manager, op, id, generation) && op.spec.wants(
        manager_laws::busy_with(op),
    )
}

proof fn lemma_finish_under(m: ManagerView, op: ApplyOpView, generation: Generation)
    requires
        all_under(m, generation),
    ensures
        progress_under(m, manager::finish(m, op), op.id, generation),
{
    let n = manager::finish(m, op).manager;
    assert forall|id: Seq<char>, proto: Proto| is_under(
        #[trigger] slot_at(n, id, proto),
        generation,
    ) by {
        assert(is_under(slot_at(m, id, proto), generation));
    }
}

proof fn lemma_run_udp_under(m: ManagerView, op: ApplyOpView, generation: Generation)
    requires
        all_under(m, generation),
        op.generation == generation,
        m.entries.dom().contains(op.id),
        slot_at(m, op.id, Proto::Udp) is None,
    ensures
        progress_under(m, manager::run_udp(m, op), op.id, generation),
{
    let t = manager::enter_slot(m, op, Proto::Udp);
    assert(m.slot(op.id, Proto::Udp) is None);
    if !t.waiting {
        assert(t.manager == m);
        lemma_finish_under(m, t.op, generation);
    }
}

proof fn lemma_begun_under(
    m: ManagerView,
    id: Seq<char>,
    generation: Generation,
    spec: EndpointSpecView,
    finished: Seq<TaskId>,
)
    requires
        all_under(m, generation),
        !m.entries.dom().contains(id),
    ensures
        progress_under(m, manager::apply_begun(m, id, generation, spec, finished), id, generation),
{
    lemma_refreshed_under(m, finished, generation);
    let n = manager::refreshed(m, finished);
    if spec.tcp || spec.udp {
        let drain = manager::drain_for(n, spec);
        let e = manager::enrolled(n, id, drain);
        let op = ApplyOpView {
            id,
            generation,
            spec,
            drain,
            stage: StageView::Starting { proto: Proto::Tcp, route: Route::Fresh },
            outcomes: Seq::empty(),
        };
        assert forall|k: Seq<char>, proto: Proto| is_under(
        #[trigger] slot_at(e, k, proto),
        generation,
    ) by {
            assert(slot_at(e, k, proto) == slot_at(n, k, proto));
        }
        assert(e.slot(id, Proto::Tcp) is None);
        assert(slot_at(e, id, Proto::Udp) is None);
        let t = manager::enter_slot(e, op, Proto::Tcp);
        if !t.waiting {
            lemma_run_udp_under(e, op, generation);
        }
    }
}

proof fn lemma_resumed_under(
    m: ManagerView,
    op: ApplyOpView,
    id: Seq<char>,
    generation: Generation,
    started: Result<Bound, Seq<char>>,
)
    requires
        all_under(m, generation),
        fresh_start(m, op, id, generation),
    ensures
        progress_under(m, manager::apply_resumed(m, op, started), id, generation),
{
    let proto = op.stage->Starting_proto;
    assert(m.slot(id, proto) is None);
    let (slot, outcome) = match started {
        Ok(bound) => (
            manager::running_slot(None, op, bound, Seq::empty()),
            types::ok_outcome(proto, SlotAction::Created),
        ),
        Err(reason) => {
            let error = manager::bind_error(op.spec.endpoint.laddr, reason);
            (
                SlotView {
                    state: SlotStateView::Failed(error),
                    generation: op.generation,
                    endpoint: op.spec.endpoint,
                    material: op.spec.material,
                    drain: op.drain,
                    active: None,
                    draining: Seq::empty(),
                },
                types::failed_outcome(proto, error),
            )
        },
    };
    let n = m.with_slot(id, proto, Some(slot));
    let next = ApplyOpView { outcomes: op.outcomes.push(outcome), ..op };
    assert(Seq::<manager::Draining>::empty() + Seq::<manager::Draining>::empty() =~= Seq::empty());
    assert forall|k: Seq<char>, q: Proto| is_under(
        #[trigger] slot_at(n, k, q),
        generation,
    ) by {
        assert(slot_at(n, k, q) == if k == id && q == proto {
            Some(slot)
        } else {
            slot_at(m, k, q)
        });
    }
    match proto {
        Proto::Tcp => {
            assert(slot_at(n, id, Proto::Udp) == slot_at(m, id, Proto::Udp));
            lemma_run_udp_under(n, next, generation);
        },
        Proto::Udp => lemma_finish_under(n, next, generation),
    }
}

proof fn lemma_next_under<V>(r: ReconcilerView<V>, n: ReconcilerView<V>, o: RestoringView<V>, next: RestoringView<V>)
    requires
        0 <= o.index < o.order.len(),
        crate::idmap::strictly_sorted(o.order),
        all_under(n.manager, o.snapshot.generation),
        forall|j: int|
            o.index < j < o.order.len() ==> !r.manager.entries.dom().contains(#[trigger] o.order[j]),
        forall|k: Seq<char>|
            k != o.order[o.index] ==> #[trigger] n.manager.entries.dom().contains(k) == r.manager.entries.dom().contains(
                k,
            ),
        next.order == o.order,
        next.snapshot == o.snapshot,
        next.index == o.index + 1,
    ensures
        restored_under(o.snapshot, restore::restore_next(n, next)),
{
    assert forall|j: int| o.index < j < o.order.len() implies !n.manager.entries.dom().contains(
        #[trigger] o.order[j],
    ) by {
        crate::lifecycle::plan::lemma_distinct(o.order, o.index);
        assert(!r.manager.entries.dom().contains(o.order[j]));
    }
}

proof fn lemma_progress_under<V>(r: ReconcilerView<V>, o: RestoringView<V>, spec: V, p: Progress)
    requires
        0 <= o.index < o.order.len(),
        crate::idmap::strictly_sorted(o.order),
        forall|j: int|
            o.index < j < o.order.len() ==> !r.manager.entries.dom().contains(#[trigger] o.order[j]),
        progress_under(r.manager, p, o.order[o.index], o.snapshot.generation),
    ensures
        restored_under(o.snapshot, restore::restore_progress(r, o, spec, p)),
{
    let id = o.order[o.index];
    let n = ReconcilerView { manager: p.manager, ..r };
    match p.next {
        NextView::More(op) => {
            assert forall|j: int| o.index < j < o.order.len() implies !n.manager.entries.dom().contains(
                #[trigger] o.order[j],
            ) by {
                crate::lifecycle::plan::lemma_distinct(o.order, o.index);
                assert(!r.manager.entries.dom().contains(o.order[j]));
            }
        },
        NextView::Done(outcomes) => match restore::first_failure(outcomes) {
            Some(error) => {
                let next = RestoringView { index: o.index + 1, failed: o.failed.push((id, error)), ..o };
                lemma_next_under(r, n, o, next);
            },
            None => {
                let adopted = ReconcilerView { applied: n.applied.insert(id, spec), ..n };
                let next = RestoringView { index: o.index + 1, restored: o.restored + 1, ..o };
                lemma_next_under(r, adopted, o, next);
            },
        },
    }
}

proof fn lemma_begins_under<V>(
    r: ReconcilerView<V>,
    o: RestoringView<V>,
    spec: V,
    built: EndpointSpecView,
    finished: Seq<TaskId>,
)
    requires
        o.stage == RestoreStageView::Polling(spec, built),
    ensures
        restore::restore_resumed(r, o, AnswerView::Polled(finished)) == restore::restore_progress(
            r,
            RestoringView { stage: RestoreStageView::Refreshing, ..o },
            spec,
            manager::apply_begun(r.manager, o.order[o.index], o.snapshot.generation, built, finished),
        ),
{
}

/// A restore brings everything up under the generation of the snapshot. When it
/// began with nothing managed, then after each of its steps every slot and every
/// listener belongs to that generation, and each listener it asks for is asked
/// for under it. At its end that is the active generation.
pub proof fn law_restore_is_under_the_generation_of_the_snapshot<V>(
    r: ReconcilerView<V>,
    o: RestoringView<V>,
    answer: AnswerView<V>,
)
    requires
        restoring_under(r, o),
    ensures
        restored_under(o.snapshot, restore::restore_resumed(r, o, answer)),
{
    let b = RestoringView { stage: RestoreStageView::Refreshing, ..o };
    let id = o.order[o.index];
    let generation = o.snapshot.generation;
    match (o.stage, answer) {
        (RestoreStageView::Refreshing, AnswerView::Refreshed(results)) => {
            if let Err(e) = reconcile::refresh_result(results, 0) {
                let next = RestoringView { index: o.index + 1, failed: o.failed.push((id, e)), ..b };
                lemma_next_under(r, r, b, next);
            }
        },
        (RestoreStageView::Building(spec), AnswerView::Built(builds)) => {
            if let Err(e) = crate::lifecycle::plan::build_result(builds, 0) {
                let next = RestoringView { index: o.index + 1, failed: o.failed.push((id, e)), ..b };
                lemma_next_under(r, r, b, next);
            }
        },
        (RestoreStageView::Polling(spec, built), AnswerView::Polled(finished)) => {
            lemma_begun_under(r.manager, id, generation, built, finished);
            let p = manager::apply_begun(r.manager, id, generation, built, finished);
            lemma_begins_under(r, o, spec, built, finished);
            lemma_progress_under(r, b, spec, p);
        },
        (RestoreStageView::Starting(spec, op), AnswerView::Started(started)) => {
            lemma_resumed_under(r.manager, op, id, generation, started);
            let p = manager::apply_resumed(r.manager, op, started);
            lemma_progress_under(r, b, spec, p);
        },
        _ => {},
    }
}

/// A restore that finds nothing managed begins that way.
pub proof fn law_restore_begins_under_the_generation_of_the_snapshot<S: EndpointSource>(
    r: ReconcilerView<S::V>,
    read: FileRead<S>,
)
    requires
        r.location is Some,
        r.manager.entries.dom() == Set::<Seq<char>>::empty(),
        read matches FileRead::Parsed(e) && e.version == snapshot::SNAPSHOT_VERSION && e.snapshot.endpoints.wf(),
    ensures
        restored_under(read->Parsed_0.snapshot@, restore::restore_begun(r, read)),
{
    let s = read->Parsed_0.snapshot;
    crate::idmap::law_order_follows_contents(s.endpoints);
    assert(s@.endpoints.dom() =~= s.endpoints@.dom());
}

// ---------------------------------------------------------- one at a time --

/// Whether a restore went on to the next endpoint, or ended after the last, with
/// so many that came back and these that did not.
pub open spec fn moved_on<V>(
    o: RestoringView<V>,
    x: RestoreStepView<V>,
    restored: int,
    failed: Seq<(Seq<char>, Seq<char>)>,
) -> bool {
    match x.next {
        RestoreNext::More(n) => {
            &&& o.index + 1 < o.order.len()
            &&& n.index == o.index + 1
            &&& n.order == o.order
            &&& n.snapshot == o.snapshot
            &&& n.restored == restored
            &&& n.failed == failed
            &&& n.stage is Refreshing
        },
        RestoreNext::Done(Ok(outcome)) => {
            &&& o.index + 1 == o.order.len()
            &&& outcome.restored == restored
            &&& outcome.failed == failed
            &&& outcome.partial == (o.snapshot.partial || failed.len() > 0)
        },
        RestoreNext::Done(Err(_)) => false,
    }
}

/// Another answer to a restore that waits for one.
pub open spec fn answered<V>(x: RestoreStepView<V>, answer: AnswerView<V>) -> RestoreStepView<V> {
    match x.next {
        RestoreNext::More(o) => restore::restore_resumed(x.reconciler, o, answer).after(x.actions),
        RestoreNext::Done(_) => x,
    }
}

/// What a restore waits for, if for anything.
pub open spec fn waits_for<V>(x: RestoreStepView<V>) -> Option<NeedView<V>> {
    match x.next {
        RestoreNext::More(o) => Some(restore::restore_needs(o)),
        RestoreNext::Done(_) => None,
    }
}

/// A restore asks for the description that the snapshot holds of the endpoint it
/// is at to be refreshed, then for what that gave to be built. A description that
/// cannot be refreshed or built is listed with the reason, and nothing else
/// comes of it.
pub proof fn law_restore_takes_descriptions_from_the_snapshot<V>(
    r: ReconcilerView<V>,
    o: RestoringView<V>,
    refreshed: Result<V, Seq<char>>,
    built: Result<EndpointSpecView, Seq<char>>,
)
    requires
        0 <= o.index < o.order.len(),
        o.stage is Refreshing,
    ensures
        ({
            let id = o.order[o.index];
            let x = restore::restore_resumed(r, o, AnswerView::Refreshed(seq![refreshed]));
            let y = answered(x, AnswerView::Built(seq![built]));
            &&& restore::restore_needs(o) == NeedView::Refresh(seq![o.snapshot.endpoints[id]])
            &&& refreshed matches Err(e) ==> {
                &&& moved_on(o, x, o.restored, o.failed.push((id, e)))
                &&& x.reconciler.manager == r.manager
                &&& x.reconciler.applied == r.applied
                &&& x.actions.len() == 0
            }
            &&& refreshed matches Ok(spec) ==> {
                &&& waits_for(x) == Some(NeedView::Build(seq![Some(spec)]))
                &&& y.reconciler.manager == r.manager
                &&& y.reconciler.applied == r.applied
                &&& y.actions.len() == 0
                &&& built is Ok ==> waits_for(y) == Some(NeedView::<V>::Poll)
                &&& built matches Err(e) ==> moved_on(o, y, o.restored, o.failed.push((id, e)))
            }
        }),
{
}

/// The slot of a listener that came back.
pub open spec fn back(
    asked: bool,
    m: ManagerView,
    generation: Generation,
    built: EndpointSpecView,
    bound: Bound,
) -> Option<SlotView> {
    if asked {
        Some(
            SlotView {
                state: SlotStateView::Running,
                generation,
                endpoint: built.endpoint,
                material: built.material,
                drain: if built.drain is Some {
                    built.drain->0
                } else {
                    m.policy
                },
                active: Some(Active { generation, laddr: bound.laddr, task: bound.task }),
                draining: Seq::empty(),
            },
        )
    } else {
        None
    }
}

/// An endpoint whose listeners can be started comes back: for each protocol it
/// asks for a listener is started under the generation of the snapshot, and runs
/// what was built. Its description is applied, and it counts as restored.
#[verifier::rlimit(30)]
pub proof fn law_endpoint_comes_back<V>(
    r: ReconcilerView<V>,
    o: RestoringView<V>,
    spec: V,
    built: EndpointSpecView,
    finished: Seq<TaskId>,
    tcp: Bound,
    udp: Bound,
)
    requires
        restoring_under(r, o),
        o.stage == RestoreStageView::Polling(spec, built),
        built.tcp || built.udp,
    ensures
        ({
            let id = o.order[o.index];
            let generation = o.snapshot.generation;
            let x = restore::restore_resumed(r, o, AnswerView::Polled(finished));
            let y = if built.tcp {
                answered(x, AnswerView::Started(Ok(tcp)))
            } else {
                x
            };
            let z = if built.udp {
                answered(y, AnswerView::Started(Ok(udp)))
            } else {
                y
            };
            &&& built.tcp ==> waits_for(x) == Some(
                NeedView::<V>::Start(
                    StartRequestView { proto: Proto::Tcp, endpoint: built.endpoint, generation },
                ),
            )
            &&& built.udp ==> waits_for(y) == Some(
                NeedView::<V>::Start(
                    StartRequestView { proto: Proto::Udp, endpoint: built.endpoint, generation },
                ),
            )
            &&& z.reconciler.applied == r.applied.insert(id, spec)
            &&& z.actions.len() == 0
            &&& moved_on(o, z, o.restored + 1, o.failed)
            &&& slot_at(z.reconciler.manager, id, Proto::Tcp) == back(built.tcp, r.manager, generation, built, tcp)
            &&& slot_at(z.reconciler.manager, id, Proto::Udp) == back(built.udp, r.manager, generation, built, udp)
            &&& z.reconciler.manager.entries[id].drain == manager::drain_for(r.manager, built)
        }),
{
    let id = o.order[o.index];
    let generation = o.snapshot.generation;
    let n = manager::refreshed(r.manager, finished);
    assert(n.entries.dom() =~= r.manager.entries.dom());
    let drain = manager::drain_for(r.manager, built);
    let e = manager::enrolled(n, id, drain);
    assert(e.slot(id, Proto::Tcp) is None && e.slot(id, Proto::Udp) is None);
    let none = Seq::<manager::Draining>::empty();
    assert(none + none =~= none);
    let x = restore::restore_resumed(r, o, AnswerView::Polled(finished));
    if built.tcp {
        let op = x.next->More_0.stage->Starting_1;
        assert(x.reconciler.manager == e);
        assert(op.outcomes =~= Seq::empty());
        let s = manager::running_slot(None, op, tcp, none);
        let f = e.with_slot(id, Proto::Tcp, Some(s));
        assert(f.slot(id, Proto::Tcp) == Some(s) && f.slot(id, Proto::Udp) is None);
        let y = answered(x, AnswerView::Started(Ok(tcp)));
        let done = seq![types::ok_outcome(Proto::Tcp, SlotAction::Created)];
        assert(op.outcomes.push(types::ok_outcome(Proto::Tcp, SlotAction::Created)) =~= done);
        if built.udp {
            let oq = y.next->More_0.stage->Starting_1;
            assert(y.reconciler.manager == f);
            let t = manager::running_slot(None, oq, udp, none);
            let g = f.with_slot(id, Proto::Udp, Some(t));
            assert(g.slot(id, Proto::Tcp) == Some(s) && g.slot(id, Proto::Udp) == Some(t));
            let both = done.push(types::ok_outcome(Proto::Udp, SlotAction::Created));
            reveal_with_fuel(restore::first_failure, 3);
            assert(both.drop_first().drop_first() =~= Seq::empty());
        } else {
            reveal_with_fuel(restore::first_failure, 2);
            assert(done.drop_first() =~= Seq::empty());
        }
    } else {
        let op = x.next->More_0.stage->Starting_1;
        assert(x.reconciler.manager == e);
        let t = manager::running_slot(None, op, udp, none);
        let g = e.with_slot(id, Proto::Udp, Some(t));
        assert(g.slot(id, Proto::Udp) == Some(t) && g.slot(id, Proto::Tcp) is None);
        let done = Seq::<SlotOutcomeView>::empty().push(types::ok_outcome(Proto::Udp, SlotAction::Created));
        reveal_with_fuel(restore::first_failure, 2);
        assert(done.drop_first() =~= Seq::empty());
    }
}

/// An endpoint one of whose listeners cannot be started is listed with the reason
/// of the first that could not, and its description is not applied. Whatever else
/// it asks for is started all the same.
#[verifier::rlimit(30)]
pub proof fn law_endpoint_that_cannot_be_started_is_listed<V>(
    r: ReconcilerView<V>,
    o: RestoringView<V>,
    spec: V,
    built: EndpointSpecView,
    finished: Seq<TaskId>,
    tcp: Result<Bound, Seq<char>>,
    udp: Result<Bound, Seq<char>>,
)
    requires
        restoring_under(r, o),
        o.stage == RestoreStageView::Polling(spec, built),
        built.tcp || built.udp,
        built.tcp && tcp is Err || built.udp && udp is Err,
    ensures
        ({
            let id = o.order[o.index];
            let x = restore::restore_resumed(r, o, AnswerView::Polled(finished));
            let y = if built.tcp {
                answered(x, AnswerView::Started(tcp))
            } else {
                x
            };
            let z = if built.udp {
                answered(y, AnswerView::Started(udp))
            } else {
                y
            };
            let reason = if built.tcp && tcp is Err {
                tcp->Err_0
            } else {
                udp->Err_0
            };
            let error = "failed to bind "@ + crate::net::addr_text(built.endpoint.laddr) + ": "@ + reason;
            &&& z.reconciler.applied == r.applied
            &&& moved_on(o, z, o.restored, o.failed.push((id, error)))
            &&& built.tcp ==> is_up(z.reconciler.manager, id, Proto::Tcp) == tcp is Ok
            &&& built.udp ==> is_up(z.reconciler.manager, id, Proto::Udp) == udp is Ok
            &&& built.tcp && tcp is Err ==> slot_at(z.reconciler.manager, id, Proto::Tcp)->0.state is Failed
            &&& built.udp && udp is Err ==> slot_at(z.reconciler.manager, id, Proto::Udp)->0.state is Failed
        }),
{
    let id = o.order[o.index];
    let n = manager::refreshed(r.manager, finished);
    assert(n.entries.dom() =~= r.manager.entries.dom());
    let e = manager::enrolled(n, id, manager::drain_for(r.manager, built));
    assert(e.slot(id, Proto::Tcp) is None && e.slot(id, Proto::Udp) is None);
    let x = restore::restore_resumed(r, o, AnswerView::Polled(finished));
    let op = x.next->More_0.stage->Starting_1;
    assert(x.reconciler.manager == e);
    assert(op.outcomes =~= Seq::empty());
    reveal_with_fuel(restore::first_failure, 3);
    if built.tcp {
        let y = answered(x, AnswerView::Started(tcp));
        let first = match tcp {
            Ok(_) => types::ok_outcome(Proto::Tcp, SlotAction::Created),
            Err(reason) => types::failed_outcome(Proto::Tcp, manager::bind_error(built.endpoint.laddr, reason)),
        };
        let done = op.outcomes.push(first);
        assert(done =~= seq![first]);
        if built.udp {
            let oq = y.next->More_0.stage->Starting_1;
            assert(oq.outcomes == done);
            let second = match udp {
                Ok(_) => types::ok_outcome(Proto::Udp, SlotAction::Created),
                Err(reason) => types::failed_outcome(Proto::Udp, manager::bind_error(built.endpoint.laddr, reason)),
            };
            let both = done.push(second);
            assert(both[0] == first);
            assert(both.drop_first() =~= seq![second]);
        }
    } else {
        let second = types::failed_outcome(
            Proto::Udp,
            manager::bind_error(built.endpoint.laddr, udp->Err_0),
        );
        assert(op.outcomes.push(second) =~= seq![second]);
    }
}

/// Without a place for snapshots, or without a file there, nothing is restored and
/// the process is ready as it is. A file that is refused leaves it as it was.
pub proof fn law_nothing_to_restore_is_ready<S: EndpointSource>(r: ReconcilerView<S::V>, read: FileRead<S>)
    ensures
        ({
            let x = restore::restore_begun(r, read);
            let nothing = r.location is None || (read matches FileRead::Failed(e) && e.kind
                == crate::io::ErrorKind::NotFound);
            &&& x.actions.len() == 0
            &&& nothing ==> {
                &&& x.reconciler == ReconcilerView { ready: true, ..r }
                &&& x.next matches RestoreNext::Done(Ok(outcome))
                &&& outcome.generation is None && outcome.restored == 0 && outcome.failed.len() == 0
                &&& !outcome.partial
            }
            &&& !nothing && !(read is Parsed && read->Parsed_0.version == 1) ==> x.reconciler == r && (x.next
                matches RestoreNext::Done(Err(_)))
        }),
{
}

/// An answer to something that a restore does not wait for changes nothing.
pub proof fn law_unasked_answer_to_a_restore_changes_nothing<V>(
    r: ReconcilerView<V>,
    o: RestoringView<V>,
    answer: AnswerView<V>,
)
    requires
        match o.stage {
            RestoreStageView::Refreshing => !(answer is Refreshed),
            RestoreStageView::Building(_) => !(answer is Built),
            RestoreStageView::Polling(_, _) => !(answer is Polled),
            RestoreStageView::Starting(_, _) => !(answer is Started),
        },
    ensures
        restore::restore_resumed(r, o, answer).reconciler == r,
        restore::restore_resumed(r, o, answer).actions.len() == 0,
        restore::restore_resumed(r, o, answer).next == RestoreNext::<V>::More(o),
{
}

} // verus!
