//! Restoring the last-known-good snapshot at startup.
//!
//! Endpoints are restored one by one: one that cannot come back is marked
//! failed and the rest is served, with the active generation carrying the
//! partial mark. Only an unreadable or corrupt snapshot is an error: restoring
//! nothing where something was expected would silently drop every endpoint.

use vstd::prelude::*;
use vstd::string::*;

use crate::lifecycle::manager;
use crate::lifecycle::manager::{Action, ApplyOp, ApplyOpView, Next, NextView};
use crate::lifecycle::plan;
use crate::lifecycle::plan::EndpointSource;
use crate::lifecycle::reconcile;
use crate::lifecycle::reconcile::{Answer, AnswerView, Need, NeedView, Reconciler, ReconcilerView};
use crate::lifecycle::snapshot;
use crate::io::{IoError, IoErrorView};
use crate::lifecycle::snapshot::{FileRead, RestoreOutcome, RestoreView, Snapshot, SnapshotView};
use crate::lifecycle::types;
use crate::lifecycle::types::{EndpointId, EndpointSpec, EndpointSpecView, SlotAction, SlotOutcome, SlotOutcomeView};

verus! {

/// What a restore waits for.
pub enum RestoreStage<S> {
    /// the description brought up to date with the material it names
    Refreshing,
    /// the endpoint built from it
    Building(S),
    /// which tasks have ended
    Polling(S, EndpointSpec),
    /// a listener
    Starting(S, ApplyOp),
}

pub enum RestoreStageView<V> {
    Refreshing,
    Building(V),
    Polling(V, EndpointSpecView),
    Starting(V, ApplyOpView),
}

impl<S: View> View for RestoreStage<S> {
    type V = RestoreStageView<S::V>;

    open spec fn view(&self) -> RestoreStageView<S::V> {
        match self {
            RestoreStage::Refreshing => RestoreStageView::Refreshing,
            RestoreStage::Building(s) => RestoreStageView::Building(s@),
            RestoreStage::Polling(s, built) => RestoreStageView::Polling(s@, built@),
            RestoreStage::Starting(s, op) => RestoreStageView::Starting(s@, op@),
        }
    }
}

/// A snapshot being restored.
pub struct Restoring<S> {
    snapshot: Snapshot<S>,
    index: usize,
    restored: usize,
    failed: Vec<(EndpointId, String)>,
    stage: RestoreStage<S>,
}

#[verifier::ext_equal]
pub struct RestoringView<V> {
    pub snapshot: SnapshotView<V>,
    pub order: Seq<Seq<char>>,
    pub index: int,
    pub restored: int,
    pub failed: Seq<(Seq<char>, Seq<char>)>,
    pub stage: RestoreStageView<V>,
}

impl<S: View> View for Restoring<S> {
    type V = RestoringView<S::V>;

    closed spec fn view(&self) -> RestoringView<S::V> {
        RestoringView {
            snapshot: self.snapshot@,
            order: self.snapshot.endpoints.ids(),
            index: self.index as int,
            restored: self.restored as int,
            failed: snapshot::failure_views(self.failed@),
            stage: self.stage@,
        }
    }
}

impl<S> Restoring<S> {
    /// The snapshot is in order, and no endpoint is counted twice.
    pub closed spec fn wf(&self) -> bool {
        &&& self.snapshot.endpoints.wf()
        &&& self.index < self.snapshot.endpoints.ids().len()
        &&& self.restored <= self.index
    }
}

/// Where a restore stands after a step.
pub enum RestoreStep<S> {
    More(Restoring<S>),
    Done(Result<RestoreOutcome, IoError>),
}

pub enum RestoreNext<V> {
    More(RestoringView<V>),
    Done(Result<RestoreView, IoErrorView>),
}

impl<S: View> View for RestoreStep<S> {
    type V = RestoreNext<S::V>;

    open spec fn view(&self) -> RestoreNext<S::V> {
        match self {
            RestoreStep::More(o) => RestoreNext::More(o@),
            RestoreStep::Done(Ok(x)) => RestoreNext::Done(Ok(x@)),
            RestoreStep::Done(Err(e)) => RestoreNext::Done(Err(e@)),
        }
    }
}

impl<S> RestoreStep<S> {
    pub open spec fn wf(&self) -> bool {
        self matches RestoreStep::More(o) ==> o.wf()
    }
}

/// State, actions and standing after a step.
pub struct RestoreStepView<V> {
    pub reconciler: ReconcilerView<V>,
    pub actions: Seq<Action>,
    pub next: RestoreNext<V>,
}

impl<V> RestoreStepView<V> {
    pub open spec fn after(self, actions: Seq<Action>) -> RestoreStepView<V> {
        RestoreStepView { actions: actions + self.actions, ..self }
    }
}

/// Nothing was there to be restored.
pub open spec fn nothing_restored() -> RestoreView {
    RestoreView { generation: None, restored: 0, failed: Seq::empty(), partial: false }
}

/// The restore is through: the generation of the snapshot is in effect, and
/// submissions are accepted.
pub open spec fn restore_done<V>(r: ReconcilerView<V>, o: RestoringView<V>) -> RestoreStepView<V> {
    let partial = o.snapshot.partial || o.failed.len() > 0;
    RestoreStepView {
        reconciler: ReconcilerView { active: Some(o.snapshot.generation), partial, ready: true, ..r },
        actions: Seq::empty(),
        next: RestoreNext::Done(
            Ok(
                RestoreView {
                    generation: Some(o.snapshot.generation),
                    restored: o.restored,
                    failed: o.failed,
                    partial,
                },
            ),
        ),
    }
}

/// Go on to the next endpoint.
pub open spec fn restore_next<V>(r: ReconcilerView<V>, o: RestoringView<V>) -> RestoreStepView<V> {
    if o.index >= o.order.len() {
        restore_done(r, o)
    } else {
        RestoreStepView {
            reconciler: r,
            actions: Seq::empty(),
            next: RestoreNext::More(RestoringView { stage: RestoreStageView::Refreshing, ..o }),
        }
    }
}

/// Begin to restore what was read.
pub open spec fn restore_begun<S: EndpointSource>(
    r: ReconcilerView<S::V>,
    read: FileRead<S>,
) -> RestoreStepView<S::V> {
    let idle = RestoreStepView {
        reconciler: ReconcilerView { ready: true, ..r },
        actions: Seq::empty(),
        next: RestoreNext::Done(Ok(nothing_restored())),
    };
    match r.location {
        None => idle,
        Some(path) => match snapshot::load_error(path, read) {
            Some(e) => RestoreStepView { reconciler: r, actions: Seq::empty(), next: RestoreNext::Done(Err(e)) },
            None => match read {
                FileRead::Parsed(envelope) => restore_next(
                    r,
                    RestoringView {
                        snapshot: envelope.snapshot@,
                        order: crate::idmap::in_order(envelope.snapshot@.endpoints.dom()),
                        index: 0,
                        restored: 0,
                        failed: Seq::empty(),
                        stage: RestoreStageView::Refreshing,
                    },
                ),
                _ => idle,
            },
        },
    }
}

/// An endpoint could not come back.
pub open spec fn restore_failed<V>(
    r: ReconcilerView<V>,
    o: RestoringView<V>,
    error: Seq<char>,
) -> RestoreStepView<V> {
    restore_next(r, RestoringView { index: o.index + 1, failed: o.failed.push((o.order[o.index], error)), ..o })
}

/// Why an operation failed: the error of the first slot that did.
pub open spec fn first_failure(outcomes: Seq<SlotOutcomeView>) -> Option<Seq<char>>
    decreases outcomes.len(),
{
    if outcomes.len() == 0 {
        None
    } else if outcomes[0].action == SlotAction::Failed {
        Some(
            match outcomes[0].error {
                Some(e) => e,
                None => "failed to start"@,
            },
        )
    } else {
        first_failure(outcomes.drop_first())
    }
}

/// An endpoint is through with being started: it is applied unless a slot of it
/// failed.
pub open spec fn restore_applied<V>(
    r: ReconcilerView<V>,
    o: RestoringView<V>,
    spec: V,
    outcomes: Seq<SlotOutcomeView>,
) -> RestoreStepView<V> {
    match first_failure(outcomes) {
        Some(error) => restore_failed(r, o, error),
        None => restore_next(
            ReconcilerView { applied: r.applied.insert(o.order[o.index], spec), ..r },
            RestoringView { index: o.index + 1, restored: o.restored + 1, ..o },
        ),
    }
}

pub open spec fn restore_progress<V>(
    r: ReconcilerView<V>,
    o: RestoringView<V>,
    spec: V,
    p: manager::Progress,
) -> RestoreStepView<V> {
    let r = ReconcilerView { manager: p.manager, ..r };
    (match p.next {
        NextView::More(op) => RestoreStepView {
            reconciler: r,
            actions: Seq::empty(),
            next: RestoreNext::More(RestoringView { stage: RestoreStageView::Starting(spec, op), ..o }),
        },
        NextView::Done(outcomes) => restore_applied(r, o, spec, outcomes),
    }).after(p.actions)
}

/// Go on with a restore. An answer to something that was not asked changes
/// nothing.
pub open spec fn restore_resumed<V>(
    r: ReconcilerView<V>,
    o: RestoringView<V>,
    answer: AnswerView<V>,
) -> RestoreStepView<V> {
    let b = RestoringView { stage: RestoreStageView::Refreshing, ..o };
    match (o.stage, answer) {
        (RestoreStageView::Refreshing, AnswerView::Refreshed(results)) => match reconcile::refresh_result(
            results,
            0,
        ) {
            Ok(spec) => RestoreStepView {
                reconciler: r,
                actions: Seq::empty(),
                next: RestoreNext::More(RestoringView { stage: RestoreStageView::Building(spec), ..o }),
            },
            Err(e) => restore_failed(r, b, e),
        },
        (RestoreStageView::Building(spec), AnswerView::Built(builds)) => match plan::build_result(builds, 0) {
            Ok(built) => RestoreStepView {
                reconciler: r,
                actions: Seq::empty(),
                next: RestoreNext::More(RestoringView { stage: RestoreStageView::Polling(spec, built), ..o }),
            },
            Err(e) => restore_failed(r, b, e),
        },
        (RestoreStageView::Polling(spec, built), AnswerView::Polled(finished)) => restore_progress(
            r,
            b,
            spec,
            manager::apply_begun(r.manager, o.order[o.index], o.snapshot.generation, built, finished),
        ),
        (RestoreStageView::Starting(spec, op), AnswerView::Started(started)) => restore_progress(
            r,
            b,
            spec,
            manager::apply_resumed(r.manager, op, started),
        ),
        _ => RestoreStepView { reconciler: r, actions: Seq::empty(), next: RestoreNext::More(o) },
    }
}

/// What a restore waits for.
pub open spec fn restore_needs<V>(o: RestoringView<V>) -> NeedView<V> {
    match o.stage {
        RestoreStageView::Refreshing => NeedView::Refresh(seq![o.snapshot.endpoints[o.order[o.index]]]),
        RestoreStageView::Building(spec) => NeedView::Build(seq![Some(spec)]),
        RestoreStageView::Polling(_, _) => NeedView::Poll,
        RestoreStageView::Starting(_, op) => NeedView::Start(manager::awaited(op)),
    }
}

// -------------------------------------------------------------- operations --

fn find_failure(outcomes: &Vec<SlotOutcome>) -> (r: Option<String>)
    ensures
        crate::text::opt_text(r) == first_failure(types::outcome_views(outcomes@)),
{
    let ghost v = types::outcome_views(outcomes@);
    let mut i: usize = 0;
    assert(v.skip(0) =~= v);
    while i < outcomes.len()
        invariant
            i <= outcomes@.len(),
            v == types::outcome_views(outcomes@),
            first_failure(v) == first_failure(v.skip(i as int)),
        decreases outcomes@.len() - i,
    {
        let o = &outcomes[i];
        if o.action == SlotAction::Failed {
            return Some(
                match &o.error {
                    Some(e) => e.clone(),
                    None => "failed to start".to_string(),
                },
            );
        }
        assert(v.skip(i as int).drop_first() =~= v.skip(i + 1));
        i = i + 1;
    }
    None
}

impl<S: EndpointSource> Restoring<S> {
    /// What has to be found out before the restore can go on.
    pub fn need(&self) -> (r: Need<S>)
        requires
            self.wf(),
        ensures
            r@ == restore_needs(self@),
    {
        match &self.stage {
            RestoreStage::Refreshing => {
                let mut specs: Vec<S> = Vec::new();
                specs.push(self.snapshot.endpoints.value_at(self.index).duplicate());
                let r = Need::Refresh(specs);
                assert(r@->Refresh_0 =~= restore_needs(self@)->Refresh_0);
                r
            },
            RestoreStage::Building(spec) => {
                let mut specs: Vec<Option<S>> = Vec::new();
                specs.push(Some(spec.duplicate()));
                let r = Need::Build(specs);
                assert(r@->Build_0 =~= restore_needs(self@)->Build_0);
                r
            },
            RestoreStage::Polling(_, _) => Need::Poll,
            RestoreStage::Starting(_, op) => Need::Start(op.awaits()),
        }
    }
}

impl<S: EndpointSource> Reconciler<S> {
    /// Restore what was read of the snapshot and become ready.
    pub fn restore(&mut self, read: FileRead<S>) -> (r: RestoreStep<S>)
        requires
            old(self).wf(),
            read matches FileRead::Parsed(e) ==> e.snapshot.endpoints.wf(),
        ensures
            final(self).wf(),
            r.wf(),
            ({
                let x = restore_begun(old(self)@, read);
                &&& final(self)@ == x.reconciler
                &&& x.actions == Seq::<Action>::empty()
                &&& r@ == x.next
            }),
    {
        let loaded = match self.store() {
            Some(store) => store.load(read),
            None => {
                self.set_ready(true);
                return RestoreStep::Done(Ok(RestoreOutcome::default()));
            },
        };
        match loaded {
            Ok(Some(snapshot)) => {
                proof {
                    crate::idmap::law_order_follows_contents(snapshot.endpoints);
                    assert(snapshot@.endpoints.dom() =~= snapshot.endpoints@.dom());
                }
                let ghost v = RestoringView {
                    snapshot: snapshot@,
                    order: snapshot.endpoints.ids(),
                    index: 0,
                    restored: 0,
                    failed: Seq::empty(),
                    stage: RestoreStageView::Refreshing,
                };
                let failed: Vec<(EndpointId, String)> = Vec::new();
                assert(snapshot::failure_views(failed@) =~= Seq::empty());
                self.next_restore(snapshot, 0, 0, failed, Ghost(v))
            },
            Ok(None) => {
                self.set_ready(true);
                RestoreStep::Done(Ok(RestoreOutcome::default()))
            },
            Err(e) => RestoreStep::Done(Err(e)),
        }
    }

    fn next_restore(
        &mut self,
        snapshot: Snapshot<S>,
        index: usize,
        restored: usize,
        failed: Vec<(EndpointId, String)>,
        o: Ghost<RestoringView<S::V>>,
    ) -> (r: RestoreStep<S>)
        requires
            old(self).wf(),
            snapshot.endpoints.wf(),
            index <= snapshot.endpoints.ids().len(),
            restored <= index,
            o@.snapshot == snapshot@,
            o@.order == snapshot.endpoints.ids(),
            o@.index == index,
            o@.restored == restored,
            o@.failed == snapshot::failure_views(failed@),
        ensures
            final(self).wf(),
            r.wf(),
            ({
                let x = restore_next(old(self)@, o@);
                &&& final(self)@ == x.reconciler
                &&& x.actions == Seq::<Action>::empty()
                &&& r@ == x.next
            }),
    {
        if index < snapshot.endpoints.len() {
            return RestoreStep::More(
                Restoring { snapshot, index, restored, failed, stage: RestoreStage::Refreshing },
            );
        }
        let partial = snapshot.partial || failed.len() > 0;
        self.set_active(snapshot.generation, partial);
        self.set_ready(true);
        RestoreStep::Done(
            Ok(RestoreOutcome { generation: Some(snapshot.generation), restored, failed, partial }),
        )
    }

    /// Go on with a restore, knowing what it asked for.
    pub fn resume_restore(
        &mut self,
        restoring: Restoring<S>,
        answer: Answer<S>,
        actions: &mut Vec<Action>,
    ) -> (r: RestoreStep<S>)
        requires
            old(self).wf(),
            restoring.wf(),
        ensures
            final(self).wf(),
            r.wf(),
            ({
                let x = restore_resumed(old(self)@, restoring@, answer@);
                &&& final(self)@ == x.reconciler
                &&& final(actions)@ == old(actions)@ + x.actions
                &&& r@ == x.next
            }),
    {
        proof {
            reconcile::lemma_no_actions(actions@);
        }
        let Restoring { snapshot, index, restored, failed, stage } = restoring;
        let mut o = Restoring { snapshot, index, restored, failed, stage: RestoreStage::Refreshing };
        match (stage, answer) {
            (RestoreStage::Refreshing, Answer::Refreshed(results)) => {
                if results.len() > 0 {
                    match &results[0] {
                        Ok(spec) => {
                            o.stage = RestoreStage::Building(spec.duplicate());
                            RestoreStep::More(o)
                        },
                        Err(e) => self.fail_restore(o, e.clone()),
                    }
                } else {
                    self.fail_restore(o, "refreshing the endpoint failed: no answer".to_string())
                }
            },
            (RestoreStage::Building(spec), Answer::Built(builds)) => {
                if builds.len() > 0 {
                    match &builds[0] {
                        Ok(built) => {
                            o.stage = RestoreStage::Polling(spec, built.clone());
                            RestoreStep::More(o)
                        },
                        Err(e) => self.fail_restore(o, e.clone()),
                    }
                } else {
                    self.fail_restore(o, "building the endpoint failed: no answer".to_string())
                }
            },
            (RestoreStage::Polling(spec, built), Answer::Polled(finished)) => {
                let id = o.snapshot.endpoints.key_at(o.index).clone();
                let ghost p = manager::apply_begun(
                    self@.manager,
                    id@,
                    o.snapshot.generation,
                    built@,
                    finished@,
                );
                let generation: u64 = o.snapshot.generation;
                let next = self.manager_mut().apply(id, generation, built, &finished, actions);
                proof {
                    reconcile::lemma_no_actions(p.actions);
                }
                self.step_restore_op(o, spec, next)
            },
            (RestoreStage::Starting(spec, op), Answer::Started(started)) => {
                let ghost p = manager::apply_resumed(self@.manager, op@, manager::started_view(started));
                let next = self.manager_mut().resume(op, started, actions);
                proof {
                    reconcile::lemma_no_actions(p.actions);
                }
                self.step_restore_op(o, spec, next)
            },
            (stage, _) => {
                o.stage = stage;
                RestoreStep::More(o)
            },
        }
    }

    fn fail_restore(&mut self, o: Restoring<S>, error: String) -> (r: RestoreStep<S>)
        requires
            old(self).wf(),
            o.wf(),
        ensures
            final(self).wf(),
            r.wf(),
            ({
                let x = restore_failed(old(self)@, o@, error@);
                &&& final(self)@ == x.reconciler
                &&& x.actions == Seq::<Action>::empty()
                &&& r@ == x.next
            }),
    {
        let ghost v = o@;
        let Restoring { snapshot, index, restored, failed, .. } = o;
        let mut failed = failed;
        let ghost before = failed@;
        let id = snapshot.endpoints.key_at(index).clone();
        let ghost next = RestoringView { index: v.index + 1, failed: v.failed.push((id@, error@)), ..v };
        failed.push((id, error));
        assert(snapshot::failure_views(failed@) =~= snapshot::failure_views(before).push((id@, error@)));
        self.next_restore(snapshot, index + 1, restored, failed, Ghost(next))
    }

    fn step_restore_op(&mut self, o: Restoring<S>, spec: S, next: Next) -> (r: RestoreStep<S>)
        requires
            old(self).wf(),
            o.wf(),
        ensures
            final(self).wf(),
            r.wf(),
            ({
                let x = restore_progress(
                    old(self)@,
                    o@,
                    spec@,
                    manager::Progress { manager: old(self)@.manager, actions: Seq::empty(), next: next@ },
                );
                &&& final(self)@ == x.reconciler
                &&& x.actions == Seq::<Action>::empty()
                &&& r@ == x.next
            }),
    {
        proof {
            reconcile::lemma_no_actions(Seq::empty());
        }
        match next {
            Next::More(op) => {
                let mut o = o;
                o.stage = RestoreStage::Starting(spec, op);
                RestoreStep::More(o)
            },
            Next::Done(outcomes) => match find_failure(&outcomes) {
                Some(error) => self.fail_restore(o, error),
                None => {
                    let ghost v = o@;
                    let Restoring { snapshot, index, restored, failed, .. } = o;
                    let id = snapshot.endpoints.key_at(index).clone();
                    self.adopt(id, spec);
                    let ghost after = RestoringView { index: v.index + 1, restored: v.restored + 1, ..v };
                    self.next_restore(snapshot, index + 1, restored + 1, failed, Ghost(after))
                },
            },
        }
    }
}

} // verus!
