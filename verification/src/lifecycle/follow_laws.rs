//! What becomes of one protocol of one endpoint that a generation applies.

use vstd::prelude::*;

use crate::lifecycle::manager;
use crate::lifecycle::manager::{
    Action, Active, ApplyOpView, Bound, ManagerView, NextView, Progress, Route, SlotView, StageView,
};
use crate::lifecycle::manager_laws;
use crate::lifecycle::plan;
use crate::lifecycle::plan::{DesiredView, EndpointSource, HandoverView, PlanView};
use crate::lifecycle::reconcile;
use crate::lifecycle::reconcile::{
    AnswerView, ApplyStageView, ApplyingView, ErrorView, PendingView, ReconcilerView, ResultView, StepNext, StepView,
};
use crate::lifecycle::reconcile_laws;
use crate::lifecycle::run_laws;
use crate::lifecycle::success_laws;
use crate::lifecycle::types;
use crate::lifecycle::types::{EndpointSpecView, Generation, Proto, SlotAction, SlotOutcomeView, TaskId};

verus! {

// ----------------------------------------------------------------- manager --

/// What one protocol of an endpoint and its listener are in for.
pub struct Fate {
    pub id: Seq<char>,
    pub proto: Proto,
    pub spec: EndpointSpecView,
    /// the listener that serves it
    pub listener: Active,
    /// whether it stays as it is; otherwise it is to be updated
    pub stays: bool,
}

impl Fate {
    /// What is reported of it.
    pub open spec fn action(self) -> SlotAction {
        if self.stays {
            SlotAction::Unchanged
        } else {
            SlotAction::Updated
        }
    }

    pub open spec fn outcome(self) -> SlotOutcomeView {
        types::ok_outcome(self.proto, self.action())
    }

    pub open spec fn result(self) -> ResultView {
        ResultView { id: self.id, proto: self.proto, action: self.action(), error: None, retryable: None }
    }

    /// It is asked for, and served by the listener: as described if it stays, and
    /// otherwise if not.
    pub open spec fn due(self, m: ManagerView) -> bool {
        &&& self.spec.wants(self.proto)
        &&& m.slot(self.id, self.proto) matches Some(s) && s.active == Some(self.listener) && manager::serves(
            s,
            self.spec,
            manager::drain_for(m, self.spec),
        ) == self.stays
    }
}

/// An operation on the endpoint.
pub open spec fn underway(m: ManagerView, op: ApplyOpView, f: Fate) -> bool {
    let busy = manager_laws::busy_with(op);
    &&& m.entries.dom().contains(op.id)
    &&& op.id == f.id
    &&& op.spec == f.spec
    &&& op.drain == manager::drain_for(m, op.spec)
    &&& f.spec.wants(f.proto)
    &&& if busy == f.proto {
        !f.stays && (op.stage matches StageView::Starting { route, .. } && !(route is Fresh))
    } else if busy == Proto::Udp {
        op.outcomes.contains(f.outcome()) && (f.stays ==> f.due(m))
    } else {
        f.due(m)
    }
}

/// A step of such an operation.
pub open spec fn comes_about(p: Progress, f: Fate) -> bool {
    match p.next {
        NextView::More(op) => underway(p.manager, op, f),
        NextView::Done(outcomes) => outcomes.contains(f.outcome()) && (f.stays ==> f.due(p.manager)),
    }
}

proof fn lemma_still_contains(outcomes: Seq<SlotOutcomeView>, o: SlotOutcomeView, more: SlotOutcomeView)
    ensures
        outcomes.contains(o) ==> outcomes.push(more).contains(o),
        outcomes.push(o).contains(o),
{
    if outcomes.contains(o) {
        let i = outcomes.index_of(o);
        assert(outcomes.push(more)[i] == o);
    }
    assert(outcomes.push(o)[outcomes.len() as int] == o);
}

proof fn lemma_enter_other(m: ManagerView, op: ApplyOpView, q: Proto, f: Fate)
    requires
        m.entries.dom().contains(op.id),
        op.id == f.id,
        q != f.proto,
    ensures
        ({
            let t = manager::enter_slot(m, op, q);
            &&& t.manager.entries.dom().contains(op.id)
            &&& t.manager.slot(f.id, f.proto) == m.slot(f.id, f.proto)
            &&& t.manager.policy == m.policy
            &&& t.op.id == op.id && t.op.spec == op.spec && t.op.drain == op.drain
            &&& op.outcomes.contains(f.outcome()) ==> t.op.outcomes.contains(f.outcome())
            &&& t.waiting ==> manager_laws::busy_with(t.op) == q
        }),
{
    lemma_still_contains(op.outcomes, f.outcome(), types::ok_outcome(q, SlotAction::Unchanged));
    lemma_still_contains(op.outcomes, f.outcome(), types::ok_outcome(q, SlotAction::Deleted));
}

proof fn lemma_enter_own(m: ManagerView, op: ApplyOpView, f: Fate)
    requires
        m.entries.dom().contains(op.id),
        op.drain == manager::drain_for(m, op.spec),
        op.id == f.id,
        op.spec == f.spec,
        f.due(m),
    ensures
        ({
            let t = manager::enter_slot(m, op, f.proto);
            &&& t.manager.entries.dom().contains(op.id)
            &&& t.manager.policy == m.policy
            &&& t.op.id == op.id && t.op.spec == op.spec && t.op.drain == op.drain
            &&& t.waiting == !f.stays
            &&& f.stays ==> f.due(t.manager) && t.op.outcomes.contains(f.outcome())
            &&& !f.stays ==> underway(t.manager, t.op, f)
        }),
{
    lemma_still_contains(op.outcomes, f.outcome(), f.outcome());
}

proof fn lemma_finish(m: ManagerView, op: ApplyOpView, f: Fate)
    requires
        m.entries.dom().contains(op.id),
        op.id == f.id,
        op.outcomes.contains(f.outcome()),
        f.stays ==> f.due(m),
    ensures
        comes_about(manager::finish(m, op), f),
{
}

/// Tcp is through.
proof fn lemma_after_tcp(m: ManagerView, op: ApplyOpView, f: Fate)
    requires
        m.entries.dom().contains(op.id),
        op.drain == manager::drain_for(m, op.spec),
        op.id == f.id,
        op.spec == f.spec,
        f.spec.wants(f.proto),
        f.proto == Proto::Tcp ==> op.outcomes.contains(f.outcome()) && (f.stays ==> f.due(m)),
        f.proto == Proto::Udp ==> f.due(m),
    ensures
        comes_about(manager::run_udp(m, op), f),
{
    let t = manager::enter_slot(m, op, Proto::Udp);
    if f.proto == Proto::Tcp {
        lemma_enter_other(m, op, Proto::Udp, f);
    } else {
        lemma_enter_own(m, op, f);
    }
    if !t.waiting {
        lemma_finish(t.manager, t.op, f);
    }
}

proof fn lemma_begun(m: ManagerView, generation: Generation, finished: Seq<TaskId>, f: Fate)
    requires
        f.due(m),
        !finished.contains(f.listener.task),
    ensures
        comes_about(manager::apply_begun(m, f.id, generation, f.spec, finished), f),
{
    let r = manager::refreshed(m, finished);
    success_laws::lemma_refresh_spares(m, f.id, f.proto, finished);
    assert(f.spec.tcp || f.spec.udp);
    let drain = match f.spec.drain {
        Some(d) => d,
        None => r.policy,
    };
    let op = ApplyOpView {
        id: f.id,
        generation,
        spec: f.spec,
        drain,
        stage: StageView::Starting { proto: Proto::Tcp, route: Route::Fresh },
        outcomes: Seq::empty(),
    };
    let e = manager::enrolled(r, f.id, drain);
    assert(e.slot(f.id, f.proto) == r.slot(f.id, f.proto));
    assert(f.due(e));
    let t = manager::enter_slot(e, op, Proto::Tcp);
    if f.proto == Proto::Tcp {
        lemma_enter_own(e, op, f);
    } else {
        lemma_enter_other(e, op, Proto::Tcp, f);
    }
    if !t.waiting {
        lemma_after_tcp(t.manager, t.op, f);
    }
}

proof fn lemma_settled(
    m: ManagerView,
    op: ApplyOpView,
    s: SlotView,
    o: SlotOutcomeView,
    actions: Seq<Action>,
    f: Fate,
)
    requires
        underway(m, op, f),
        manager_laws::busy_with(op) == f.proto ==> o == f.outcome(),
    ensures
        comes_about(manager::settle(m, op, manager_laws::busy_with(op), s, o, actions), f),
{
    let busy = manager_laws::busy_with(op);
    let n = m.with_slot(op.id, busy, Some(s));
    let next = ApplyOpView { outcomes: op.outcomes.push(o), ..op };
    lemma_still_contains(op.outcomes, f.outcome(), o);
    assert(busy != f.proto ==> n.slot(f.id, f.proto) == m.slot(f.id, f.proto));
    match busy {
        Proto::Tcp => lemma_after_tcp(n, next, f),
        Proto::Udp => lemma_finish(n, next, f),
    }
}

#[verifier::rlimit(30)]
proof fn lemma_resumed(m: ManagerView, op: ApplyOpView, started: Result<Bound, Seq<char>>, f: Fate)
    requires
        underway(m, op, f),
        f.stays || started is Ok,
    ensures
        comes_about(manager::apply_resumed(m, op, started), f),
{
    let busy = manager_laws::busy_with(op);
    assert forall|s: SlotView, o: SlotOutcomeView, actions: Seq<Action>|
        busy == f.proto ==> o == f.outcome() implies comes_about(
        #[trigger] manager::settle(m, op, busy, s, o, actions),
        f,
    ) by {
        lemma_settled(m, op, s, o, actions, f);
    }
    if busy != f.proto {
        assert forall|o: SlotOutcomeView| comes_about(
            #[trigger] manager::run_after(m, ApplyOpView { outcomes: op.outcomes.push(o), ..op }, busy),
            f,
        ) by {
            let next = ApplyOpView { outcomes: op.outcomes.push(o), ..op };
            lemma_still_contains(op.outcomes, f.outcome(), o);
            match busy {
                Proto::Tcp => lemma_after_tcp(m, next, f),
                Proto::Udp => lemma_finish(m, next, f),
            }
        }
    }
}

// ----------------------------------------------------------------- results --

/// A result is among those of a step.
pub open spec fn tells<V>(x: StepView<V>, res: ResultView) -> bool {
    match x.next {
        StepNext::More(PendingView::Applying(b)) => b.results.contains(res),
        StepNext::Applied(response) => response.results.contains(res),
        _ => false,
    }
}

proof fn lemma_sum_contains(a: Seq<ResultView>, b: Seq<ResultView>, res: ResultView)
    ensures
        a.contains(res) || b.contains(res) ==> (a + b).contains(res),
{
    if a.contains(res) {
        let i = a.index_of(res);
        assert((a + b)[i] == res);
    } else if b.contains(res) {
        let i = b.index_of(res);
        assert((a + b)[a.len() + i] == res);
    }
}

proof fn lemma_skip_tells<V>(m: ManagerView, applied: Map<Seq<char>, V>, a: ApplyingView<V>, res: ResultView)
    requires
        a.results.contains(res),
    ensures
        reconcile::skip(m, applied, a).results.contains(res),
    decreases a.order.len() - a.index,
{
    if 0 <= a.index < a.order.len() {
        let id = a.order[a.index];
        match a.plans[id] {
            PlanView::Unchanged => {
                let more = reconcile::unchanged_results(m, id);
                lemma_sum_contains(a.results, more, res);
                lemma_skip_tells(m, applied, ApplyingView { index: a.index + 1, results: a.results + more, ..a }, res);
            },
            PlanView::Invalid { error } => {
                let more = reconcile::invalid_results(m, id, error);
                lemma_sum_contains(a.results, more, res);
                lemma_skip_tells(
                    m,
                    applied,
                    ApplyingView {
                        index: a.index + 1,
                        desired: reconcile::kept(m, applied, a.desired, id),
                        results: a.results + more,
                        ..a
                    },
                    res,
                );
            },
            _ => {},
        }
    }
}

proof fn lemma_proceed_tells<V>(r: ReconcilerView<V>, a: ApplyingView<V>, res: ResultView)
    requires
        a.results.contains(res),
    ensures
        tells(reconcile::proceed(r, a), res),
{
    lemma_skip_tells(r.manager, r.applied, a, res);
}

proof fn lemma_given_up_tells<V>(r: ReconcilerView<V>, a: ApplyingView<V>, res: ResultView)
    requires
        a.results.contains(res),
    ensures
        tells(reconcile::given_up(r, a), res),
{
    let id = reconcile::current(a);
    let desired = if reconcile::is_served(r.manager, id) {
        if r.applied.dom().contains(id) {
            a.desired.insert(id, r.applied[id])
        } else {
            a.desired
        }
    } else {
        a.desired.remove(id)
    };
    lemma_proceed_tells(r, ApplyingView { index: a.index + 1, desired, ..a }, res);
}

proof fn lemma_progress_tells<V>(r: ReconcilerView<V>, a: ApplyingView<V>, p: Progress, res: ResultView)
    requires
        a.results.contains(res),
        res.action != SlotAction::Failed,
    ensures
        tells(reconcile::applying_progress(r, a, p), res),
        tells(reconcile::restoring_progress(r, a, p), res),
{
    let n = ReconcilerView { manager: p.manager, ..r };
    if let NextView::Done(outcomes) = p.next {
        let id = reconcile::current(a);
        let more = reconcile::outcome_results(id, outcomes);
        lemma_sum_contains(a.results, more, res);
        let b = ApplyingView { results: a.results + more, ..a };
        lemma_proceed_tells(n, ApplyingView { index: b.index + 1, ..b }, res);
        lemma_given_up_tells(n, b, res);
        lemma_given_up_tells(n, a, res);
        let noted = reconcile::noted(a.results, id, outcomes);
        let i = a.results.index_of(res);
        assert(noted[i] == res);
        lemma_given_up_tells(n, ApplyingView { results: noted, ..a }, res);
    }
}

/// What was reported as done stays reported as it is.
pub proof fn law_reported_stays_reported<V>(
    r: ReconcilerView<V>,
    a: ApplyingView<V>,
    answer: AnswerView<V>,
    res: ResultView,
)
    requires
        a.results.contains(res),
        res.action != SlotAction::Failed,
    ensures
        tells(reconcile::applying_resumed(r, a, answer), res),
{
    let id = reconcile::current(a);
    let b = ApplyingView { stage: ApplyStageView::Polling, ..a };
    match (a.stage, answer) {
        (ApplyStageView::Polling, AnswerView::Polled(finished)) => match a.plans[id] {
            PlanView::Start { built } => {
                lemma_progress_tells(r, b, manager::apply_begun(r.manager, id, a.generation, built, finished), res);
            },
            PlanView::Replace { built } => {
                lemma_progress_tells(r, b, manager::apply_begun(r.manager, id, a.generation, built, finished), res);
            },
            PlanView::Delete => {
                let x = manager::removed(r.manager, id, finished);
                let more = reconcile::outcome_results(id, x.outcomes);
                lemma_sum_contains(a.results, more, res);
                lemma_proceed_tells(
                    ReconcilerView { manager: x.manager, ..r },
                    ApplyingView {
                        index: a.index + 1,
                        desired: a.desired.remove(id),
                        results: a.results + more,
                        ..b
                    },
                    res,
                );
            },
            _ => lemma_proceed_tells(r, b, res),
        },
        (ApplyStageView::Starting(op), AnswerView::Started(started)) => {
            lemma_progress_tells(r, b, manager::apply_resumed(r.manager, op, started), res);
        },
        (ApplyStageView::Rebuilding, AnswerView::Built(builds)) => lemma_given_up_tells(r, b, res),
        (ApplyStageView::Repolling(built), AnswerView::Polled(finished)) => {
            lemma_progress_tells(r, b, manager::apply_begun(r.manager, id, a.generation, built, finished), res);
        },
        (ApplyStageView::Restarting(op), AnswerView::Started(started)) => {
            lemma_progress_tells(r, b, manager::apply_resumed(r.manager, op, started), res);
        },
        _ => {},
    }
}

// -------------------------------------------------------------------- steps --

/// The listener does not end on its own, as long as that matters, and if the
/// endpoint is to be updated what is asked for can be started.
pub open spec fn lets<V>(m: ManagerView, answer: AnswerView<V>, f: Fate) -> bool {
    match answer {
        AnswerView::Polled(finished) => f.stays || f.due(m) ==> !finished.contains(f.listener.task),
        AnswerView::Started(started) => f.stays || started is Ok,
        _ => true,
    }
}

/// Every answer of a run does, in its turn.
pub open spec fn let_run<V>(x: StepView<V>, answers: Seq<AnswerView<V>>, f: Fate) -> bool
    decreases answers.len(),
{
    answers.len() > 0 ==> match x.next {
        StepNext::More(PendingView::Applying(a)) => lets(x.reconciler.manager, answers[0], f) && let_run(
            run_laws::answered(x.reconciler, a, answers[0]),
            answers.drop_first(),
            f,
        ),
        _ => true,
    }
}

/// No answer says that the listener ended.
pub open spec fn never_ends<V>(answers: Seq<AnswerView<V>>, task: TaskId) -> bool {
    forall|i: int|
        0 <= i < answers.len() ==> ((#[trigger] answers[i]) matches AnswerView::Polled(finished) ==> !finished.contains(
            task,
        ))
}

proof fn lemma_never_ends_lets<V>(x: StepView<V>, answers: Seq<AnswerView<V>>, f: Fate)
    requires
        f.stays,
        never_ends(answers, f.listener.task),
    ensures
        let_run(x, answers, f),
    decreases answers.len(),
{
    reveal(run_laws::answered);
    if answers.len() > 0 {
        assert(answers[0] matches AnswerView::Polled(finished) ==> !finished.contains(f.listener.task));
        if let StepNext::More(PendingView::Applying(a)) = x.next {
            let rest = answers.drop_first();
            assert forall|i: int| 0 <= i < rest.len() implies ((#[trigger] rest[i]) matches AnswerView::Polled(finished)
                ==> !finished.contains(f.listener.task)) by {
                assert(rest[i] == answers[i + 1]);
            }
            lemma_never_ends_lets(reconcile::applying_resumed(x.reconciler, a, answers[0]), rest, f);
        }
    }
}

proof fn lemma_calm_lets<V>(x: StepView<V>, answers: Seq<AnswerView<V>>, f: Fate)
    requires
        !f.stays,
        success_laws::calm_run(x, answers),
    ensures
        let_run(x, answers, f),
    decreases answers.len(),
{
    reveal(run_laws::answered);
    if answers.len() > 0 {
        if let StepNext::More(PendingView::Applying(a)) = x.next {
            let m = x.reconciler.manager;
            if let AnswerView::Polled(finished) = answers[0] {
                assert(success_laws::spared(m, f.id, f.proto, finished));
            }
            lemma_calm_lets(
                reconcile::applying_resumed(x.reconciler, a, answers[0]),
                answers.drop_first(),
                f,
            );
        }
    }
}

/// The endpoint in a generation being applied: still due, underway, or through.
pub open spec fn followed<V>(r: ReconcilerView<V>, a: ApplyingView<V>, f: Fate) -> bool {
    let at = a.order.index_of(f.id);
    &&& run_laws::coherent(r, a)
    &&& a.order.contains(f.id)
    &&& a.plans[f.id].target() == Some(f.spec)
    &&& f.spec.wants(f.proto)
    &&& if a.index < at {
        f.due(r.manager)
    } else if a.index == at {
        match a.stage {
            ApplyStageView::Polling => f.due(r.manager),
            ApplyStageView::Starting(op) => underway(r.manager, op, f) && (!f.stays ==> success_laws::well_underway(
                r.manager,
                op,
            )),
            _ => false,
        }
    } else {
        a.results.contains(f.result()) && (f.stays ==> r.manager.active(f.id, f.proto) == Some(f.listener))
    }
}

/// Where a step leads to.
pub open spec fn step_follows<V>(a: ApplyingView<V>, x: StepView<V>, f: Fate) -> bool {
    match x.next {
        StepNext::More(PendingView::Applying(b)) => followed(x.reconciler, b, f) && run_laws::same_run(a, b),
        StepNext::Applied(response) => {
            &&& response.results.contains(f.result())
            &&& f.stays ==> x.reconciler.manager.active(f.id, f.proto) == Some(f.listener)
        },
        _ => false,
    }
}

proof fn lemma_moves_on<V>(r: ReconcilerView<V>, a: ApplyingView<V>)
    requires
        0 <= a.index <= a.order.len(),
        crate::idmap::strictly_sorted(a.order),
    ensures
        reconcile::proceed(r, a).next matches StepNext::More(PendingView::Applying(b)) ==> b.stage is Polling
            && a.index <= b.index,
{
    run_laws::lemma_skip(r.manager, r.applied, a);
}

/// A step that goes on to another endpoint asks first which tasks have ended.
spec fn polls_next<V>(x: StepView<V>, index: int) -> bool {
    x.next matches StepNext::More(PendingView::Applying(b)) ==> b.index != index ==> b.stage is Polling
}

proof fn lemma_proceed_polls<V>(r: ReconcilerView<V>, a: ApplyingView<V>, index: int)
    ensures
        polls_next(reconcile::proceed(r, a), index),
{
}

proof fn lemma_given_up_polls<V>(r: ReconcilerView<V>, a: ApplyingView<V>, index: int)
    ensures
        polls_next(reconcile::given_up(r, a), index),
{
    let id = reconcile::current(a);
    let desired = if reconcile::is_served(r.manager, id) {
        if r.applied.dom().contains(id) {
            a.desired.insert(id, r.applied[id])
        } else {
            a.desired
        }
    } else {
        a.desired.remove(id)
    };
    lemma_proceed_polls(r, ApplyingView { index: a.index + 1, desired, ..a }, index);
}

proof fn lemma_progress_polls<V>(r: ReconcilerView<V>, a: ApplyingView<V>, p: Progress)
    ensures
        polls_next(reconcile::applying_progress(r, a, p), a.index),
        polls_next(reconcile::restoring_progress(r, a, p), a.index),
{
    let n = ReconcilerView { manager: p.manager, ..r };
    if let NextView::Done(outcomes) = p.next {
        let id = reconcile::current(a);
        let b = ApplyingView { results: a.results + reconcile::outcome_results(id, outcomes), ..a };
        lemma_proceed_polls(n, ApplyingView { index: b.index + 1, ..b }, a.index);
        lemma_given_up_polls(n, b, a.index);
        lemma_given_up_polls(n, a, a.index);
        lemma_given_up_polls(n, ApplyingView { results: reconcile::noted(a.results, id, outcomes), ..a }, a.index);
    }
}

proof fn lemma_next_is_polled<V>(r: ReconcilerView<V>, a: ApplyingView<V>, answer: AnswerView<V>)
    ensures
        polls_next(reconcile::applying_resumed(r, a, answer), a.index),
{
    let id = reconcile::current(a);
    let b = ApplyingView { stage: ApplyStageView::Polling, ..a };
    match (a.stage, answer) {
        (ApplyStageView::Polling, AnswerView::Polled(finished)) => match a.plans[id] {
            PlanView::Start { built } => {
                lemma_progress_polls(r, b, manager::apply_begun(r.manager, id, a.generation, built, finished));
            },
            PlanView::Replace { built } => {
                lemma_progress_polls(r, b, manager::apply_begun(r.manager, id, a.generation, built, finished));
            },
            PlanView::Delete => {
                let x = manager::removed(r.manager, id, finished);
                lemma_proceed_polls(
                    ReconcilerView { manager: x.manager, ..r },
                    ApplyingView {
                        index: a.index + 1,
                        desired: a.desired.remove(id),
                        results: a.results + reconcile::outcome_results(id, x.outcomes),
                        ..b
                    },
                    a.index,
                );
            },
            _ => lemma_proceed_polls(r, b, a.index),
        },
        (ApplyStageView::Starting(op), AnswerView::Started(started)) => {
            lemma_progress_polls(r, b, manager::apply_resumed(r.manager, op, started));
        },
        (ApplyStageView::Rebuilding, AnswerView::Built(builds)) => lemma_given_up_polls(r, b, a.index),
        (ApplyStageView::Repolling(built), AnswerView::Polled(finished)) => {
            lemma_progress_polls(r, b, manager::apply_begun(r.manager, id, a.generation, built, finished));
        },
        (ApplyStageView::Restarting(op), AnswerView::Started(started)) => {
            lemma_progress_polls(r, b, manager::apply_resumed(r.manager, op, started));
        },
        _ => {},
    }
}

/// The endpoint is through.
#[verifier::rlimit(30)]
proof fn lemma_through<V>(
    r: ReconcilerView<V>,
    a: ApplyingView<V>,
    p: Progress,
    outcomes: Seq<SlotOutcomeView>,
    f: Fate,
)
    requires
        run_laws::coherent(r, a),
        a.stage is Polling,
        a.order.contains(f.id),
        a.index == a.order.index_of(f.id),
        a.plans[f.id].target() == Some(f.spec),
        f.spec.wants(f.proto),
        p.next == NextView::Done(outcomes),
        comes_about(p, f),
        f.stays || !reconcile::any_failed(outcomes),
    ensures
        step_follows(a, reconcile::applying_progress(r, a, p), f),
{
    let n = ReconcilerView { manager: p.manager, ..r };
    let more = reconcile::outcome_results(f.id, outcomes);
    let i = outcomes.index_of(f.outcome());
    assert(more[i] == f.result());
    assert(more.contains(f.result()));
    lemma_sum_contains(a.results, more, f.result());
    let b = ApplyingView { results: a.results + more, ..a };
    let c = ApplyingView { index: b.index + 1, ..b };
    lemma_proceed_tells(n, c, f.result());
    lemma_given_up_tells(n, b, f.result());
    run_laws::lemma_proceed(n, c);
    let desired = if n.applied.dom().contains(f.id) {
        b.desired.insert(f.id, n.applied[f.id])
    } else {
        b.desired
    };
    run_laws::lemma_proceed(n, ApplyingView { index: b.index + 1, desired, ..b });
    if f.stays {
        assert(n.manager.serving(f.id, f.proto) is Some);
        assert(reconcile::is_served(n.manager, f.id));
    }
}

/// A step of the endpoint's own operation.
#[verifier::rlimit(30)]
proof fn lemma_own_progress<V>(r: ReconcilerView<V>, a: ApplyingView<V>, p: Progress, f: Fate)
    requires
        run_laws::coherent(r, a),
        a.stage is Polling,
        a.order.contains(f.id),
        a.index == a.order.index_of(f.id),
        a.plans[f.id].target() == Some(f.spec),
        f.spec.wants(f.proto),
        comes_about(p, f),
        f.stays || success_laws::goes_well(p, f.id, f.spec),
    ensures
        step_follows(a, reconcile::applying_progress(r, a, p), f),
{
    assert(a.order[a.index] == f.id);
    match p.next {
        NextView::Done(outcomes) => lemma_through(r, a, p, outcomes, f),
        NextView::More(op) => {
            let b = ApplyingView { stage: ApplyStageView::Starting(op), ..a };
            let n = ReconcilerView { manager: p.manager, ..r };
            assert(run_laws::coherent(n, b));
            assert(followed(n, b, f));
        },
    }
}

#[verifier::rlimit(30)]
proof fn lemma_own_step<V>(r: ReconcilerView<V>, a: ApplyingView<V>, answer: AnswerView<V>, f: Fate)
    requires
        followed(r, a, f),
        a.index == a.order.index_of(f.id),
        lets(r.manager, answer, f),
    ensures
        step_follows(a, reconcile::applying_resumed(r, a, answer), f),
{
    let b = ApplyingView { stage: ApplyStageView::Polling, ..a };
    let x = reconcile::applying_resumed(r, a, answer);
    assert(a.order[a.index] == f.id);
    match (a.stage, answer) {
        (ApplyStageView::Polling, AnswerView::Polled(finished)) => {
            let p = manager::apply_begun(r.manager, f.id, a.generation, f.spec, finished);
            lemma_begun(r.manager, a.generation, finished, f);
            success_laws::law_begun_goes_well(r.manager, f.id, a.generation, f.spec, finished);
            lemma_own_progress(r, b, p, f);
            assert(x == reconcile::applying_progress(r, b, p));
        },
        (ApplyStageView::Starting(op), AnswerView::Started(started)) => {
            let p = manager::apply_resumed(r.manager, op, started);
            lemma_resumed(r.manager, op, started, f);
            if !f.stays {
                success_laws::law_started_goes_well(r.manager, op, started->Ok_0);
            }
            lemma_own_progress(r, b, p, f);
            assert(x == reconcile::applying_progress(r, b, p));
        },
        _ => {
            assert(x == reconcile::unmoved(r, StepNext::More(PendingView::Applying(a))));
        },
    }
}

#[verifier::rlimit(30)]
proof fn lemma_other_step<V>(r: ReconcilerView<V>, a: ApplyingView<V>, answer: AnswerView<V>, f: Fate)
    requires
        followed(r, a, f),
        a.index != a.order.index_of(f.id),
        lets(r.manager, answer, f),
    ensures
        step_follows(a, reconcile::applying_resumed(r, a, answer), f),
{
    let at = a.order.index_of(f.id);
    let x = reconcile::applying_resumed(r, a, answer);
    plan::lemma_distinct(a.order, a.index);
    assert(a.order[at] == f.id);
    assert(f.id != reconcile::current(a));
    run_laws::law_step_touches_one_endpoint(r, a, answer);
    lemma_next_is_polled(r, a, answer);
    if a.index < at {
        success_laws::lemma_step_spares(r, a, answer, f.id, f.proto);
        assert(run_laws::acts(a.plans[a.order[at]]));
        assert(run_laws::reached(a, x) <= at);
    } else {
        law_reported_stays_reported(r, a, answer, f.result());
        if f.stays {
            success_laws::lemma_step_spares(r, a, answer, f.id, f.proto);
        }
    }
}

proof fn lemma_run_follows<V>(a: ApplyingView<V>, x: StepView<V>, answers: Seq<AnswerView<V>>, f: Fate)
    requires
        step_follows(a, x, f),
        let_run(x, answers, f),
    ensures
        step_follows(a, run_laws::run(x, answers), f),
    decreases answers.len(),
{
    reveal(run_laws::answered);
    if answers.len() > 0 {
        if let StepNext::More(PendingView::Applying(b)) = x.next {
            let y = reconcile::applying_resumed(x.reconciler, b, answers[0]);
            if b.index == b.order.index_of(f.id) {
                lemma_own_step(x.reconciler, b, answers[0], f);
            } else {
                lemma_other_step(x.reconciler, b, answers[0], f);
            }
            assert(step_follows(a, y, f));
            lemma_run_follows(a, y, answers.drop_first(), f);
        }
    }
}

// ---------------------------------------------------------------- beginning --

proof fn lemma_release_keeps_slot(m: ManagerView, hs: Seq<HandoverView>, n: int, id: Seq<char>, proto: Proto)
    requires
        0 <= n <= hs.len(),
        forall|i: int| 0 <= i < hs.len() ==> !((#[trigger] hs[i]).id == id && hs[i].proto == proto),
    ensures
        plan::released(m, hs, n).manager.slot(id, proto) == m.slot(id, proto),
        plan::released(m, hs, n).manager.policy == m.policy,
    decreases n,
{
    if n > 0 {
        lemma_release_keeps_slot(m, hs, n - 1, id, proto);
        let h = hs[n - 1];
        assert(!(h.id == id && h.proto == proto));
    }
}

proof fn lemma_room_keeps_slot(m: ManagerView, plans: Map<Seq<char>, PlanView>, id: Seq<char>, proto: Proto)
    requires
        !plan::handed_over(m, plans, id, proto),
    ensures
        plan::all_released(m, plans).manager.slot(id, proto) == m.slot(id, proto),
        plan::all_released(m, plans).manager.policy == m.policy,
{
    let order = crate::idmap::in_order(plans.dom());
    let hs = plan::handovers(m, plans, order, order.len() as int);
    run_laws::lemma_handovers(m, plans, order, order.len() as int);
    assert forall|i: int| 0 <= i < hs.len() implies !((#[trigger] hs[i]).id == id && hs[i].proto == proto) by {
        assert(plan::handed_over(m, plans, hs[i].id, hs[i].proto));
    }
    lemma_release_keeps_slot(m, hs, hs.len() as int, id, proto);
}

#[verifier::rlimit(30)]
proof fn lemma_planned_follows<V>(
    r: ReconcilerView<V>,
    generation: Generation,
    submitted: Seq<DesiredView<V>>,
    endpoints: Seq<DesiredView<V>>,
    unref: Map<Seq<char>, Seq<char>>,
    builds: Seq<Result<EndpointSpecView, Seq<char>>>,
    f: Fate,
)
    requires
        r.manager.entries.dom().finite(),
        f.due(r.manager),
        ({
            let plans = reconcile::final_plans(r, endpoints, unref, builds);
            &&& plans.dom().contains(f.id)
            &&& plans[f.id].target() == Some(f.spec)
            &&& !plan::handed_over(r.manager, plans, f.id, f.proto)
        }),
    ensures
        ({
            let plans = reconcile::final_plans(r, endpoints, unref, builds);
            let x = plan::all_released(r.manager, plans);
            let a = run_laws::first_stage(generation, submitted, endpoints, unref, builds, plans, x.released);
            let s = reconcile::planned(r, generation, submitted, endpoints, unref, builds);
            &&& step_follows(a, s, f)
            &&& s.reconciler.manager == x.manager
            &&& s.next matches StepNext::More(PendingView::Applying(b)) && b.stage is Polling && b.index
                <= b.order.index_of(f.id)
        }),
{
    let plans = reconcile::final_plans(r, endpoints, unref, builds);
    let x = plan::all_released(r.manager, plans);
    let a = run_laws::first_stage(generation, submitted, endpoints, unref, builds, plans, x.released);
    let begun = ReconcilerView { manager: x.manager, ..r };
    run_laws::lemma_plans_finite(r, endpoints, unref, builds);
    crate::idmap::lemma_finite_in_order(plans.dom());
    run_laws::lemma_proceed(begun, a);
    lemma_moves_on(begun, a);
    lemma_room_keeps_slot(r.manager, plans, f.id, f.proto);
    assert(a.order.contains(f.id));
    let at = a.order.index_of(f.id);
    assert(a.order[at] == f.id);
    assert(run_laws::acts(a.plans[a.order[at]]));
    assert(run_laws::reached(a, reconcile::proceed(begun, a)) <= at);
}

// ----------------------------------------------------------------- siblings --

/// Some result says this of a protocol of an endpoint.
pub open spec fn told_as(results: Seq<ResultView>, id: Seq<char>, proto: Proto, action: SlotAction) -> bool {
    exists|i: int|
        0 <= i < results.len() && (#[trigger] results[i]).id == id && results[i].proto == proto && results[i].action
            == action
}

/// Among the results of a step is one that says this.
pub open spec fn tells_as<V>(x: StepView<V>, id: Seq<char>, proto: Proto, action: SlotAction) -> bool {
    match x.next {
        StepNext::More(PendingView::Applying(b)) => told_as(b.results, id, proto, action),
        StepNext::Applied(response) => told_as(response.results, id, proto, action),
        _ => false,
    }
}

proof fn lemma_sum_told(a: Seq<ResultView>, b: Seq<ResultView>, id: Seq<char>, proto: Proto, action: SlotAction)
    ensures
        told_as(a, id, proto, action) || told_as(b, id, proto, action) ==> told_as(a + b, id, proto, action),
{
    if told_as(a, id, proto, action) {
        let i = choose|i: int|
            0 <= i < a.len() && (#[trigger] a[i]).id == id && a[i].proto == proto && a[i].action == action;
        assert((a + b)[i] == a[i]);
    } else if told_as(b, id, proto, action) {
        let i = choose|i: int|
            0 <= i < b.len() && (#[trigger] b[i]).id == id && b[i].proto == proto && b[i].action == action;
        assert((a + b)[a.len() + i] == b[i]);
    }
}

proof fn lemma_skip_told<V>(
    m: ManagerView,
    applied: Map<Seq<char>, V>,
    a: ApplyingView<V>,
    id: Seq<char>,
    proto: Proto,
    action: SlotAction,
)
    requires
        told_as(a.results, id, proto, action),
    ensures
        told_as(reconcile::skip(m, applied, a).results, id, proto, action),
    decreases a.order.len() - a.index,
{
    if 0 <= a.index < a.order.len() {
        let k = a.order[a.index];
        match a.plans[k] {
            PlanView::Unchanged => {
                let more = reconcile::unchanged_results(m, k);
                lemma_sum_told(a.results, more, id, proto, action);
                lemma_skip_told(
                    m,
                    applied,
                    ApplyingView { index: a.index + 1, results: a.results + more, ..a },
                    id,
                    proto,
                    action,
                );
            },
            PlanView::Invalid { error } => {
                let more = reconcile::invalid_results(m, k, error);
                lemma_sum_told(a.results, more, id, proto, action);
                lemma_skip_told(
                    m,
                    applied,
                    ApplyingView {
                        index: a.index + 1,
                        desired: reconcile::kept(m, applied, a.desired, k),
                        results: a.results + more,
                        ..a
                    },
                    id,
                    proto,
                    action,
                );
            },
            _ => {},
        }
    }
}

proof fn lemma_proceed_told<V>(
    r: ReconcilerView<V>,
    a: ApplyingView<V>,
    id: Seq<char>,
    proto: Proto,
    action: SlotAction,
)
    requires
        told_as(a.results, id, proto, action),
    ensures
        tells_as(reconcile::proceed(r, a), id, proto, action),
{
    lemma_skip_told(r.manager, r.applied, a, id, proto, action);
}

proof fn lemma_given_up_told<V>(
    r: ReconcilerView<V>,
    a: ApplyingView<V>,
    id: Seq<char>,
    proto: Proto,
    action: SlotAction,
)
    requires
        told_as(a.results, id, proto, action),
    ensures
        tells_as(reconcile::given_up(r, a), id, proto, action),
{
    let k = reconcile::current(a);
    let desired = if reconcile::is_served(r.manager, k) {
        if r.applied.dom().contains(k) {
            a.desired.insert(k, r.applied[k])
        } else {
            a.desired
        }
    } else {
        a.desired.remove(k)
    };
    lemma_proceed_told(r, ApplyingView { index: a.index + 1, desired, ..a }, id, proto, action);
}

proof fn lemma_progress_told<V>(
    r: ReconcilerView<V>,
    a: ApplyingView<V>,
    p: Progress,
    id: Seq<char>,
    proto: Proto,
    action: SlotAction,
)
    requires
        told_as(a.results, id, proto, action),
    ensures
        tells_as(reconcile::applying_progress(r, a, p), id, proto, action),
        tells_as(reconcile::restoring_progress(r, a, p), id, proto, action),
{
    let n = ReconcilerView { manager: p.manager, ..r };
    if let NextView::Done(outcomes) = p.next {
        let k = reconcile::current(a);
        let more = reconcile::outcome_results(k, outcomes);
        lemma_sum_told(a.results, more, id, proto, action);
        let b = ApplyingView { results: a.results + more, ..a };
        lemma_proceed_told(n, ApplyingView { index: b.index + 1, ..b }, id, proto, action);
        lemma_given_up_told(n, b, id, proto, action);
        lemma_given_up_told(n, a, id, proto, action);
        let noted = reconcile::noted(a.results, k, outcomes);
        let i = choose|i: int|
            0 <= i < a.results.len() && (#[trigger] a.results[i]).id == id && a.results[i].proto == proto
                && a.results[i].action == action;
        assert(noted[i].id == id && noted[i].proto == proto && noted[i].action == action);
        lemma_given_up_told(n, ApplyingView { results: noted, ..a }, id, proto, action);
    }
}

/// What was reported of a protocol stays reported, be it a failure.
pub proof fn law_told_stays_told<V>(
    r: ReconcilerView<V>,
    a: ApplyingView<V>,
    answer: AnswerView<V>,
    id: Seq<char>,
    proto: Proto,
    action: SlotAction,
)
    requires
        told_as(a.results, id, proto, action),
    ensures
        tells_as(reconcile::applying_resumed(r, a, answer), id, proto, action),
{
    let k = reconcile::current(a);
    let b = ApplyingView { stage: ApplyStageView::Polling, ..a };
    match (a.stage, answer) {
        (ApplyStageView::Polling, AnswerView::Polled(finished)) => match a.plans[k] {
            PlanView::Start { built } => {
                let p = manager::apply_begun(r.manager, k, a.generation, built, finished);
                lemma_progress_told(r, b, p, id, proto, action);
            },
            PlanView::Replace { built } => {
                let p = manager::apply_begun(r.manager, k, a.generation, built, finished);
                lemma_progress_told(r, b, p, id, proto, action);
            },
            PlanView::Delete => {
                let x = manager::removed(r.manager, k, finished);
                let more = reconcile::outcome_results(k, x.outcomes);
                lemma_sum_told(a.results, more, id, proto, action);
                lemma_proceed_told(
                    ReconcilerView { manager: x.manager, ..r },
                    ApplyingView {
                        index: a.index + 1,
                        desired: a.desired.remove(k),
                        results: a.results + more,
                        ..b
                    },
                    id,
                    proto,
                    action,
                );
            },
            _ => lemma_proceed_told(r, b, id, proto, action),
        },
        (ApplyStageView::Starting(op), AnswerView::Started(started)) => {
            lemma_progress_told(r, b, manager::apply_resumed(r.manager, op, started), id, proto, action);
        },
        (ApplyStageView::Rebuilding, AnswerView::Built(builds)) => lemma_given_up_told(r, b, id, proto, action),
        (ApplyStageView::Repolling(built), AnswerView::Polled(finished)) => {
            let p = manager::apply_begun(r.manager, k, a.generation, built, finished);
            lemma_progress_told(r, b, p, id, proto, action);
        },
        (ApplyStageView::Restarting(op), AnswerView::Started(started)) => {
            lemma_progress_told(r, b, manager::apply_resumed(r.manager, op, started), id, proto, action);
        },
        _ => {},
    }
}

/// The other protocol.
pub open spec fn sibling(proto: Proto) -> Proto {
    match proto {
        Proto::Tcp => Proto::Udp,
        Proto::Udp => Proto::Tcp,
    }
}

/// A listener of an endpoint cannot be started.
pub open spec fn refuses<V>(a: ApplyingView<V>, answer: AnswerView<V>, id: Seq<char>) -> bool {
    reconcile::current(a) == id ==> (answer matches AnswerView::Started(started) ==> started is Err)
}

/// No listener of an endpoint can be started.
pub open spec fn refused_run<V>(x: StepView<V>, answers: Seq<AnswerView<V>>, id: Seq<char>) -> bool
    decreases answers.len(),
{
    answers.len() > 0 ==> match x.next {
        StepNext::More(PendingView::Applying(a)) => refuses(a, answers[0], id) && refused_run(
            run_laws::answered(x.reconciler, a, answers[0]),
            answers.drop_first(),
            id,
        ),
        _ => true,
    }
}

/// A protocol stays as it is while its sibling, which is not served, is tried
/// and fails.
pub open spec fn retried<V>(r: ReconcilerView<V>, a: ApplyingView<V>, f: Fate) -> bool {
    let at = a.order.index_of(f.id);
    &&& followed(r, a, f)
    &&& f.stays
    &&& f.spec.wants(sibling(f.proto))
    &&& if a.index > at {
        told_as(a.results, f.id, sibling(f.proto), SlotAction::Failed)
    } else {
        match a.stage {
            ApplyStageView::Starting(op) if a.index == at => op.stage matches StageView::Starting {
                route: Route::Fresh,
                ..
            },
            _ => r.manager.active(f.id, sibling(f.proto)) is None,
        }
    }
}

pub open spec fn step_retries<V>(x: StepView<V>, f: Fate) -> bool {
    match x.next {
        StepNext::More(PendingView::Applying(b)) => retried(x.reconciler, b, f),
        StepNext::Applied(response) => told_as(response.results, f.id, sibling(f.proto), SlotAction::Failed),
        _ => false,
    }
}

proof fn lemma_sibling_is_asked_for(m: ManagerView, generation: Generation, finished: Seq<TaskId>, f: Fate)
    requires
        f.due(m),
        f.stays,
        f.spec.wants(sibling(f.proto)),
        m.active(f.id, sibling(f.proto)) is None,
        !finished.contains(f.listener.task),
    ensures
        manager::apply_begun(m, f.id, generation, f.spec, finished).next matches NextView::More(op) && op.stage
            matches StageView::Starting { route: Route::Fresh, .. },
{
    let r = manager::refreshed(m, finished);
    let q = sibling(f.proto);
    success_laws::lemma_refresh_spares(m, f.id, f.proto, finished);
    success_laws::lemma_refresh_spares(m, f.id, q, finished);
    let drain = match f.spec.drain {
        Some(d) => d,
        None => r.policy,
    };
    let op = ApplyOpView {
        id: f.id,
        generation,
        spec: f.spec,
        drain,
        stage: StageView::Starting { proto: Proto::Tcp, route: Route::Fresh },
        outcomes: Seq::empty(),
    };
    let e = manager::enrolled(r, f.id, drain);
    assert(e.slot(f.id, f.proto) == r.slot(f.id, f.proto));
    assert(e.slot(f.id, q) == r.slot(f.id, q));
    assert(f.due(e));
    if f.proto == Proto::Tcp {
        lemma_enter_own(e, op, f);
        let t = manager::enter_slot(e, op, Proto::Tcp);
        assert(t.manager.slot(f.id, q) == e.slot(f.id, q));
    }
}

proof fn lemma_sibling_fails(m: ManagerView, op: ApplyOpView, reason: Seq<char>, f: Fate)
    requires
        underway(m, op, f),
        f.stays,
        op.stage matches StageView::Starting { route: Route::Fresh, .. },
    ensures
        manager::apply_resumed(m, op, Err(reason)).next matches NextView::Done(outcomes) && outcomes.contains(
            types::failed_outcome(
                sibling(f.proto),
                manager::bind_error(op.spec.endpoint.laddr, reason),
            ),
        ),
{
    let q = manager_laws::busy_with(op);
    assert(q == sibling(f.proto));
    let error = manager::bind_error(op.spec.endpoint.laddr, reason);
    let o = types::failed_outcome(q, error);
    let s = SlotView {
        state: types::SlotStateView::Failed(error),
        generation: op.generation,
        endpoint: op.spec.endpoint,
        material: op.spec.material,
        drain: op.drain,
        active: None,
        draining: match m.slot(op.id, q) {
            Some(s) => s.draining,
            None => Seq::empty(),
        },
    };
    let n = m.with_slot(op.id, q, Some(s));
    let next = ApplyOpView { outcomes: op.outcomes.push(o), ..op };
    assert(n.slot(f.id, f.proto) == m.slot(f.id, f.proto));
    lemma_still_contains(op.outcomes, o, o);
    if q == Proto::Tcp {
        lemma_enter_own(n, next, f);
        let t = manager::enter_slot(n, next, Proto::Udp);
        lemma_still_contains(next.outcomes, o, f.outcome());
    }
}

#[verifier::rlimit(30)]
proof fn lemma_retried_step<V>(r: ReconcilerView<V>, a: ApplyingView<V>, answer: AnswerView<V>, f: Fate)
    requires
        retried(r, a, f),
        lets(r.manager, answer, f),
        refuses(a, answer, f.id),
    ensures
        step_retries(reconcile::applying_resumed(r, a, answer), f),
{
    let at = a.order.index_of(f.id);
    let q = sibling(f.proto);
    let x = reconcile::applying_resumed(r, a, answer);
    let b = ApplyingView { stage: ApplyStageView::Polling, ..a };
    assert(a.order[at] == f.id);
    if a.index != at {
        lemma_other_step(r, a, answer, f);
        if a.index < at {
            plan::lemma_distinct(a.order, a.index);
            success_laws::lemma_step_spares(r, a, answer, f.id, q);
            run_laws::law_step_touches_one_endpoint(r, a, answer);
            lemma_next_is_polled(r, a, answer);
            assert(run_laws::acts(a.plans[a.order[at]]));
            assert(run_laws::reached(a, x) <= at);
        } else {
            law_told_stays_told(r, a, answer, f.id, q, SlotAction::Failed);
        }
    } else {
        lemma_own_step(r, a, answer, f);
        match (a.stage, answer) {
            (ApplyStageView::Polling, AnswerView::Polled(finished)) => {
                lemma_sibling_is_asked_for(r.manager, a.generation, finished, f);
            },
            (ApplyStageView::Starting(op), AnswerView::Started(started)) => {
                let reason = started->Err_0;
                let p = manager::apply_resumed(r.manager, op, started);
                lemma_sibling_fails(r.manager, op, reason, f);
                lemma_resumed(r.manager, op, started, f);
                let outcomes = p.next->Done_0;
                let o = types::failed_outcome(q, manager::bind_error(op.spec.endpoint.laddr, reason));
                let i = outcomes.index_of(o);
                let more = reconcile::outcome_results(f.id, outcomes);
                assert(more[i].id == f.id && more[i].proto == q && more[i].action == SlotAction::Failed);
                assert(told_as(more, f.id, q, SlotAction::Failed));
                lemma_sum_told(a.results, more, f.id, q, SlotAction::Failed);
                let n = ReconcilerView { manager: p.manager, ..r };
                let c = ApplyingView { results: a.results + more, ..b };
                assert(n.manager.serving(f.id, f.proto) is Some);
                assert(reconcile::is_served(n.manager, f.id));
                assert(outcomes[i].action == SlotAction::Failed);
                lemma_given_up_told(n, c, f.id, q, SlotAction::Failed);
                assert(x.next == reconcile::given_up(n, c).next);
                let desired = if n.applied.dom().contains(f.id) {
                    c.desired.insert(f.id, n.applied[f.id])
                } else {
                    c.desired
                };
                lemma_moves_on(n, ApplyingView { index: c.index + 1, desired, ..c });
            },
            _ => {},
        }
    }
}

proof fn lemma_run_retries<V>(x: StepView<V>, answers: Seq<AnswerView<V>>, f: Fate)
    requires
        step_retries(x, f),
        let_run(x, answers, f),
        refused_run(x, answers, f.id),
    ensures
        step_retries(run_laws::run(x, answers), f),
    decreases answers.len(),
{
    reveal(run_laws::answered);
    if answers.len() > 0 {
        if let StepNext::More(PendingView::Applying(b)) = x.next {
            lemma_retried_step(x.reconciler, b, answers[0], f);
            lemma_run_retries(
                reconcile::applying_resumed(x.reconciler, b, answers[0]),
                answers.drop_first(),
                f,
            );
        }
    }
}

/// A protocol that is served as described while its sibling is not is left alone
/// by a generation that tries the sibling again: it is reported unchanged, and
/// the same listener serves it, whatever comes of the sibling. If the sibling
/// cannot be started it is reported failed.
///
/// The endpoint was applied before, and is not refused for its address.
pub proof fn law_healthy_sibling_is_left_alone<V>(
    r: ReconcilerView<V>,
    generation: Generation,
    submitted: Seq<DesiredView<V>>,
    endpoints: Seq<DesiredView<V>>,
    unref: Map<Seq<char>, Seq<char>>,
    builds: Seq<Result<EndpointSpecView, Seq<char>>>,
    answers: Seq<AnswerView<V>>,
    f: Fate,
)
    requires
        r.manager.entries.dom().finite(),
        plan::occurs(endpoints, f.id),
        !plan::repeated(endpoints, f.id),
        !unref.dom().contains(f.id),
        plan::build_result(builds, plan::first(endpoints, f.id)) == Ok::<EndpointSpecView, Seq<char>>(f.spec),
        r.applied.dom().contains(f.id),
        f.stays,
        f.due(r.manager),
        f.spec.wants(sibling(f.proto)),
        r.manager.active(f.id, sibling(f.proto)) is None,
        !(reconcile::final_plans(r, endpoints, unref, builds)[f.id] is Invalid),
        never_ends(answers, f.listener.task),
    ensures
        ({
            let s = reconcile::planned(r, generation, submitted, endpoints, unref, builds);
            let x = run_laws::run(s, answers);
            &&& x.next matches StepNext::Applied(response) ==> {
                &&& response.results.contains(
                    ResultView {
                        id: f.id,
                        proto: f.proto,
                        action: SlotAction::Unchanged,
                        error: None,
                        retryable: None,
                    },
                )
                &&& x.reconciler.manager.active(f.id, f.proto) == Some(f.listener)
                &&& refused_run(s, answers, f.id) ==> told_as(
                    response.results,
                    f.id,
                    sibling(f.proto),
                    SlotAction::Failed,
                )
            }
            &&& x.next is Applied || x.next is More
        }),
{
    let alone = plan::plans_of(r.manager, r.applied, endpoints, unref, builds);
    let plans = reconcile::final_plans(r, endpoints, unref, builds);
    let q = sibling(f.proto);
    assert(alone.dom().contains(f.id));
    assert(r.manager.serving(f.id, q) is None);
    assert(!plan::all_running(r.manager, f.id, f.spec)) by {
        assert(f.spec.wants(q));
    }
    assert(plans[f.id] == PlanView::Replace { built: f.spec });
    assert(!plan::leaving(r.manager, plans[f.id], f.id)) by {
        assert forall|proto: Proto| !(#[trigger] r.manager.serving(f.id, proto) matches Some(e) && (e.laddr
            != f.spec.endpoint.laddr || !f.spec.wants(proto))) by {
            assert(proto == f.proto || proto == q);
        }
    }
    lemma_planned_follows(r, generation, submitted, endpoints, unref, builds, f);
    let y = plan::all_released(r.manager, plans);
    let a = run_laws::first_stage(generation, submitted, endpoints, unref, builds, plans, y.released);
    let s = reconcile::planned(r, generation, submitted, endpoints, unref, builds);
    lemma_never_ends_lets(s, answers, f);
    lemma_run_follows(a, s, answers, f);
    if refused_run(s, answers, f.id) {
        lemma_room_keeps_slot(r.manager, plans, f.id, q);
        assert(step_retries(s, f));
        lemma_run_retries(s, answers, f);
    }
}

// ----------------------------------------------------------------- rotation --

/// An endpoint whose protocols are all served, by a rule that listens where the
/// new one is to, but is otherwise not the new one: in the rule itself, in its
/// material or in its drain deadlines.
pub open spec fn outdated(m: ManagerView, id: Seq<char>, built: EndpointSpecView) -> bool {
    forall|proto: Proto|
        if built.wants(proto) {
            #[trigger] m.slot(id, proto) matches Some(s) && s.active is Some && s.endpoint.laddr
                == built.endpoint.laddr && !manager::serves(s, built, manager::drain_for(m, built))
        } else {
            m.active(id, proto) is None
        }
}

/// An endpoint that is served from where it is to be served from, and is to be
/// changed in some other way, is updated by a generation that meets no failure:
/// each of its protocols is reported updated, and serves what was built, with
/// the material it was built with.
pub proof fn law_outdated_endpoint_is_updated<V>(
    r: ReconcilerView<V>,
    generation: Generation,
    submitted: Seq<DesiredView<V>>,
    endpoints: Seq<DesiredView<V>>,
    unref: Map<Seq<char>, Seq<char>>,
    builds: Seq<Result<EndpointSpecView, Seq<char>>>,
    answers: Seq<AnswerView<V>>,
    id: Seq<char>,
    built: EndpointSpecView,
    proto: Proto,
)
    requires
        r.manager.entries.dom().finite(),
        plan::occurs(endpoints, id),
        plan::build_result(builds, plan::first(endpoints, id)) == Ok::<EndpointSpecView, Seq<char>>(built),
        r.applied.dom().contains(id),
        r.applied[id] != endpoints[plan::first(endpoints, id)].spec,
        outdated(r.manager, id, built),
        built.wants(proto),
        success_laws::all_sound(reconcile::final_plans(r, endpoints, unref, builds)),
        success_laws::calm_run(reconcile::planned(r, generation, submitted, endpoints, unref, builds), answers),
    ensures
        ({
            let x = run_laws::run(reconcile::planned(r, generation, submitted, endpoints, unref, builds), answers);
            &&& x.next matches StepNext::Applied(response) ==> {
                &&& response.state == reconcile::GenerationState::Applied
                &&& response.results.contains(
                    ResultView { id, proto, action: SlotAction::Updated, error: None, retryable: None },
                )
                &&& success_laws::brought(x.reconciler.manager, id, built, proto)
                &&& x.reconciler.manager.slot(id, proto)->0.material == built.material
            }
            &&& x.next is Applied || x.next is More
        }),
{
    let m = r.manager;
    let alone = plan::plans_of(m, r.applied, endpoints, unref, builds);
    let plans = reconcile::final_plans(r, endpoints, unref, builds);
    assert(alone.dom().contains(id));
    assert(plans.dom().contains(id));
    assert(success_laws::sound_plan(plans[id]));
    assert(plans[id] == PlanView::Replace { built });
    assert(!plan::leaving(m, plans[id], id)) by {
        assert forall|q: Proto| !(#[trigger] m.serving(id, q) matches Some(e) && (e.laddr != built.endpoint.laddr
            || !built.wants(q))) by {
            let s = m.slot(id, q);
        }
    }
    let s = m.slot(id, proto)->0;
    let f = Fate { id, proto, spec: built, listener: s.active->0, stays: false };
    lemma_planned_follows(r, generation, submitted, endpoints, unref, builds, f);
    let y = plan::all_released(m, plans);
    let a = run_laws::first_stage(generation, submitted, endpoints, unref, builds, plans, y.released);
    let x = reconcile::planned(r, generation, submitted, endpoints, unref, builds);
    lemma_calm_lets(x, answers, f);
    lemma_run_follows(a, x, answers, f);
    success_laws::law_generation_is_applied_in_full(
        r,
        generation,
        submitted,
        endpoints,
        unref,
        builds,
        answers,
        id,
    );
}

/// A submission whose descriptions are being built goes on to the plan, once they
/// are.
pub proof fn law_built_is_planned<S: EndpointSource>(
    r: ReconcilerView<S::V>,
    generation: Generation,
    submitted: Seq<DesiredView<S::V>>,
    endpoints: Seq<DesiredView<S::V>>,
    unref: Map<Seq<char>, Seq<char>>,
    builds: Seq<Result<EndpointSpecView, Seq<char>>>,
)
    ensures
        reconcile::resumed::<S>(
            r,
            PendingView::Building { generation, submitted, endpoints, unrefreshed: unref },
            AnswerView::Built(builds),
        ) == reconcile::planned(r, generation, submitted, endpoints, unref, builds),
{
}

/// After the material behind an endpoint changed, and nothing else, the same
/// request is a conflict under the active generation, and changes nothing. Under
/// a later one it is taken up: the endpoint is replaced, each of its protocols
/// is reported updated, and serves with the new material.
///
/// All descriptions could be refreshed; the one at `i` is the one that changed.
pub proof fn law_rotated_material_is_taken_up<S: EndpointSource>(
    r: ReconcilerView<S::V>,
    active: Generation,
    next: Generation,
    submitted: Seq<DesiredView<S::V>>,
    results: Seq<Result<S::V, Seq<char>>>,
    builds: Seq<Result<EndpointSpecView, Seq<char>>>,
    answers: Seq<AnswerView<S::V>>,
    i: int,
    built: EndpointSpecView,
    proto: Proto,
)
    requires
        r.ready,
        r.active == Some(active),
        r.last is Some,
        active < next,
        r.manager.entries.dom().finite(),
        forall|k: int| 0 <= k < submitted.len() ==> #[trigger] reconcile::refresh_result(results, k) is Ok,
        ({
            let endpoints = reconcile::refreshed_endpoints(submitted, results);
            let id = endpoints[i].id;
            let unref = Map::<Seq<char>, Seq<char>>::empty();
            &&& 0 <= i < endpoints.len()
            &&& !plan::repeated(endpoints, id)
            &&& reconcile::drifted::<S>(r.applied, endpoints[i])
            &&& plan::build_result(builds, i) == Ok::<EndpointSpecView, Seq<char>>(built)
            &&& outdated(r.manager, id, built)
            &&& built.wants(proto)
            &&& success_laws::all_sound(reconcile::final_plans(r, endpoints, unref, builds))
            &&& success_laws::calm_run(reconcile::planned(r, next, submitted, endpoints, unref, builds), answers)
        }),
    ensures
        ({
            let endpoints = reconcile::refreshed_endpoints(submitted, results);
            let id = endpoints[i].id;
            let unref = Map::<Seq<char>, Seq<char>>::empty();
            let pending = PendingView::Building { generation: next, submitted, endpoints, unrefreshed: unref };
            let x = run_laws::run(reconcile::planned(r, next, submitted, endpoints, unref, builds), answers);
            &&& reconcile::judged::<S>(r, active, submitted, results) == reconcile::unmoved(
                r,
                StepNext::Reply(Err(ErrorView::Stale { active })),
            )
            &&& reconcile::judged::<S>(r, next, submitted, results) == reconcile::unmoved(r, StepNext::More(pending))
            &&& x.next matches StepNext::Applied(response) ==> {
                &&& response.state == reconcile::GenerationState::Applied
                &&& response.results.contains(
                    ResultView { id, proto, action: SlotAction::Updated, error: None, retryable: None },
                )
                &&& success_laws::brought(x.reconciler.manager, id, built, proto)
                &&& x.reconciler.manager.slot(id, proto)->0.material == built.material
            }
            &&& x.next is Applied || x.next is More
        }),
{
    let endpoints = reconcile::refreshed_endpoints(submitted, results);
    let id = endpoints[i].id;
    let unref = Map::<Seq<char>, Seq<char>>::empty();
    reconcile_laws::law_conflicting_repeat_is_stale::<S>(r, active, submitted, results);
    reconcile_laws::lemma_all_refreshed(submitted, results, submitted.len() as int);
    assert(reconcile::unrefreshed(submitted, results, submitted.len() as int) =~= unref);
    assert(plan::occurs(endpoints, id));
    plan::lemma_first(endpoints, id);
    let k = plan::first(endpoints, id);
    assert(k == i) by {
        if k < i {
            assert(endpoints[k].id == id && endpoints[i].id == id);
        } else if i < k {
            assert(endpoints[i].id == id && endpoints[k].id == id);
        }
    }
    law_outdated_endpoint_is_updated(r, next, submitted, endpoints, unref, builds, answers, id, built, proto);
}

} // verus!
