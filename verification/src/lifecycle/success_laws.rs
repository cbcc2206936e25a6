//! What a generation comes to when every listener it asks for can be started.

use vstd::prelude::*;

use crate::lifecycle::manager;
use crate::lifecycle::manager::{ApplyOpView, Bound, ManagerView, NextView, Progress, Route, SlotView, StageView};
use crate::lifecycle::manager_laws;
use crate::lifecycle::plan;
use crate::lifecycle::plan::{DesiredView, PlanView};
use crate::lifecycle::reconcile;
use crate::lifecycle::reconcile::{
    AnswerView, ApplyStageView, ApplyingView, GenerationState, PendingView, ReconcilerView, ResultView, StepNext,
    StepView,
};
use crate::lifecycle::run_laws;
use crate::lifecycle::types;
use crate::lifecycle::types::{EndpointSpecView, Generation, Proto, SlotAction, SlotOutcomeView, TaskId};

verus! {

// ----------------------------------------------------------------- manager --

/// One protocol of an endpoint is as a spec asks for: served as described and
/// running, or not served.
pub open spec fn brought(m: ManagerView, id: Seq<char>, spec: EndpointSpecView, proto: Proto) -> bool {
    if spec.wants(proto) {
        m.slot(id, proto) matches Some(s) && manager::serves(s, spec, manager::drain_for(m, spec))
            && s.state is Running
    } else {
        m.active(id, proto) is None
    }
}

/// Both protocols are.
pub open spec fn fully_brought(m: ManagerView, id: Seq<char>, spec: EndpointSpecView) -> bool {
    brought(m, id, spec, Proto::Tcp) && brought(m, id, spec, Proto::Udp)
}

/// An operation that has met no failure so far.
pub open spec fn well_underway(m: ManagerView, op: ApplyOpView) -> bool {
    &&& m.entries.dom().contains(op.id)
    &&& op.drain == manager::drain_for(m, op.spec)
    &&& op.stage is Starting
    &&& op.spec.wants(manager_laws::busy_with(op))
    &&& !reconcile::any_failed(op.outcomes)
    &&& manager_laws::busy_with(op) == Proto::Udp ==> brought(m, op.id, op.spec, Proto::Tcp)
}

/// A step of such an operation.
pub open spec fn goes_well(p: Progress, id: Seq<char>, spec: EndpointSpecView) -> bool {
    match p.next {
        NextView::More(op) => well_underway(p.manager, op) && op.id == id && op.spec == spec,
        NextView::Done(outcomes) => !reconcile::any_failed(outcomes) && fully_brought(p.manager, id, spec),
    }
}

proof fn lemma_one_more(outcomes: Seq<SlotOutcomeView>, o: SlotOutcomeView)
    requires
        !reconcile::any_failed(outcomes),
        o.action != SlotAction::Failed,
    ensures
        !reconcile::any_failed(outcomes.push(o)),
{
    let all = outcomes.push(o);
    if reconcile::any_failed(all) {
        let i = choose|i: int| 0 <= i < all.len() && (#[trigger] all[i]).action == SlotAction::Failed;
        assert(i < outcomes.len() ==> outcomes[i] == all[i]);
    }
}

proof fn lemma_enter(m: ManagerView, op: ApplyOpView, proto: Proto)
    requires
        m.entries.dom().contains(op.id),
        op.drain == manager::drain_for(m, op.spec),
        !reconcile::any_failed(op.outcomes),
    ensures
        ({
            let t = manager::enter_slot(m, op, proto);
            &&& t.manager.entries.dom().contains(op.id)
            &&& t.manager.policy == m.policy
            &&& t.op.id == op.id && t.op.spec == op.spec && t.op.drain == op.drain
            &&& !reconcile::any_failed(t.op.outcomes)
            &&& forall|q: Proto| q != proto ==> #[trigger] t.manager.slot(op.id, q) == m.slot(op.id, q)
            &&& t.waiting ==> t.op.stage is Starting && manager_laws::busy_with(t.op) == proto && op.spec.wants(proto)
            &&& !t.waiting ==> brought(t.manager, op.id, op.spec, proto)
        }),
{
    let o = types::ok_outcome(proto, SlotAction::Unchanged);
    lemma_one_more(op.outcomes, o);
    lemma_one_more(op.outcomes, types::ok_outcome(proto, SlotAction::Deleted));
}

proof fn lemma_finish(m: ManagerView, op: ApplyOpView)
    requires
        m.entries.dom().contains(op.id),
        !reconcile::any_failed(op.outcomes),
        fully_brought(m, op.id, op.spec),
    ensures
        goes_well(manager::finish(m, op), op.id, op.spec),
{
}

proof fn lemma_run_udp(m: ManagerView, op: ApplyOpView)
    requires
        m.entries.dom().contains(op.id),
        op.drain == manager::drain_for(m, op.spec),
        !reconcile::any_failed(op.outcomes),
        brought(m, op.id, op.spec, Proto::Tcp),
    ensures
        goes_well(manager::run_udp(m, op), op.id, op.spec),
{
    lemma_enter(m, op, Proto::Udp);
    let t = manager::enter_slot(m, op, Proto::Udp);
    assert(t.manager.slot(op.id, Proto::Tcp) == m.slot(op.id, Proto::Tcp));
    if !t.waiting {
        lemma_finish(t.manager, t.op);
    }
}

/// Beginning to apply an endpoint that asks for a protocol meets no failure.
pub proof fn law_begun_goes_well(
    m: ManagerView,
    id: Seq<char>,
    generation: Generation,
    spec: EndpointSpecView,
    finished: Seq<TaskId>,
)
    requires
        spec.tcp || spec.udp,
    ensures
        goes_well(manager::apply_begun(m, id, generation, spec, finished), id, spec),
{
    let r = manager::refreshed(m, finished);
    let drain = match spec.drain {
        Some(d) => d,
        None => r.policy,
    };
    let op = ApplyOpView {
        id,
        generation,
        spec,
        drain,
        stage: StageView::Starting { proto: Proto::Tcp, route: Route::Fresh },
        outcomes: Seq::empty(),
    };
    let e = manager::enrolled(r, id, drain);
    lemma_enter(e, op, Proto::Tcp);
    let t = manager::enter_slot(e, op, Proto::Tcp);
    if !t.waiting {
        lemma_run_udp(t.manager, t.op);
    }
}

/// An operation whose listener could be started goes on well, and ends with the
/// endpoint served as described.
pub proof fn law_started_goes_well(m: ManagerView, op: ApplyOpView, bound: Bound)
    requires
        well_underway(m, op),
    ensures
        goes_well(manager::apply_resumed(m, op, Ok(bound)), op.id, op.spec),
{
    let proto = manager_laws::busy_with(op);
    let route = op.stage->route;
    let drained = match route {
        Route::Fresh => Seq::empty(),
        Route::Rebind { former } => manager::superseded(former),
        Route::Move { former } => manager::superseded(former),
    };
    let action = if route is Fresh {
        SlotAction::Created
    } else {
        SlotAction::Updated
    };
    let s = manager::running_slot(m.slot(op.id, proto), op, bound, drained);
    let o = types::ok_outcome(proto, action);
    let n = m.with_slot(op.id, proto, Some(s));
    let next = ApplyOpView { outcomes: op.outcomes.push(o), ..op };
    lemma_one_more(op.outcomes, o);
    assert(n.slot(op.id, proto) == Some(s));
    assert(proto == Proto::Udp ==> n.slot(op.id, Proto::Tcp) == m.slot(op.id, Proto::Tcp));
    match proto {
        Proto::Tcp => lemma_run_udp(n, next),
        Proto::Udp => lemma_finish(n, next),
    }
}

// -------------------------------------------------------- steps and others --

/// A slot nothing was done to but that drained cohorts may be forgotten.
pub open spec fn same_slot(a: Option<SlotView>, b: Option<SlotView>) -> bool {
    match (a, b) {
        (Some(x), Some(y)) => y == (SlotView { draining: y.draining, ..x }),
        (None, None) => true,
        _ => false,
    }
}

/// A listener is not among the tasks that ended.
pub open spec fn spared(m: ManagerView, id: Seq<char>, proto: Proto, finished: Seq<TaskId>) -> bool {
    m.active(id, proto) matches Some(a) ==> !finished.contains(a.task)
}

pub(crate) proof fn lemma_progress_manager<V>(r: ReconcilerView<V>, a: ApplyingView<V>, p: Progress)
    ensures
        reconcile::applying_progress(r, a, p).reconciler.manager == p.manager,
        reconcile::restoring_progress(r, a, p).reconciler.manager == p.manager,
{
}

pub(crate) proof fn lemma_refresh_spares(m: ManagerView, id: Seq<char>, proto: Proto, finished: Seq<TaskId>)
    requires
        spared(m, id, proto, finished),
    ensures
        same_slot(m.slot(id, proto), manager::refreshed(m, finished).slot(id, proto)),
{
    let n = manager::refreshed(m, finished);
    assert(n.slot(id, proto) == manager::refreshed_opt(m.slot(id, proto), finished));
}

pub(crate) proof fn lemma_elsewhere(m: ManagerView, n: ManagerView, other: Seq<char>, id: Seq<char>)
    requires
        manager_laws::same_elsewhere(n, m, other),
        id != other,
    ensures
        forall|q: Proto| #[trigger] n.slot(id, q) == m.slot(id, q),
{
    assert(m.entries.remove(other).dom().contains(id) == n.entries.remove(other).dom().contains(id));
    if m.entries.dom().contains(id) {
        assert(m.entries.remove(other)[id] == n.entries.remove(other)[id]);
    }
}

/// A step leaves alone what it is not about, if the tasks behind it go on.
#[verifier::rlimit(30)]
pub(crate) proof fn lemma_step_spares<V>(
    r: ReconcilerView<V>,
    a: ApplyingView<V>,
    answer: AnswerView<V>,
    id: Seq<char>,
    proto: Proto,
)
    requires
        run_laws::coherent(r, a),
        id != reconcile::current(a),
        answer matches AnswerView::Polled(finished) ==> spared(r.manager, id, proto, finished),
    ensures
        same_slot(
            r.manager.slot(id, proto),
            reconcile::applying_resumed(r, a, answer).reconciler.manager.slot(id, proto),
        ),
        reconcile::applying_resumed(r, a, answer).reconciler.manager.policy == r.manager.policy,
{
    let m = r.manager;
    let c = reconcile::current(a);
    let b = ApplyingView { stage: ApplyStageView::Polling, ..a };
    match (a.stage, answer) {
        (ApplyStageView::Polling, AnswerView::Polled(finished)) => {
            lemma_refresh_spares(m, id, proto, finished);
            let n = manager::refreshed(m, finished);
            match a.plans[c] {
                PlanView::Start { built } => {
                    let p = manager::apply_begun(m, c, a.generation, built, finished);
                    manager_laws::law_apply_touches_one_id(m, c, a.generation, built, finished);
                    lemma_elsewhere(n, p.manager, c, id);
                    lemma_progress_manager(r, b, p);
                },
                PlanView::Replace { built } => {
                    let p = manager::apply_begun(m, c, a.generation, built, finished);
                    manager_laws::law_apply_touches_one_id(m, c, a.generation, built, finished);
                    lemma_elsewhere(n, p.manager, c, id);
                    lemma_progress_manager(r, b, p);
                },
                PlanView::Delete => {
                    let x = manager::removed(m, c, finished);
                    assert(x.manager.entries.remove(c) =~= n.entries.remove(c));
                    lemma_elsewhere(n, x.manager, c, id);
                },
                _ => {},
            }
        },
        (ApplyStageView::Starting(op), AnswerView::Started(started)) => {
            let p = manager::apply_resumed(m, op, started);
            manager_laws::law_resume_touches_one_id(m, op, started);
            lemma_elsewhere(m, p.manager, c, id);
            lemma_progress_manager(r, b, p);
        },
        (ApplyStageView::Repolling(built), AnswerView::Polled(finished)) => {
            lemma_refresh_spares(m, id, proto, finished);
            let p = manager::apply_begun(m, c, a.generation, built, finished);
            manager_laws::law_apply_touches_one_id(m, c, a.generation, built, finished);
            lemma_elsewhere(manager::refreshed(m, finished), p.manager, c, id);
            lemma_progress_manager(r, b, p);
        },
        (ApplyStageView::Restarting(op), AnswerView::Started(started)) => {
            let p = manager::apply_resumed(m, op, started);
            manager_laws::law_resume_touches_one_id(m, op, started);
            lemma_elsewhere(m, p.manager, c, id);
            lemma_progress_manager(r, b, p);
        },
        _ => {},
    }
}

// -------------------------------------------------------------- generations --

/// No listener ends on its own, and whatever is asked for can be started.
pub open spec fn calm<V>(m: ManagerView, answer: AnswerView<V>) -> bool {
    match answer {
        AnswerView::Polled(finished) => forall|id: Seq<char>, proto: Proto| #[trigger]
            spared(m, id, proto, finished),
        AnswerView::Started(started) => started is Ok,
        _ => true,
    }
}

/// Every answer of a run is calm in its turn.
pub open spec fn calm_run<V>(x: StepView<V>, answers: Seq<AnswerView<V>>) -> bool
    decreases answers.len(),
{
    answers.len() > 0 ==> match x.next {
        StepNext::More(PendingView::Applying(a)) => calm(x.reconciler.manager, answers[0]) && calm_run(
            run_laws::answered(x.reconciler, a, answers[0]),
            answers.drop_first(),
        ),
        _ => true,
    }
}

/// Every plan can be carried out: none is invalid, and what is to be served asks
/// for a protocol.
pub open spec fn sound_plan(p: PlanView) -> bool {
    &&& !(p is Invalid)
    &&& p.target() matches Some(built) ==> built.tcp || built.udp
}

pub open spec fn sound_plans<V>(a: ApplyingView<V>) -> bool {
    forall|j: int| 0 <= j < a.order.len() ==> sound_plan(a.plans[#[trigger] a.order[j]])
}

/// The first `n` endpoints are served as described.
pub open spec fn done_up_to<V>(m: ManagerView, a: ApplyingView<V>, n: int) -> bool {
    forall|j: int|
        0 <= j < n ==> (a.plans[#[trigger] a.order[j]].target() matches Some(built) ==> fully_brought(
            m,
            a.order[j],
            built,
        ))
}

/// Nothing was reported as failed.
pub open spec fn clean(results: Seq<ResultView>) -> bool {
    forall|i: int| 0 <= i < results.len() ==> (#[trigger] results[i]).action != SlotAction::Failed
}

/// A generation that has met no failure so far.
pub open spec fn on_course<V>(r: ReconcilerView<V>, a: ApplyingView<V>) -> bool {
    &&& run_laws::coherent(r, a)
    &&& sound_plans(a)
    &&& done_up_to(r.manager, a, a.index)
    &&& clean(a.results)
    &&& match a.stage {
        ApplyStageView::Polling => true,
        ApplyStageView::Starting(op) => well_underway(r.manager, op) && a.plans[reconcile::current(a)].target()
            == Some(op.spec),
        _ => false,
    }
}

/// Where a step of such a generation leads to.
pub open spec fn step_on_course<V>(a: ApplyingView<V>, x: StepView<V>) -> bool {
    match x.next {
        StepNext::More(PendingView::Applying(b)) => on_course(x.reconciler, b) && run_laws::same_run(a, b),
        StepNext::Applied(response) => {
            &&& response.state == GenerationState::Applied
            &&& clean(response.results)
            &&& done_up_to(x.reconciler.manager, a, a.order.len() as int)
        },
        _ => false,
    }
}

proof fn lemma_clean_sum(a: Seq<ResultView>, b: Seq<ResultView>)
    requires
        clean(a),
        clean(b),
    ensures
        clean(a + b),
{
    assert forall|i: int| 0 <= i < (a + b).len() implies (#[trigger] (a + b)[i]).action != SlotAction::Failed by {
        if i < a.len() {
            assert((a + b)[i] == a[i]);
        } else {
            assert((a + b)[i] == b[i - a.len()]);
        }
    }
}

proof fn lemma_skip_clean<V>(m: ManagerView, applied: Map<Seq<char>, V>, a: ApplyingView<V>)
    requires
        0 <= a.index <= a.order.len(),
        sound_plans(a),
        clean(a.results),
    ensures
        clean(reconcile::skip(m, applied, a).results),
    decreases a.order.len() - a.index,
{
    if a.index < a.order.len() {
        let id = a.order[a.index];
        assert(sound_plan(a.plans[id]));
        if a.plans[id] is Unchanged {
            lemma_clean_sum(a.results, reconcile::unchanged_results(m, id));
            lemma_skip_clean(
                m,
                applied,
                ApplyingView {
                    index: a.index + 1,
                    results: a.results + reconcile::unchanged_results(m, id),
                    ..a
                },
            );
        }
    }
}

proof fn lemma_proceed_on_course<V>(r: ReconcilerView<V>, a: ApplyingView<V>)
    requires
        0 <= a.index <= a.order.len(),
        crate::idmap::strictly_sorted(a.order),
        sound_plans(a),
        done_up_to(r.manager, a, a.index),
        clean(a.results),
    ensures
        step_on_course(a, reconcile::proceed(r, a)),
{
    run_laws::lemma_skip(r.manager, r.applied, a);
    lemma_skip_clean(r.manager, r.applied, a);
    let b = reconcile::skip(r.manager, r.applied, a);
    assert forall|j: int| 0 <= j < b.index implies (a.plans[#[trigger] a.order[j]].target() matches Some(built)
        ==> fully_brought(r.manager, a.order[j], built)) by {
        if j >= a.index {
            assert(!run_laws::acts(a.plans[a.order[j]]));
        }
    }
}

#[verifier::rlimit(30)]
proof fn lemma_progress_on_course<V>(r: ReconcilerView<V>, a: ApplyingView<V>, p: Progress, built: EndpointSpecView)
    requires
        on_course(r, a),
        a.stage is Polling || a.stage is Starting,
        a.plans[reconcile::current(a)].target() == Some(built),
        goes_well(p, reconcile::current(a), built),
        done_up_to(p.manager, a, a.index),
    ensures
        step_on_course(
            a,
            reconcile::applying_progress(r, ApplyingView { stage: ApplyStageView::Polling, ..a }, p),
        ),
{
    let id = reconcile::current(a);
    let b = ApplyingView { stage: ApplyStageView::Polling, ..a };
    let n = ReconcilerView { manager: p.manager, ..r };
    if let NextView::Done(outcomes) = p.next {
        let results = reconcile::outcome_results(id, outcomes);
        assert(clean(results)) by {
            assert forall|i: int| 0 <= i < results.len() implies (#[trigger] results[i]).action
                != SlotAction::Failed by {
                assert(outcomes[i].action != SlotAction::Failed);
            }
        }
        lemma_clean_sum(a.results, results);
        let c = ApplyingView { index: a.index + 1, results: a.results + results, ..b };
        assert(done_up_to(n.manager, c, c.index));
        lemma_proceed_on_course(n, c);
    }
}

proof fn lemma_stays_brought(m: ManagerView, n: ManagerView, id: Seq<char>, spec: EndpointSpecView, proto: Proto)
    requires
        brought(m, id, spec, proto),
        same_slot(m.slot(id, proto), n.slot(id, proto)),
        n.policy == m.policy,
    ensures
        brought(n, id, spec, proto),
{
}

proof fn lemma_earlier_stays<V>(r: ReconcilerView<V>, a: ApplyingView<V>, answer: AnswerView<V>, j: int, proto: Proto)
    requires
        run_laws::coherent(r, a),
        calm(r.manager, answer),
        0 <= j < a.index,
        a.plans[a.order[j]].target() is Some,
        brought(r.manager, a.order[j], a.plans[a.order[j]].target()->0, proto),
    ensures
        brought(
            reconcile::applying_resumed(r, a, answer).reconciler.manager,
            a.order[j],
            a.plans[a.order[j]].target()->0,
            proto,
        ),
{
    let id = a.order[j];
    plan::lemma_distinct(a.order, a.index);
    if let AnswerView::Polled(finished) = answer {
        assert(spared(r.manager, id, proto, finished));
    }
    lemma_step_spares(r, a, answer, id, proto);
    let n = reconcile::applying_resumed(r, a, answer).reconciler.manager;
    lemma_stays_brought(r.manager, n, id, a.plans[id].target()->0, proto);
}

proof fn lemma_earlier_stay<V>(r: ReconcilerView<V>, a: ApplyingView<V>, answer: AnswerView<V>)
    requires
        run_laws::coherent(r, a),
        done_up_to(r.manager, a, a.index),
        calm(r.manager, answer),
    ensures
        done_up_to(reconcile::applying_resumed(r, a, answer).reconciler.manager, a, a.index),
{
    let n = reconcile::applying_resumed(r, a, answer).reconciler.manager;
    assert forall|j: int| 0 <= j < a.index implies (a.plans[#[trigger] a.order[j]].target() matches Some(built)
        ==> fully_brought(n, a.order[j], built)) by {
        if a.plans[a.order[j]].target() is Some {
            lemma_earlier_stays(r, a, answer, j, Proto::Tcp);
            lemma_earlier_stays(r, a, answer, j, Proto::Udp);
        }
    }
}

/// While every listener can be started and none ends on its own, a generation
/// stays on course, and what was brought about stays.
pub proof fn law_step_stays_on_course<V>(r: ReconcilerView<V>, a: ApplyingView<V>, answer: AnswerView<V>)
    requires
        on_course(r, a),
        calm(r.manager, answer),
    ensures
        step_on_course(a, reconcile::applying_resumed(r, a, answer)),
{
    let id = reconcile::current(a);
    let b = ApplyingView { stage: ApplyStageView::Polling, ..a };
    let x = reconcile::applying_resumed(r, a, answer);
    lemma_earlier_stay(r, a, answer);
    assert(sound_plan(a.plans[a.order[a.index]]));
    match (a.stage, answer) {
        (ApplyStageView::Polling, AnswerView::Polled(finished)) => match a.plans[id] {
            PlanView::Delete => {
                let y = manager::removed(r.manager, id, finished);
                let results = reconcile::outcome_results(id, y.outcomes);
                assert(clean(results));
                lemma_clean_sum(a.results, results);
                let c = ApplyingView {
                    index: a.index + 1,
                    desired: a.desired.remove(id),
                    results: a.results + results,
                    ..b
                };
                let n = ReconcilerView { manager: y.manager, ..r };
                assert(x.reconciler.manager == y.manager);
                assert(done_up_to(n.manager, c, c.index));
                lemma_proceed_on_course(n, c);
            },
            _ => {
                let built = a.plans[id].target()->0;
                let p = manager::apply_begun(r.manager, id, a.generation, built, finished);
                law_begun_goes_well(r.manager, id, a.generation, built, finished);
                lemma_progress_manager(r, b, p);
                lemma_progress_on_course(r, a, p, built);
            },
        },
        (ApplyStageView::Starting(op), AnswerView::Started(started)) => {
            let p = manager::apply_resumed(r.manager, op, started);
            law_started_goes_well(r.manager, op, started->Ok_0);
            lemma_progress_manager(r, b, p);
            lemma_progress_on_course(r, a, p, op.spec);
        },
        _ => {},
    }
}

proof fn lemma_run_on_course<V>(a: ApplyingView<V>, x: StepView<V>, answers: Seq<AnswerView<V>>)
    requires
        step_on_course(a, x),
        calm_run(x, answers),
    ensures
        step_on_course(a, run_laws::run(x, answers)),
    decreases answers.len(),
{
    reveal(run_laws::answered);
    if answers.len() > 0 {
        if let StepNext::More(PendingView::Applying(b)) = x.next {
            law_step_stays_on_course(x.reconciler, b, answers[0]);
            let y = reconcile::applying_resumed(x.reconciler, b, answers[0]);
            assert(step_on_course(a, y)) by {
                if y.next is Applied {
                    assert(a.order == b.order && a.plans == b.plans);
                    assert(done_up_to(y.reconciler.manager, b, b.order.len() as int));
                }
            }
            lemma_run_on_course(a, y, answers.drop_first());
        }
    }
}

/// Every plan of a generation can be carried out.
pub open spec fn all_sound(plans: Map<Seq<char>, PlanView>) -> bool {
    forall|id: Seq<char>| #[trigger] plans.dom().contains(id) ==> sound_plan(plans[id])
}

#[verifier::rlimit(30)]
pub(crate) proof fn lemma_planned_on_course<V>(
    r: ReconcilerView<V>,
    generation: Generation,
    submitted: Seq<DesiredView<V>>,
    endpoints: Seq<DesiredView<V>>,
    unref: Map<Seq<char>, Seq<char>>,
    builds: Seq<Result<EndpointSpecView, Seq<char>>>,
)
    requires
        r.manager.entries.dom().finite(),
        all_sound(reconcile::final_plans(r, endpoints, unref, builds)),
    ensures
        ({
            let plans = reconcile::final_plans(r, endpoints, unref, builds);
            let x = plan::all_released(r.manager, plans);
            let a = run_laws::first_stage(generation, submitted, endpoints, unref, builds, plans, x.released);
            &&& crate::idmap::lists(a.order, plans.dom())
            &&& step_on_course(a, reconcile::planned(r, generation, submitted, endpoints, unref, builds))
        }),
{
    let plans = reconcile::final_plans(r, endpoints, unref, builds);
    let x = plan::all_released(r.manager, plans);
    let a = run_laws::first_stage(generation, submitted, endpoints, unref, builds, plans, x.released);
    run_laws::lemma_plans_finite(r, endpoints, unref, builds);
    crate::idmap::lemma_finite_in_order(plans.dom());
    assert(sound_plans(a)) by {
        assert forall|j: int| 0 <= j < a.order.len() implies sound_plan(a.plans[#[trigger] a.order[j]]) by {
            assert(a.order.contains(a.order[j]));
            assert(plans.dom().contains(a.order[j]));
        }
    }
    lemma_proceed_on_course(ReconcilerView { manager: x.manager, ..r }, a);
}

/// A generation of which every plan can be carried out is applied in full when
/// every listener can be started and none ends on its own meanwhile: nothing is
/// reported as failed, and each endpoint that was to be started or replaced is
/// served as described, running, for the protocols it asks for and no others.
pub proof fn law_generation_is_applied_in_full<V>(
    r: ReconcilerView<V>,
    generation: Generation,
    submitted: Seq<DesiredView<V>>,
    endpoints: Seq<DesiredView<V>>,
    unref: Map<Seq<char>, Seq<char>>,
    builds: Seq<Result<EndpointSpecView, Seq<char>>>,
    answers: Seq<AnswerView<V>>,
    id: Seq<char>,
)
    requires
        r.manager.entries.dom().finite(),
        all_sound(reconcile::final_plans(r, endpoints, unref, builds)),
        calm_run(reconcile::planned(r, generation, submitted, endpoints, unref, builds), answers),
    ensures
        ({
            let plans = reconcile::final_plans(r, endpoints, unref, builds);
            let x = run_laws::run(reconcile::planned(r, generation, submitted, endpoints, unref, builds), answers);
            match x.next {
                StepNext::Applied(response) => {
                    &&& response.state == GenerationState::Applied
                    &&& clean(response.results)
                    &&& plans.dom().contains(id) ==> (plans[id].target() matches Some(built) ==> fully_brought(
                        x.reconciler.manager,
                        id,
                        built,
                    ))
                },
                StepNext::More(PendingView::Applying(_)) => true,
                _ => false,
            }
        }),
{
    let plans = reconcile::final_plans(r, endpoints, unref, builds);
    let y = plan::all_released(r.manager, plans);
    let a = run_laws::first_stage(generation, submitted, endpoints, unref, builds, plans, y.released);
    let s = reconcile::planned(r, generation, submitted, endpoints, unref, builds);
    lemma_planned_on_course(r, generation, submitted, endpoints, unref, builds);
    lemma_run_on_course(a, s, answers);
    if plans.dom().contains(id) {
        assert(a.order.contains(id));
        let j = a.order.index_of(id);
        assert(a.order[j] == id);
    }
}

} // verus!
