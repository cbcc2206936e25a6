//! The two protocols of an endpoint succeed and fail on their own.

use vstd::prelude::*;

use crate::lifecycle::manager;
use crate::lifecycle::manager::{Action, ApplyOpView, Bound, ManagerView, NextView, Progress, SlotView};
use crate::lifecycle::manager_laws;
use crate::lifecycle::types;
use crate::lifecycle::types::{Proto, SlotAction, SlotOutcomeView};

verus! {

/// Starting udp, whatever comes of it, leaves tcp as it is; a tcp slot that
/// holds nothing anymore may be dropped.
pub proof fn law_udp_leaves_tcp_alone(m: ManagerView, op: ApplyOpView, started: Result<Bound, Seq<char>>)
    requires
        m.entries.dom().contains(op.id),
        manager_laws::busy_with(op) == Proto::Udp,
    ensures
        ({
            let before = m.slot(op.id, Proto::Tcp);
            let after = manager::apply_resumed(m, op, started).manager.slot(op.id, Proto::Tcp);
            after == before || (manager::spent(before) && after is None)
        }),
{
}

/// Whether tcp is to be tried again with the endpoint it served.
pub open spec fn tcp_goes_back(p: Progress) -> bool {
    p.next matches NextView::More(op) && op.stage is Restarting && manager_laws::busy_with(op) == Proto::Tcp
}

/// The outcomes reported after the first `n`.
pub open spec fn reported_after(p: Progress, n: int) -> Seq<SlotOutcomeView> {
    match p.next {
        NextView::Done(outcomes) => outcomes.skip(n),
        NextView::More(op) => op.outcomes.skip(n),
    }
}

/// What udp comes to in two steps.
pub open spec fn same_for_udp(p: Progress, q: Progress, id: Seq<char>, n: int) -> bool {
    &&& p.manager.slot(id, Proto::Udp) == q.manager.slot(id, Proto::Udp)
    &&& reported_after(p, n) == reported_after(q, n)
    &&& match (p.next, q.next) {
        (NextView::More(a), NextView::More(b)) => a.stage == b.stage && manager::awaited(a) == manager::awaited(b),
        (NextView::Done(_), NextView::Done(_)) => true,
        _ => false,
    }
}

proof fn lemma_udp_turn(m: ManagerView, op: ApplyOpView, n: ManagerView, other: ApplyOpView)
    requires
        m.entries.dom().contains(op.id),
        n.entries.dom().contains(op.id),
        m.slot(op.id, Proto::Udp) == n.slot(op.id, Proto::Udp),
        other == (ApplyOpView { outcomes: other.outcomes, ..op }),
        op.outcomes.len() == other.outcomes.len(),
    ensures
        same_for_udp(manager::run_udp(m, op), manager::run_udp(n, other), op.id, op.outcomes.len() as int),
{
    let k = op.outcomes.len() as int;
    let t = manager::enter_slot(m, op, Proto::Udp);
    let u = manager::enter_slot(n, other, Proto::Udp);
    assert(t.waiting == u.waiting);
    assert(t.manager.slot(op.id, Proto::Udp) == u.manager.slot(op.id, Proto::Udp));
    assert(t.op.outcomes.skip(k) =~= u.op.outcomes.skip(k));
}

/// The step of udp alone, with some outcome of tcp before it.
spec fn udp_alone(m: ManagerView, op: ApplyOpView) -> Progress {
    let o = types::ok_outcome(Proto::Tcp, SlotAction::Created);
    manager::run_udp(m, ApplyOpView { outcomes: op.outcomes.push(o), ..op })
}

proof fn lemma_settled_tcp(
    m: ManagerView,
    op: ApplyOpView,
    s: SlotView,
    o: SlotOutcomeView,
    actions: Seq<Action>,
)
    requires
        m.entries.dom().contains(op.id),
    ensures
        same_for_udp(
            manager::settle(m, op, Proto::Tcp, s, o, actions),
            udp_alone(m, op),
            op.id,
            op.outcomes.len() as int + 1,
        ),
{
    let n = m.with_slot(op.id, Proto::Tcp, Some(s));
    let other = types::ok_outcome(Proto::Tcp, SlotAction::Created);
    assert(n.slot(op.id, Proto::Udp) == m.slot(op.id, Proto::Udp));
    lemma_udp_turn(
        n,
        ApplyOpView { outcomes: op.outcomes.push(o), ..op },
        m,
        ApplyOpView { outcomes: op.outcomes.push(other), ..op },
    );
}

#[verifier::rlimit(30)]
proof fn lemma_only_udp_counts(m: ManagerView, op: ApplyOpView, started: Result<Bound, Seq<char>>)
    requires
        m.entries.dom().contains(op.id),
        manager_laws::busy_with(op) == Proto::Tcp,
        !tcp_goes_back(manager::apply_resumed(m, op, started)),
    ensures
        same_for_udp(
            manager::apply_resumed(m, op, started),
            udp_alone(m, op),
            op.id,
            op.outcomes.len() as int + 1,
        ),
{
    let other = types::ok_outcome(Proto::Tcp, SlotAction::Created);
    assert forall|s: SlotView, o: SlotOutcomeView, actions: Seq<Action>| same_for_udp(
        #[trigger] manager::settle(m, op, Proto::Tcp, s, o, actions),
        udp_alone(m, op),
        op.id,
        op.outcomes.len() as int + 1,
    ) by {
        lemma_settled_tcp(m, op, s, o, actions);
    }
    if m.slot(op.id, Proto::Tcp) is None {
        assert forall|o: SlotOutcomeView| same_for_udp(
            #[trigger] manager::run_after(
                m,
                ApplyOpView { outcomes: op.outcomes.push(o), ..op },
                Proto::Tcp,
            ),
            udp_alone(m, op),
            op.id,
            op.outcomes.len() as int + 1,
        ) by {
            lemma_udp_turn(
                m,
                ApplyOpView { outcomes: op.outcomes.push(o), ..op },
                m,
                ApplyOpView { outcomes: op.outcomes.push(other), ..op },
            );
        }
    }
}

/// Whether tcp could be started makes no difference to udp: its slot, what is
/// asked for it and what is reported of it are the same. This is of the steps
/// after which tcp is through; one whose listener was stopped for a start that
/// failed is not, and its old endpoint is asked for first.
pub proof fn law_tcp_makes_no_difference_to_udp(
    m: ManagerView,
    op: ApplyOpView,
    a: Result<Bound, Seq<char>>,
    b: Result<Bound, Seq<char>>,
)
    requires
        m.entries.dom().contains(op.id),
        manager_laws::busy_with(op) == Proto::Tcp,
        !tcp_goes_back(manager::apply_resumed(m, op, a)),
        !tcp_goes_back(manager::apply_resumed(m, op, b)),
    ensures
        same_for_udp(
            manager::apply_resumed(m, op, a),
            manager::apply_resumed(m, op, b),
            op.id,
            op.outcomes.len() as int + 1,
        ),
{
    lemma_only_udp_counts(m, op, a);
    lemma_only_udp_counts(m, op, b);
}

} // verus!
