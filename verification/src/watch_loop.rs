//! A whole wait for the next reload. The watcher thread loops: it asks the
//! queue for a batch (`Changes::emit_reload`), and when none is due it waits
//! for the watcher and takes in what came (`Changes::receive`), until the
//! watcher is gone. `wait_run` is that loop over the rounds it goes through;
//! the lemmas here say what such a run hands out.

use vstd::prelude::*;

use crate::watcher::{
    distinct_paths, holds_path, lemma_changes_wf_preserved, lemma_enqueue_collects,
    lemma_enqueue_distinct, ChangesModel, ReceivedModel,
};

verus! {

/// One round of the wait loop: the queue is checked for a batch at
/// `check_at`; when none is due, a wait brings `received`, taken in at
/// `received_at`.
pub struct WaitStep {
    /// when the queue is checked
    pub check_at: u64,
    /// what the wait brought
    pub received: ReceivedModel,
    /// when it is taken in
    pub received_at: u64,
}

/// How a run of rounds ends.
pub enum WaitEnd {
    /// a batch of paths is handed out
    Batch(Seq<Seq<char>>),
    /// the watcher is gone
    Gone,
    /// the rounds ran out with neither
    Pending,
}

/// The paths that a wait brought: those of an event, none otherwise.
pub open spec fn changed_paths(received: ReceivedModel) -> Seq<Seq<char>> {
    match received {
        ReceivedModel::Changed(paths) => paths,
        _ => Seq::empty(),
    }
}

/// The paths that the rounds `steps` brought, in order of arrival.
pub open spec fn arrived(steps: Seq<WaitStep>) -> Seq<Seq<char>>
    decreases steps.len(),
{
    if steps.len() == 0 {
        Seq::empty()
    } else {
        changed_paths(steps[0].received) + arrived(steps.drop_first())
    }
}

/// The queue after taking in, in order, what the rounds `steps` brought.
pub open spec fn queue_after(m: ChangesModel, steps: Seq<WaitStep>) -> ChangesModel
    decreases steps.len(),
{
    if steps.len() == 0 {
        m
    } else {
        queue_after(m.received(steps[0].received, steps[0].received_at), steps.drop_first())
    }
}

/// The wait loop run from the queue `m` over the rounds `steps`: at each
/// round a due queue is emitted; otherwise the run stops if the watcher is
/// gone, or takes in what the wait brought and goes on. Gives how the run
/// ends, the queue at its end, and the index of the round it ended in (the
/// number of rounds where the rounds ran out).
pub open spec fn wait_run(m: ChangesModel, steps: Seq<WaitStep>) -> (WaitEnd, ChangesModel, nat)
    decreases steps.len(),
{
    if steps.len() == 0 {
        (WaitEnd::Pending, m, 0)
    } else if m.due(steps[0].check_at) {
        (WaitEnd::Batch(m.queued), m.emitted(steps[0].check_at), 0)
    } else if steps[0].received is Disconnected {
        (WaitEnd::Gone, m, 0)
    } else {
        let rest = wait_run(
            m.received(steps[0].received, steps[0].received_at),
            steps.drop_first(),
        );
        (rest.0, rest.1, rest.2 + 1)
    }
}

/// Taking in the first `k + 1` rounds is taking in the first round, then
/// the next `k`.
proof fn lemma_queue_after_take(m: ChangesModel, steps: Seq<WaitStep>, k: int)
    requires
        0 <= k < steps.len(),
    ensures
        queue_after(m, steps.take(k + 1)) == queue_after(
            m.received(steps[0].received, steps[0].received_at),
            steps.drop_first().take(k),
        ),
{
    assert(steps.take(k + 1).drop_first() =~= steps.drop_first().take(k));
    assert(steps.take(k + 1)[0] == steps[0]);
}

/// What a run of the wait loop hands out. It ends in the first round where
/// the queue is due, handing out the queue it has collected so far and
/// leaving it empty; or in the first round before that where the watcher is
/// gone, keeping what was queued; or it is still waiting when the rounds run
/// out.
pub proof fn lemma_wait_run(m: ChangesModel, steps: Seq<WaitStep>)
    requires
        m.wf(),
    ensures
        ({
            let (end, last, k) = wait_run(m, steps);
            let before = queue_after(m, steps.take(k as int));
            &&& k <= steps.len()
            &&& before.wf()
            &&& forall|i: int|
                0 <= i < k ==> !queue_after(m, steps.take(i)).due(#[trigger] steps[i].check_at)
                    && !(steps[i].received is Disconnected)
            &&& match end {
                WaitEnd::Batch(batch) => {
                    &&& k < steps.len()
                    &&& before.due(steps[k as int].check_at)
                    &&& batch.len() > 0
                    &&& batch == before.queued
                    &&& last == ChangesModel::empty()
                },
                WaitEnd::Gone => {
                    &&& k < steps.len()
                    &&& !before.due(steps[k as int].check_at)
                    &&& steps[k as int].received is Disconnected
                    &&& last == before
                },
                WaitEnd::Pending => k == steps.len() && last == before,
            }
        }),
    decreases steps.len(),
{
    assert(steps.take(0) =~= Seq::<WaitStep>::empty());
    if steps.len() > 0 && !m.due(steps[0].check_at) && !(steps[0].received is Disconnected) {
        let m1 = m.received(steps[0].received, steps[0].received_at);
        let rest = steps.drop_first();
        lemma_changes_wf_preserved(m, changed_paths(steps[0].received), steps[0].received_at);
        lemma_wait_run(m1, rest);
        let k1 = wait_run(m1, rest).2;
        lemma_queue_after_take(m, steps, k1 as int);
        assert forall|i: int|
            0 <= i < k1 + 1 implies !queue_after(m, steps.take(i)).due(
            #[trigger] steps[i].check_at,
        ) && !(steps[i].received is Disconnected) by {
            if i > 0 {
                lemma_queue_after_take(m, steps, i - 1);
                assert(steps[i] == rest[i - 1]);
            }
        }
        if k1 < rest.len() {
            assert(steps[k1 + 1int] == rest[k1 as int]);
        }
    }
}

/// A path stands in `a + b` exactly when it stands in `a` or in `b`.
proof fn lemma_holds_path_concat(a: Seq<Seq<char>>, b: Seq<Seq<char>>, p: Seq<char>)
    ensures
        holds_path(a + b, p) <==> (holds_path(a, p) || holds_path(b, p)),
{
    if holds_path(a + b, p) {
        let i = choose|i: int| 0 <= i < (a + b).len() && #[trigger] crate::path::same_path((a + b)[i], p);
        if i < a.len() {
            assert((a + b)[i] == a[i]);
        } else {
            assert((a + b)[i] == b[i - a.len()]);
        }
    }
    if holds_path(a, p) {
        let i = choose|i: int| 0 <= i < a.len() && #[trigger] crate::path::same_path(a[i], p);
        assert((a + b)[i] == a[i]);
    }
    if holds_path(b, p) {
        let i = choose|i: int| 0 <= i < b.len() && #[trigger] crate::path::same_path(b[i], p);
        assert((a + b)[a.len() + i] == b[i]);
    }
}

/// A wait run collects a burst whole: after any rounds, a path is queued
/// exactly when it was queued before or arrived in one of the rounds.
pub proof fn lemma_queue_after_collects(m: ChangesModel, steps: Seq<WaitStep>, p: Seq<char>)
    ensures
        holds_path(queue_after(m, steps).queued, p) <==> (holds_path(m.queued, p) || holds_path(
            arrived(steps),
            p,
        )),
    decreases steps.len(),
{
    if steps.len() > 0 {
        let r = steps[0].received;
        let m1 = m.received(r, steps[0].received_at);
        lemma_queue_after_collects(m1, steps.drop_first(), p);
        lemma_holds_path_concat(changed_paths(r), arrived(steps.drop_first()), p);
        match r {
            ReceivedModel::Changed(paths) => {
                lemma_enqueue_collects(m, paths, steps[0].received_at, p);
            },
            _ => {
                assert(!holds_path(changed_paths(r), p));
            },
        }
    }
}

/// Rounds only add to the queue: what was queued stays, first and in its
/// order, and new paths come after it.
pub proof fn lemma_queue_after_keeps_order(m: ChangesModel, steps: Seq<WaitStep>)
    ensures
        queue_after(m, steps).queued.len() >= m.queued.len(),
        queue_after(m, steps).queued.take(m.queued.len() as int) == m.queued,
    decreases steps.len(),
{
    if steps.len() > 0 {
        let m1 = m.received(steps[0].received, steps[0].received_at);
        lemma_queue_after_keeps_order(m1, steps.drop_first());
        assert(m1.queued.take(m.queued.len() as int) =~= m.queued);
        let q = queue_after(m, steps).queued;
        assert(q.take(m.queued.len() as int) =~= q.take(m1.queued.len() as int).take(
            m.queued.len() as int,
        ));
    } else {
        assert(m.queued.take(m.queued.len() as int) =~= m.queued);
    }
}

/// A wait run never queues the same path twice, as long as no single event
/// names a path twice.
pub proof fn lemma_queue_after_distinct(m: ChangesModel, steps: Seq<WaitStep>)
    requires
        distinct_paths(m.queued),
        forall|i: int| 0 <= i < steps.len() ==> distinct_paths(changed_paths(#[trigger] steps[i].received)),
    ensures
        distinct_paths(queue_after(m, steps).queued),
    decreases steps.len(),
{
    if steps.len() > 0 {
        let r = steps[0].received;
        let rest = steps.drop_first();
        assert(distinct_paths(changed_paths(steps[0].received)));
        if let ReceivedModel::Changed(paths) = r {
            lemma_enqueue_distinct(m, paths, steps[0].received_at);
        }
        assert forall|i: int| 0 <= i < rest.len() implies distinct_paths(
            changed_paths(#[trigger] rest[i].received),
        ) by {
            assert(rest[i] == steps[i + 1]);
        }
        lemma_queue_after_distinct(m.received(r, steps[0].received_at), rest);
    }
}

/// Rounds that bring no event, only errors and timeouts, leave the queue as
/// it was.
pub proof fn lemma_queue_after_no_event(m: ChangesModel, steps: Seq<WaitStep>)
    requires
        forall|i: int| 0 <= i < steps.len() ==> !(#[trigger] steps[i].received is Changed),
    ensures
        queue_after(m, steps) == m,
    decreases steps.len(),
{
    if steps.len() > 0 {
        let rest = steps.drop_first();
        assert(!(steps[0].received is Changed));
        assert forall|i: int| 0 <= i < rest.len() implies !(#[trigger] rest[i].received is Changed) by {
            assert(rest[i] == steps[i + 1]);
        }
        lemma_queue_after_no_event(m, rest);
    }
}

} // verus!
