use vstd::prelude::*;
use crate::map::{live, Object, ObjectMap};
use crate::wire::{Message, MessageView};
use crate::Implementation;

verus! {

/// A decoded message waiting for dispatch to the handler of its target.
pub struct QueuedMessage {
    pub target: u32,
    pub destructor: bool,
    pub msg: Message,
}

/// The value of a queued message.
pub struct QueuedView {
    pub target: u32,
    pub destructor: bool,
    pub msg: MessageView,
}

impl View for QueuedMessage {
    type V = QueuedView;

    open spec fn view(&self) -> QueuedView {
        QueuedView { target: self.target, destructor: self.destructor, msg: self.msg@ }
    }
}

/// Whether a queued message goes to its handler: its target is alive and bound
/// to queue `qid`. Messages for other objects are dropped.
pub open spec fn deliverable(m: Map<u32, Object>, e: QueuedView, qid: u32) -> bool {
    live(m, e.target) matches Some(o) && o.queue == qid
}

/// The map once a message has been handled: a destructor marks its target dead.
pub open spec fn after_handling(m: Map<u32, Object>, e: QueuedView) -> Map<u32, Object> {
    if e.destructor {
        m.insert(e.target, Object { alive: false, ..m[e.target] })
    } else {
        m
    }
}

/// The map after a run of messages, removal of the dead put aside.
pub open spec fn run_map(m: Map<u32, Object>, q: Seq<QueuedView>, qid: u32) -> Map<u32, Object>
    decreases q.len(),
{
    if q.len() == 0 {
        m
    } else if deliverable(m, q[0], qid) {
        run_map(after_handling(m, q[0]), q.drop_first(), qid)
    } else {
        run_map(m, q.drop_first(), qid)
    }
}

/// The messages of a run that reach their handler, in the order they are handed over.
pub open spec fn run_delivered(m: Map<u32, Object>, q: Seq<QueuedView>, qid: u32) -> Seq<QueuedView>
    decreases q.len(),
{
    if q.len() == 0 {
        seq![]
    } else if deliverable(m, q[0], qid) {
        seq![q[0]] + run_delivered(after_handling(m, q[0]), q.drop_first(), qid)
    } else {
        run_delivered(m, q.drop_first(), qid)
    }
}

/// The targets that a run's destructors killed.
pub open spec fn run_killed(m: Map<u32, Object>, q: Seq<QueuedView>, qid: u32) -> Seq<u32>
    decreases q.len(),
{
    if q.len() == 0 {
        seq![]
    } else if deliverable(m, q[0], qid) && q[0].destructor {
        seq![q[0].target] + run_killed(after_handling(m, q[0]), q.drop_first(), qid)
    } else if deliverable(m, q[0], qid) {
        run_killed(after_handling(m, q[0]), q.drop_first(), qid)
    } else {
        run_killed(m, q.drop_first(), qid)
    }
}

/// The map once the dead among `ids` have been removed, one after another.
pub open spec fn remove_dead(m: Map<u32, Object>, ids: Seq<u32>) -> Map<u32, Object>
    decreases ids.len(),
{
    if ids.len() == 0 {
        m
    } else {
        let prev = remove_dead(m, ids.drop_last());
        let id = ids.last();
        if prev.contains_key(id) && !prev[id].alive {
            prev.remove(id)
        } else {
            prev
        }
    }
}

/// What a handler sees of each delivered message: its value and its target.
pub open spec fn deliveries(q: Seq<QueuedView>) -> Seq<(MessageView, u32)> {
    q.map_values(|e: QueuedView| (e.msg, e.target))
}

/// The values of what a handler received.
pub open spec fn received_views(r: Seq<(Message, u32)>) -> Seq<(MessageView, u32)> {
    r.map_values(|p: (Message, u32)| (p.0@, p.1))
}

/// An ordered queue of messages waiting for dispatch.
///
/// The queue keeps, as ghost state, the log of every message it has handed to
/// a handler, in order.
pub struct EventQueue {
    id: u32,
    pending: Vec<QueuedMessage>,
    log: Ghost<Seq<QueuedView>>,
}

impl EventQueue {
    /// The number by which objects are bound to this queue.
    pub closed spec fn qid(&self) -> u32 {
        self.id
    }

    /// The messages waiting, oldest first.
    pub closed spec fn pending(&self) -> Seq<QueuedView> {
        self.pending@.map_values(|e: QueuedMessage| e@)
    }

    /// The messages handed to a handler so far, in order.
    pub closed spec fn log(&self) -> Seq<QueuedView> {
        self.log@
    }

    /// An empty queue, with the number `id`.
    pub fn new(id: u32) -> (r: EventQueue)
        ensures
            r.qid() == id,
            r.pending() == Seq::<QueuedView>::empty(),
            r.log() == Seq::<QueuedView>::empty(),
    {
        let ghost empty: Seq<QueuedView> = Seq::empty();
        let r = EventQueue { id, pending: Vec::new(), log: Ghost(empty) };
        assert(r.pending() =~= Seq::<QueuedView>::empty());
        r
    }

    /// The queue's number.
    pub fn id(&self) -> (r: u32)
        ensures
            r == self.qid(),
    {
        self.id
    }

    /// The number of messages waiting.
    pub fn len(&self) -> (r: usize)
        ensures
            r == self.pending().len(),
    {
        self.pending.len()
    }

    /// Puts a message at the back of the queue.
    pub fn enqueue(&mut self, e: QueuedMessage)
        ensures
            final(self).qid() == old(self).qid(),
            final(self).pending() == old(self).pending().push(e@),
            final(self).log() == old(self).log(),
    {
        self.pending.push(e);
        assert(self.pending() =~= old(self).pending().push(e@));
    }

    /// Takes all waiting messages out of the queue, oldest first.
    pub fn take_pending(&mut self) -> (r: Vec<QueuedMessage>)
        ensures
            r@.map_values(|e: QueuedMessage| e@) == old(self).pending(),
            final(self).qid() == old(self).qid(),
            final(self).pending() == Seq::<QueuedView>::empty(),
            final(self).log() == old(self).log(),
    {
        let mut r: Vec<QueuedMessage> = Vec::new();
        std::mem::swap(&mut r, &mut self.pending);
        assert(self.pending() =~= Seq::<QueuedView>::empty());
        r
    }

    /// Drains the queue in order: each message whose target is alive and bound
    /// here goes to `handler` with the target's id, and a destructor marks its
    /// target dead once the handler has returned. The ids of the objects killed
    /// are removed from the map after the whole batch. Returns how many
    /// messages were handed over.
    pub fn dispatch_pending<H: Implementation<u32, Message>>(
        &mut self,
        map: &mut ObjectMap,
        handler: &mut H,
    ) -> (r: usize)
        requires
            old(map).wf(),
        ensures
            final(map).wf(),
            final(map).role() == old(map).role(),
            final(self).qid() == old(self).qid(),
            final(self).pending() == Seq::<QueuedView>::empty(),
            final(self).log() == old(self).log() + run_delivered(old(map)@, old(self).pending(), old(self).qid()),
            r == run_delivered(old(map)@, old(self).pending(), old(self).qid()).len(),
            received_views(final(handler).received()) == received_views(old(handler).received())
                + deliveries(run_delivered(old(map)@, old(self).pending(), old(self).qid())),
            final(map)@ == remove_dead(
                run_map(old(map)@, old(self).pending(), old(self).qid()),
                run_killed(old(map)@, old(self).pending(), old(self).qid()),
            ),
    {
        let ghost q0 = self.pending();
        let ghost m0 = map@;
        let ghost log0 = self.log@;
        let qid = self.id;
        let mut batch: Vec<QueuedMessage> = Vec::new();
        std::mem::swap(&mut batch, &mut self.pending);
        let n = batch.len();
        let mut killed: Vec<u32> = Vec::new();
        let mut count: usize = 0;
        let ghost mut done: Seq<QueuedView> = seq![];
        let ghost mut i: int = 0;
        proof {
            assert(q0.skip(0) =~= q0);
            assert(batch@.map_values(|e: QueuedMessage| e@) =~= q0);
            assert(done + run_delivered(m0, q0, qid) =~= run_delivered(m0, q0, qid));
            assert(killed@ + run_killed(m0, q0, qid) =~= run_killed(m0, q0, qid));
            assert(received_views(handler.received()) =~= received_views(handler.received()) + deliveries(done));
        }
        while batch.len() > 0
            invariant
                map.wf(),
                map.role() == old(map).role(),
                self.id == qid,
                qid == old(self).qid(),
                self.pending@.len() == 0,
                n == q0.len(),
                0 <= i <= q0.len(),
                batch@.map_values(|e: QueuedMessage| e@) == q0.skip(i),
                count == done.len(),
                count <= i,
                self.log@ == log0 + done,
                received_views(handler.received()) == received_views(old(handler).received())
                    + deliveries(done),
                run_delivered(m0, q0, qid) == done + run_delivered(map@, q0.skip(i), qid),
                run_map(m0, q0, qid) == run_map(map@, q0.skip(i), qid),
                run_killed(m0, q0, qid) == killed@ + run_killed(map@, q0.skip(i), qid),
            decreases batch.len(),
        {
            let ghost rest = q0.skip(i);
            let ghost mid = map@;
            let ghost k_before = killed@;
            let e = batch.remove(0);
            let ghost ev = e@;
            proof {
                assert(rest[0] == ev);
                assert(rest.drop_first() =~= q0.skip(i + 1));
                assert(batch@.map_values(|e: QueuedMessage| e@) =~= q0.skip(i + 1));
            }
            let mut handed = false;
            if let Some(o) = map.lookup(e.target) {
                if o.queue == qid {
                    let target = e.target;
                    let destructor = e.destructor;
                    let ghost before = handler.received();
                    handler.receive(e.msg, target);
                    proof {
                        assert(received_views(handler.received()) =~= received_views(before).push(
                            (ev.msg, target),
                        ));
                        assert(deliveries(done.push(ev)) =~= deliveries(done).push((ev.msg, target)));
                    }
                    if destructor {
                        map.mark_dead(target);
                        killed.push(target);
                    }
                    count = count + 1;
                    handed = true;
                    self.log = Ghost(self.log@.push(ev));
                }
            }
            proof {
                assert(handed == deliverable(mid, ev, qid));
                if handed {
                    assert(map@ == after_handling(mid, ev));
                    assert(done.push(ev) + run_delivered(map@, q0.skip(i + 1), qid) =~= done + (seq![ev]
                        + run_delivered(map@, q0.skip(i + 1), qid)));
                    if ev.destructor {
                        assert(killed@ + run_killed(map@, q0.skip(i + 1), qid) =~= k_before + (seq![
                            ev.target] + run_killed(map@, q0.skip(i + 1), qid)));
                    }
                    done = done.push(ev);
                    assert(self.log@ =~= log0 + done);
                }
                i = i + 1;
            }
        }
        let ghost mid_map = map@;
        proof {
            assert(q0.skip(i) =~= Seq::<QueuedView>::empty());
            assert(killed@.take(0) =~= Seq::<u32>::empty());
            assert(self.pending() =~= Seq::<QueuedView>::empty());
        }
        let mut j: usize = 0;
        while j < killed.len()
            invariant
                map.wf(),
                map.role() == old(map).role(),
                j <= killed@.len(),
                map@ == remove_dead(mid_map, killed@.take(j as int)),
            decreases killed.len() - j,
        {
            map.remove(killed[j]);
            proof {
                assert(killed@.take(j + 1).drop_last() =~= killed@.take(j as int));
            }
            j = j + 1;
        }
        assert(killed@.take(j as int) =~= killed@);
        count
    }
}

/// The messages of `q` addressed to object `x`, in order.
pub open spec fn messages_for(q: Seq<QueuedView>, x: u32) -> Seq<MessageView>
    decreases q.len(),
{
    if q.len() == 0 {
        seq![]
    } else if q[0].target == x {
        seq![q[0].msg] + messages_for(q.drop_first(), x)
    } else {
        messages_for(q.drop_first(), x)
    }
}

/// Whether `p` is a prefix of `s`.
pub open spec fn is_prefix<A>(p: Seq<A>, s: Seq<A>) -> bool {
    p.len() <= s.len() && p == s.take(p.len() as int)
}

/// An object that cannot take a message in `m` takes none in a run from `m`.
proof fn lemma_undeliverable_stays(m: Map<u32, Object>, q: Seq<QueuedView>, qid: u32, x: u32)
    requires
        !(live(m, x) matches Some(o) && o.queue == qid),
    ensures
        messages_for(run_delivered(m, q, qid), x) == Seq::<MessageView>::empty(),
    decreases q.len(),
{
    if q.len() > 0 {
        let e = q[0];
        if deliverable(m, e, qid) {
            let m2 = after_handling(m, e);
            assert(e.target != x);
            assert(live(m2, x) == live(m, x));
            lemma_undeliverable_stays(m2, q.drop_first(), qid, x);
            let rest = run_delivered(m2, q.drop_first(), qid);
            assert((seq![e] + rest).drop_first() =~= rest);
        } else {
            lemma_undeliverable_stays(m, q.drop_first(), qid, x);
        }
    }
}

/// Messages reach an object's handler in the order in which they were queued:
/// those handed to object `x` in a dispatch are the first ones queued for it,
/// in the same order. Any later ones were dropped because a destructor came first.
pub proof fn lemma_per_object_order(m: Map<u32, Object>, q: Seq<QueuedView>, qid: u32, x: u32)
    ensures
        is_prefix(messages_for(run_delivered(m, q, qid), x), messages_for(q, x)),
    decreases q.len(),
{
    if q.len() == 0 {
        assert(messages_for(q, x).take(0) =~= messages_for(q, x));
    }
    if q.len() > 0 {
        let e = q[0];
        let tail = q.drop_first();
        if deliverable(m, e, qid) {
            let m2 = after_handling(m, e);
            lemma_per_object_order(m2, tail, qid, x);
            let rest = run_delivered(m2, tail, qid);
            let d = seq![e] + rest;
            assert(d[0] == e);
            assert(d.drop_first() =~= rest);
            let a = messages_for(rest, x);
            let b = messages_for(tail, x);
            if e.target == x {
                assert(messages_for(d, x) == seq![e.msg] + a);
                assert(messages_for(q, x) == seq![e.msg] + b);
                assert((seq![e.msg] + b).take(1 + a.len() as int) =~= seq![e.msg] + b.take(a.len() as int));
            } else {
                assert(messages_for(d, x) == a);
                assert(messages_for(q, x) == b);
            }
        } else {
            lemma_per_object_order(m, tail, qid, x);
            assert(run_delivered(m, q, qid) == run_delivered(m, tail, qid));
            if e.target == x {
                lemma_undeliverable_stays(m, tail, qid, x);
                assert(messages_for(q, x).take(0) =~= Seq::<MessageView>::empty());
            } else {
                assert(messages_for(q, x) == messages_for(tail, x));
            }
        }
    }
}

/// A run never revives an object, nor forgets one that is dead.
proof fn lemma_run_keeps_dead(m: Map<u32, Object>, q: Seq<QueuedView>, qid: u32, x: u32)
    requires
        m.contains_key(x) && !m[x].alive,
    ensures
        run_map(m, q, qid).contains_key(x) && !run_map(m, q, qid)[x].alive,
    decreases q.len(),
{
    if q.len() > 0 {
        if deliverable(m, q[0], qid) {
            lemma_run_keeps_dead(after_handling(m, q[0]), q.drop_first(), qid, x);
        } else {
            lemma_run_keeps_dead(m, q.drop_first(), qid, x);
        }
    }
}

/// Each object that a run's destructors killed is dead at the end of the run.
proof fn lemma_killed_dead(m: Map<u32, Object>, q: Seq<QueuedView>, qid: u32, x: u32)
    requires
        run_killed(m, q, qid).contains(x),
    ensures
        run_map(m, q, qid).contains_key(x) && !run_map(m, q, qid)[x].alive,
    decreases q.len(),
{
    let e = q[0];
    let tail = q.drop_first();
    if deliverable(m, e, qid) {
        let m2 = after_handling(m, e);
        if e.destructor && e.target == x {
            lemma_run_keeps_dead(m2, tail, qid, x);
        } else {
            if e.destructor {
                let k = seq![e.target] + run_killed(m2, tail, qid);
                let j = choose|j: int| 0 <= j < k.len() && k[j] == x;
                assert(run_killed(m2, tail, qid)[j - 1] == x);
            }
            lemma_killed_dead(m2, tail, qid, x);
        }
    } else {
        lemma_killed_dead(m, tail, qid, x);
    }
}

/// Removing the dead only ever takes entries out.
proof fn lemma_remove_dead_shrinks(m: Map<u32, Object>, ids: Seq<u32>, x: u32)
    ensures
        remove_dead(m, ids).contains_key(x) ==> m.contains_key(x) && remove_dead(m, ids)[x] == m[x],
    decreases ids.len(),
{
    if ids.len() > 0 {
        lemma_remove_dead_shrinks(m, ids.drop_last(), x);
    }
}

/// Each dead object named in `ids` is gone once they have been removed.
proof fn lemma_remove_dead_gone(m: Map<u32, Object>, ids: Seq<u32>, x: u32)
    requires
        ids.contains(x),
        m.contains_key(x) && !m[x].alive,
    ensures
        !remove_dead(m, ids).contains_key(x),
    decreases ids.len(),
{
    let init = ids.drop_last();
    lemma_remove_dead_shrinks(m, init, x);
    if ids.last() != x {
        let j = choose|j: int| 0 <= j < ids.len() && ids[j] == x;
        assert(init[j] == x);
        lemma_remove_dead_gone(m, init, x);
    }
}

/// Once a batch has dispatched a destructor for an object, the object is gone
/// from the map: a later lookup finds nothing under its id.
pub proof fn lemma_destructor_final(m: Map<u32, Object>, q: Seq<QueuedView>, qid: u32, x: u32)
    requires
        run_killed(m, q, qid).contains(x),
    ensures
        !remove_dead(run_map(m, q, qid), run_killed(m, q, qid)).contains_key(x),
        live(remove_dead(run_map(m, q, qid), run_killed(m, q, qid)), x) is None,
{
    lemma_killed_dead(m, q, qid, x);
    lemma_remove_dead_gone(run_map(m, q, qid), run_killed(m, q, qid), x);
}

} // verus!
