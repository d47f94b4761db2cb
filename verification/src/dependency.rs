//! Dependency resolution for pending model-checking events.
//!
//! Two ordering rules are enforced. Messages between one ordered pair of
//! processes are delivered in send order: one FIFO queue per (source,
//! destination) pair. Timers of one process fire in non-decreasing delay
//! order, with insertion order breaking ties: per process, the earliest
//! inserted entry among those of minimal delay is the one allowed to fire.

use crate::mc_event::McEventId;
use crate::mc_time::McTime;
use vstd::prelude::*;

verus! {

/// One pending message: its payload and its event id.
#[derive(Clone, Debug)]
pub struct MsgEntry {
    /// Message payload.
    pub msg: String,
    /// Event id assigned by the event store.
    pub id: McEventId,
}

/// The FIFO queue of pending messages for one (source, destination) pair.
#[derive(Clone, Debug)]
pub struct MessageQueue {
    /// Sending process.
    pub src: String,
    /// Receiving process.
    pub dest: String,
    /// Pending messages, in insertion order; the head is deliverable.
    pub entries: Vec<MsgEntry>,
}

/// One pending timer: its delay and its event id.
#[derive(Clone, Copy, Debug)]
pub struct TimerEntry {
    /// Timer delay.
    pub delay: McTime,
    /// Event id assigned by the event store.
    pub id: McEventId,
}

/// The pending timers of one process, in insertion order.
#[derive(Clone, Debug)]
pub struct ProcTimers {
    /// The owning process.
    pub proc: String,
    /// Pending timers, in insertion order.
    pub entries: Vec<TimerEntry>,
}

/// Holds iff entry `k` is the earliest-inserted entry of minimal delay:
/// the one timer of the process that is allowed to fire.
pub open spec fn is_first_min(entries: Seq<TimerEntry>, k: int) -> bool {
    &&& 0 <= k < entries.len()
    &&& forall|j: int| 0 <= j < entries.len() ==> entries[k].delay.ticks <= #[trigger] entries[j].delay.ticks
    &&& forall|j: int| 0 <= j < k ==> entries[k].delay.ticks < #[trigger] entries[j].delay.ticks
}

/// The position of the earliest-inserted minimal-delay entry.
pub open spec fn first_min_index(entries: Seq<TimerEntry>) -> int {
    choose|k: int| is_first_min(entries, k)
}

/// The event id of the timer that is allowed to fire.
pub open spec fn first_min_id(entries: Seq<TimerEntry>) -> McEventId {
    entries[first_min_index(entries)].id
}

/// A non-empty timer list has exactly one first-minimal entry.
pub proof fn lemma_first_min_exists(entries: Seq<TimerEntry>)
    requires
        entries.len() > 0,
    ensures
        is_first_min(entries, first_min_index(entries)),
    decreases entries.len(),
{
    if entries.len() == 1 {
        assert(is_first_min(entries, 0));
    } else {
        let prefix = entries.drop_last();
        lemma_first_min_exists(prefix);
        let k = first_min_index(prefix);
        let last = entries.len() - 1;
        if entries[last].delay.ticks < entries[k].delay.ticks {
            assert(is_first_min(entries, last)) by {
                assert(forall|j: int| 0 <= j < last ==> prefix[j] == entries[j]);
            }
        } else {
            assert(is_first_min(entries, k)) by {
                assert(forall|j: int| 0 <= j < last ==> prefix[j] == entries[j]);
            }
        }
    }
    let k2 = choose|k2: int| is_first_min(entries, k2);
}

/// The first-minimal position is unique.
pub proof fn lemma_first_min_unique(entries: Seq<TimerEntry>, k1: int, k2: int)
    requires
        is_first_min(entries, k1),
        is_first_min(entries, k2),
    ensures
        k1 == k2,
{
    if k1 < k2 {
        assert(entries[k2].delay.ticks < entries[k1].delay.ticks);
        assert(entries[k1].delay.ticks <= entries[k2].delay.ticks);
    } else if k2 < k1 {
        assert(entries[k1].delay.ticks < entries[k2].delay.ticks);
        assert(entries[k2].delay.ticks <= entries[k1].delay.ticks);
    }
}

/// Message ids are pairwise distinct over all queues.
pub open spec fn msg_ids_unique(qs: Seq<MessageQueue>) -> bool {
    forall|qi: int, ei: int, qj: int, ej: int|
        0 <= qi < qs.len() && 0 <= ei < qs[qi].entries@.len() && 0 <= qj < qs.len() && 0 <= ej
            < qs[qj].entries@.len() && (qi != qj || ei != ej) ==> #[trigger] qs[qi].entries@[ei].id
            != #[trigger] qs[qj].entries@[ej].id
}

/// Timer ids are pairwise distinct over all processes.
pub open spec fn timer_ids_unique(ts: Seq<ProcTimers>) -> bool {
    forall|pi: int, ei: int, pj: int, ej: int|
        0 <= pi < ts.len() && 0 <= ei < ts[pi].entries@.len() && 0 <= pj < ts.len() && 0 <= ej
            < ts[pj].entries@.len() && (pi != pj || ei != ej) ==> #[trigger] ts[pi].entries@[ei].id
            != #[trigger] ts[pj].entries@[ej].id
}

/// Enforces causal ordering between pending events: per-pair message FIFO
/// and per-process timer order.
#[derive(Clone, Debug)]
pub struct DependencyResolver {
    queues: Vec<MessageQueue>,
    timers: Vec<ProcTimers>,
}

impl DependencyResolver {
    /// The per-pair message queues.
    pub closed spec fn queues(self) -> Seq<MessageQueue> {
        self.queues@
    }

    /// The per-process timer lists.
    pub closed spec fn timers(self) -> Seq<ProcTimers> {
        self.timers@
    }

    /// Representation invariant: keys are unique, ids are unique.
    pub open spec fn wf(self) -> bool {
        &&& forall|i: int, j: int|
            0 <= i < j < self.queues().len() ==> !(#[trigger] self.queues()[i].src@
                == #[trigger] self.queues()[j].src@ && self.queues()[i].dest@
                == self.queues()[j].dest@)
        &&& forall|i: int, j: int|
            0 <= i < j < self.timers().len() ==> #[trigger] self.timers()[i].proc@
                != #[trigger] self.timers()[j].proc@
        &&& msg_ids_unique(self.queues())
        &&& timer_ids_unique(self.timers())
    }

    /// Whether a queue for the ordered pair exists.
    pub open spec fn has_queue(self, src: Seq<char>, dest: Seq<char>) -> bool {
        exists|i: int|
            0 <= i < self.queues().len() && #[trigger] self.queues()[i].src@ == src
                && self.queues()[i].dest@ == dest
    }

    /// The index of the pair's queue; meaningful only when `has_queue`.
    pub open spec fn queue_index(self, src: Seq<char>, dest: Seq<char>) -> int {
        choose|i: int|
            0 <= i < self.queues().len() && #[trigger] self.queues()[i].src@ == src
                && self.queues()[i].dest@ == dest
    }

    /// The pending messages of the pair, in insertion order.
    pub open spec fn msg_entries(self, src: Seq<char>, dest: Seq<char>) -> Seq<MsgEntry> {
        if self.has_queue(src, dest) {
            self.queues()[self.queue_index(src, dest)].entries@
        } else {
            Seq::<MsgEntry>::empty()
        }
    }

    /// Whether a timer list for the process exists.
    pub open spec fn has_proc(self, proc: Seq<char>) -> bool {
        exists|i: int| 0 <= i < self.timers().len() && #[trigger] self.timers()[i].proc@ == proc
    }

    /// The index of the process's timer list; meaningful only when `has_proc`.
    pub open spec fn proc_index(self, proc: Seq<char>) -> int {
        choose|i: int| 0 <= i < self.timers().len() && #[trigger] self.timers()[i].proc@ == proc
    }

    /// The pending timers of the process, in insertion order.
    pub open spec fn timer_entries(self, proc: Seq<char>) -> Seq<TimerEntry> {
        if self.has_proc(proc) {
            self.timers()[self.proc_index(proc)].entries@
        } else {
            Seq::<TimerEntry>::empty()
        }
    }

    /// Whether some queue holds a message with event id `id`.
    pub open spec fn has_msg_id(self, id: McEventId) -> bool {
        exists|qi: int, ei: int|
            0 <= qi < self.queues().len() && 0 <= ei < self.queues()[qi].entries@.len()
                && #[trigger] self.queues()[qi].entries@[ei].id == id
    }

    /// Whether some process holds a timer with event id `id`.
    pub open spec fn has_timer_id(self, id: McEventId) -> bool {
        exists|pi: int, ei: int|
            0 <= pi < self.timers().len() && 0 <= ei < self.timers()[pi].entries@.len()
                && #[trigger] self.timers()[pi].entries@[ei].id == id
    }

    /// The process owning the timer with event id `id`.
    pub open spec fn timer_proc_of(self, id: McEventId) -> Seq<char> {
        let pi = choose|pi: int, ei: int|
            0 <= pi < self.timers().len() && 0 <= ei < self.timers()[pi].entries@.len()
                && #[trigger] self.timers()[pi].entries@[ei].id == id;
        self.timers()[pi.0].proc@
    }

    /// Creates a resolver with no pending events.
    pub fn new() -> (r: DependencyResolver)
        ensures
            r.wf(),
            r.queues() == Seq::<MessageQueue>::empty(),
            r.timers() == Seq::<ProcTimers>::empty(),
    {
        DependencyResolver { queues: Vec::new(), timers: Vec::new() }
    }
}

/// A queue index matches a pair key exactly when its fields do.
fn find_queue(qs: &Vec<MessageQueue>, src: &String, dest: &String) -> (r: Option<usize>)
    ensures
        match r {
            Some(i) => i < qs@.len() && qs@[i as int].src@ == src@ && qs@[i as int].dest@ == dest@,
            None => forall|i: int|
                0 <= i < qs@.len() ==> !(#[trigger] qs@[i].src@ == src@ && qs@[i].dest@ == dest@),
        },
{
    let n = qs.len();
    let mut i: usize = 0;
    while i < n
        invariant
            n == qs@.len(),
            0 <= i <= n,
            forall|k: int| 0 <= k < i ==> !(#[trigger] qs@[k].src@ == src@ && qs@[k].dest@ == dest@),
        decreases n - i,
    {
        if qs[i].src == *src && qs[i].dest == *dest {
            return Some(i);
        }
        i += 1;
    }
    None
}

/// A timer-list index matches a process exactly when its field does.
fn find_proc(ts: &Vec<ProcTimers>, proc: &String) -> (r: Option<usize>)
    ensures
        match r {
            Some(i) => i < ts@.len() && ts@[i as int].proc@ == proc@,
            None => forall|i: int| 0 <= i < ts@.len() ==> #[trigger] ts@[i].proc@ != proc@,
        },
{
    let n = ts.len();
    let mut i: usize = 0;
    while i < n
        invariant
            n == ts@.len(),
            0 <= i <= n,
            forall|k: int| 0 <= k < i ==> #[trigger] ts@[k].proc@ != proc@,
        decreases n - i,
    {
        if ts[i].proc == *proc {
            return Some(i);
        }
        i += 1;
    }
    None
}

/// Mutable access to one queue, leaving the others as they were.
fn queue_at_mut(qs: &mut Vec<MessageQueue>, i: usize) -> (r: &mut MessageQueue)
    requires
        i < old(qs)@.len(),
    ensures
        *r == old(qs)@[i as int],
        final(qs)@ == old(qs)@.update(i as int, *final(r)),
{
    &mut qs[i]
}

/// Mutable access to one process's timers, leaving the others as they were.
fn proc_at_mut(ts: &mut Vec<ProcTimers>, i: usize) -> (r: &mut ProcTimers)
    requires
        i < old(ts)@.len(),
    ensures
        *r == old(ts)@[i as int],
        final(ts)@ == old(ts)@.update(i as int, *final(r)),
{
    &mut ts[i]
}

/// Under `wf`, a queue index is the unique witness for its own key.
pub proof fn lemma_queue_lookup(r: DependencyResolver, i: int)
    requires
        r.wf(),
        0 <= i < r.queues().len(),
    ensures
        r.has_queue(r.queues()[i].src@, r.queues()[i].dest@),
        r.queue_index(r.queues()[i].src@, r.queues()[i].dest@) == i,
        r.msg_entries(r.queues()[i].src@, r.queues()[i].dest@) == r.queues()[i].entries@,
{
    let src = r.queues()[i].src@;
    let dest = r.queues()[i].dest@;
    assert(r.has_queue(src, dest));
    let j = r.queue_index(src, dest);
    if j != i {
        if j < i {
            assert(!(r.queues()[j].src@ == r.queues()[i].src@ && r.queues()[j].dest@
                == r.queues()[i].dest@));
        } else {
            assert(!(r.queues()[i].src@ == r.queues()[j].src@ && r.queues()[i].dest@
                == r.queues()[j].dest@));
        }
    }
}

/// Under `wf`, a timer-list index is the unique witness for its process.
pub proof fn lemma_proc_lookup(r: DependencyResolver, i: int)
    requires
        r.wf(),
        0 <= i < r.timers().len(),
    ensures
        r.has_proc(r.timers()[i].proc@),
        r.proc_index(r.timers()[i].proc@) == i,
        r.timer_entries(r.timers()[i].proc@) == r.timers()[i].entries@,
{
    let proc = r.timers()[i].proc@;
    assert(r.has_proc(proc));
    let j = r.proc_index(proc);
    if j != i {
        if j < i {
            assert(r.timers()[j].proc@ != r.timers()[i].proc@);
        } else {
            assert(r.timers()[i].proc@ != r.timers()[j].proc@);
        }
    }
}

/// Two resolver states that agree on all queues except one whose key is
/// unchanged agree on every other pair's entries.
pub proof fn lemma_queues_update_others(a: DependencyResolver, b: DependencyResolver, i: int)
    requires
        a.wf(),
        0 <= i < a.queues().len(),
        b.queues().len() == a.queues().len(),
        forall|j: int| 0 <= j < a.queues().len() && j != i ==> a.queues()[j] == b.queues()[j],
        b.queues()[i].src@ == a.queues()[i].src@,
        b.queues()[i].dest@ == a.queues()[i].dest@,
    ensures
        forall|s2: Seq<char>, d2: Seq<char>|
            !(s2 == a.queues()[i].src@ && d2 == a.queues()[i].dest@) ==> #[trigger] b.msg_entries(
                s2,
                d2,
            ) == a.msg_entries(s2, d2),
        forall|s2: Seq<char>, d2: Seq<char>|
            #[trigger] b.has_queue(s2, d2) == a.has_queue(s2, d2),
{
    assert forall|s2: Seq<char>, d2: Seq<char>| #[trigger]
        b.has_queue(s2, d2) == a.has_queue(s2, d2) by {
        if a.has_queue(s2, d2) {
            let j = choose|j: int|
                0 <= j < a.queues().len() && #[trigger] a.queues()[j].src@ == s2
                    && a.queues()[j].dest@ == d2;
            assert(b.queues()[j].src@ == s2 && b.queues()[j].dest@ == d2);
        }
        if b.has_queue(s2, d2) {
            let j = choose|j: int|
                0 <= j < b.queues().len() && #[trigger] b.queues()[j].src@ == s2
                    && b.queues()[j].dest@ == d2;
            assert(a.queues()[j].src@ == s2 && a.queues()[j].dest@ == d2);
        }
    }
    assert forall|s2: Seq<char>, d2: Seq<char>|
        !(s2 == a.queues()[i].src@ && d2 == a.queues()[i].dest@) implies #[trigger] b.msg_entries(
        s2,
        d2,
    ) == a.msg_entries(s2, d2) by {
        if a.has_queue(s2, d2) {
            let ja = a.queue_index(s2, d2);
            assert(0 <= ja < a.queues().len() && a.queues()[ja].src@ == s2 && a.queues()[ja].dest@
                == d2);
            assert(ja != i);
            let jb = b.queue_index(s2, d2);
            assert(b.queues()[ja].src@ == s2 && b.queues()[ja].dest@ == d2);
            assert(0 <= jb < b.queues().len() && b.queues()[jb].src@ == s2 && b.queues()[jb].dest@
                == d2);
            assert(jb != i);
            if ja != jb {
                let lo = if ja < jb {
                    ja
                } else {
                    jb
                };
                let hi = if ja < jb {
                    jb
                } else {
                    ja
                };
                assert(a.queues()[lo].src@ == s2 && a.queues()[hi].src@ == s2);
                assert(!(a.queues()[lo].src@ == a.queues()[hi].src@ && a.queues()[lo].dest@
                    == a.queues()[hi].dest@));
            }
        }
    }
}

/// Two resolver states that agree on all timer lists except one whose
/// process is unchanged agree on every other process's entries.
pub proof fn lemma_timers_update_others(a: DependencyResolver, b: DependencyResolver, i: int)
    requires
        a.wf(),
        0 <= i < a.timers().len(),
        b.timers().len() == a.timers().len(),
        forall|j: int| 0 <= j < a.timers().len() && j != i ==> a.timers()[j] == b.timers()[j],
        b.timers()[i].proc@ == a.timers()[i].proc@,
    ensures
        forall|p2: Seq<char>|
            p2 != a.timers()[i].proc@ ==> #[trigger] b.timer_entries(p2) == a.timer_entries(p2),
        forall|p2: Seq<char>| #[trigger] b.has_proc(p2) == a.has_proc(p2),
{
    assert forall|p2: Seq<char>| #[trigger] b.has_proc(p2) == a.has_proc(p2) by {
        if a.has_proc(p2) {
            let j = choose|j: int|
                0 <= j < a.timers().len() && #[trigger] a.timers()[j].proc@ == p2;
            assert(b.timers()[j].proc@ == p2);
        }
        if b.has_proc(p2) {
            let j = choose|j: int|
                0 <= j < b.timers().len() && #[trigger] b.timers()[j].proc@ == p2;
            assert(a.timers()[j].proc@ == p2);
        }
    }
    assert forall|p2: Seq<char>| p2 != a.timers()[i].proc@ implies #[trigger] b.timer_entries(p2)
        == a.timer_entries(p2) by {
        if a.has_proc(p2) {
            let ja = a.proc_index(p2);
            assert(0 <= ja < a.timers().len() && a.timers()[ja].proc@ == p2);
            assert(ja != i);
            let jb = b.proc_index(p2);
            assert(b.timers()[ja].proc@ == p2);
            assert(0 <= jb < b.timers().len() && b.timers()[jb].proc@ == p2);
            assert(jb != i);
            if ja != jb {
                let lo = if ja < jb {
                    ja
                } else {
                    jb
                };
                let hi = if ja < jb {
                    jb
                } else {
                    ja
                };
                assert(a.timers()[lo].proc@ == p2 && a.timers()[hi].proc@ == p2);
                assert(a.timers()[lo].proc@ != a.timers()[hi].proc@);
            }
        }
    }
}

/// Resolver states with equal timer lists agree on every process's entries.
pub proof fn lemma_timer_entries_congruent(a: DependencyResolver, b: DependencyResolver, p: Seq<
    char,
>)
    requires
        a.wf(),
        a.timers() == b.timers(),
    ensures
        a.has_proc(p) == b.has_proc(p),
        a.timer_entries(p) == b.timer_entries(p),
{
    assert(a.has_proc(p) == b.has_proc(p)) by {
        if a.has_proc(p) {
            let j = choose|j: int| 0 <= j < a.timers().len() && #[trigger] a.timers()[j].proc@ == p;
            assert(b.timers()[j].proc@ == p);
        }
        if b.has_proc(p) {
            let j = choose|j: int| 0 <= j < b.timers().len() && #[trigger] b.timers()[j].proc@ == p;
            assert(a.timers()[j].proc@ == p);
        }
    }
    if a.has_proc(p) {
        let ja = a.proc_index(p);
        let jb = b.proc_index(p);
        assert(0 <= ja < a.timers().len() && a.timers()[ja].proc@ == p);
        assert(0 <= jb < b.timers().len() && b.timers()[jb].proc@ == p);
        if ja != jb {
            let lo = if ja < jb {
                ja
            } else {
                jb
            };
            let hi = if ja < jb {
                jb
            } else {
                ja
            };
            assert(a.timers()[lo].proc@ != a.timers()[hi].proc@);
        }
    }
}

/// Resolver states with equal queue lists agree on every pair's entries.
pub proof fn lemma_msg_entries_congruent(
    a: DependencyResolver,
    b: DependencyResolver,
    s: Seq<char>,
    d: Seq<char>,
)
    requires
        a.wf(),
        a.queues() == b.queues(),
    ensures
        a.has_queue(s, d) == b.has_queue(s, d),
        a.msg_entries(s, d) == b.msg_entries(s, d),
{
    assert(a.has_queue(s, d) == b.has_queue(s, d)) by {
        if a.has_queue(s, d) {
            let j = choose|j: int|
                0 <= j < a.queues().len() && #[trigger] a.queues()[j].src@ == s
                    && a.queues()[j].dest@ == d;
            assert(b.queues()[j].src@ == s && b.queues()[j].dest@ == d);
        }
        if b.has_queue(s, d) {
            let j = choose|j: int|
                0 <= j < b.queues().len() && #[trigger] b.queues()[j].src@ == s
                    && b.queues()[j].dest@ == d;
            assert(a.queues()[j].src@ == s && a.queues()[j].dest@ == d);
        }
    }
    if a.has_queue(s, d) {
        let ja = a.queue_index(s, d);
        let jb = b.queue_index(s, d);
        assert(0 <= ja < a.queues().len() && a.queues()[ja].src@ == s && a.queues()[ja].dest@ == d);
        assert(0 <= jb < b.queues().len() && b.queues()[jb].src@ == s && b.queues()[jb].dest@ == d);
        if ja != jb {
            let lo = if ja < jb {
                ja
            } else {
                jb
            };
            let hi = if ja < jb {
                jb
            } else {
                ja
            };
            assert(!(a.queues()[lo].src@ == a.queues()[hi].src@ && a.queues()[lo].dest@
                == a.queues()[hi].dest@));
        }
    }
}

/// Removing an entry other than the first-minimal one leaves the
/// first-minimal timer unchanged.
pub proof fn lemma_first_min_remove_stable(es: Seq<TimerEntry>, k: int)
    requires
        0 <= k < es.len(),
        es.len() > 1,
        is_first_min(es, first_min_index(es)),
        k != first_min_index(es),
    ensures
        is_first_min(
            es.remove(k),
            if first_min_index(es) < k {
                first_min_index(es)
            } else {
                first_min_index(es) - 1
            },
        ),
        first_min_index(es.remove(k)) == if first_min_index(es) < k {
            first_min_index(es)
        } else {
            first_min_index(es) - 1
        },
        first_min_id(es.remove(k)) == first_min_id(es),
{
    let fm = first_min_index(es);
    let new = es.remove(k);
    let nfm: int = if fm < k {
        fm
    } else {
        fm - 1
    };
    assert(new[nfm] == es[fm]);
    assert(is_first_min(new, nfm)) by {
        assert forall|j: int| 0 <= j < new.len() implies new[nfm].delay.ticks
            <= #[trigger] new[j].delay.ticks by {
            let pj: int = if j < k {
                j
            } else {
                j + 1
            };
            assert(new[j] == es[pj]);
        }
        assert forall|j: int| 0 <= j < nfm implies new[nfm].delay.ticks
            < #[trigger] new[j].delay.ticks by {
            let pj: int = if j < k {
                j
            } else {
                j + 1
            };
            assert(new[j] == es[pj]);
            assert(pj < fm);
        }
    }
    assert(exists|k2: int| is_first_min(new, k2));
    lemma_first_min_unique(new, nfm, first_min_index(new));
}

/// Appending a timer that does not undercut the pending minimum leaves the
/// first-minimal entry where it was.
pub proof fn lemma_first_min_push_stable(es: Seq<TimerEntry>, e: TimerEntry)
    requires
        es.len() > 0,
        !is_first_min(es.push(e), es.len() as int),
    ensures
        is_first_min(es.push(e), first_min_index(es)),
        first_min_index(es.push(e)) == first_min_index(es),
        first_min_id(es.push(e)) == first_min_id(es),
        is_first_min(es, first_min_index(es)),
{
    lemma_first_min_exists(es);
    let k = first_min_index(es);
    let new = es.push(e);
    let n = es.len() as int;
    assert(es[k].delay.ticks <= e.delay.ticks) by {
        if forall|j: int| 0 <= j < n ==> (#[trigger] es[j].delay.ticks) > e.delay.ticks {
            assert(is_first_min(new, n)) by {
                assert forall|j: int| 0 <= j < new.len() implies new[n].delay.ticks
                    <= #[trigger] new[j].delay.ticks by {
                    if j < n {
                        assert(new[j] == es[j]);
                    }
                }
                assert forall|j: int| 0 <= j < n implies new[n].delay.ticks
                    < #[trigger] new[j].delay.ticks by {
                    assert(new[j] == es[j]);
                }
            }
        } else {
            let j = choose|j: int| 0 <= j < n && !((#[trigger] es[j].delay.ticks) > e.delay.ticks);
            assert(es[k].delay.ticks <= es[j].delay.ticks);
        }
    }
    assert(is_first_min(new, k)) by {
        assert forall|j: int| 0 <= j < new.len() implies new[k].delay.ticks
            <= #[trigger] new[j].delay.ticks by {
            if j < n {
                assert(new[j] == es[j]);
            } else {
                assert(new[j] == e);
            }
        }
        assert forall|j: int| 0 <= j < k implies new[k].delay.ticks
            < #[trigger] new[j].delay.ticks by {
            assert(new[j] == es[j]);
        }
    }
    assert(exists|k2: int| is_first_min(new, k2));
    lemma_first_min_unique(new, k, first_min_index(new));
}

impl DependencyResolver {
    /// Appends the message to its pair's FIFO queue. Returns true exactly
    /// when the message is now at the head, hence immediately deliverable.
    pub fn add_message(&mut self, msg: String, src: String, dest: String, id: McEventId) -> (avail:
        bool)
        requires
            old(self).wf(),
            !old(self).has_msg_id(id),
        ensures
            final(self).wf(),
            final(self).timers() == old(self).timers(),
            final(self).has_queue(src@, dest@),
            final(self).msg_entries(src@, dest@) == old(self).msg_entries(src@, dest@).push(
                MsgEntry { msg, id },
            ),
            forall|s2: Seq<char>, d2: Seq<char>|
                !(s2 == src@ && d2 == dest@) ==> #[trigger] final(self).msg_entries(s2, d2) == old(
                    self,
                ).msg_entries(s2, d2),
            forall|id2: McEventId|
                #[trigger] final(self).has_msg_id(id2) <==> old(self).has_msg_id(id2) || id2 == id,
            avail == (old(self).msg_entries(src@, dest@).len() == 0),
    {
        let ghost pre = *self;
        match find_queue(&self.queues, &src, &dest) {
            Some(i) => {
                proof {
                    lemma_queue_lookup(pre, i as int);
                }
                let q = queue_at_mut(&mut self.queues, i);
                let was_empty = q.entries.len() == 0;
                let ghost old_entries = q.entries@;
                q.entries.push(MsgEntry { msg, id });
                proof {
                    let post = *self;
                    assert(post.queues()[i as int].entries@ == old_entries.push(
                        MsgEntry { msg, id },
                    ));
                    assert(post.queues()[i as int].src@ == src@ && post.queues()[i as int].dest@
                        == dest@);
                    assert(forall|j: int|
                        0 <= j < pre.queues().len() && j != i ==> pre.queues()[j]
                            == post.queues()[j]);
                    assert(post.wf()) by {
                        assert forall|qi: int, ei: int, qj: int, ej: int|
                            0 <= qi < post.queues().len() && 0 <= ei
                                < post.queues()[qi].entries@.len() && 0 <= qj
                                < post.queues().len() && 0 <= ej < post.queues()[qj].entries@.len()
                                && (qi != qj || ei != ej) implies #[trigger] post.queues()[qi].entries@[ei].id
                            != #[trigger] post.queues()[qj].entries@[ej].id by {
                            if qi == i && ei == old_entries.len() {
                                assert(post.queues()[qj].entries@[ej]
                                    == pre.queues()[qj].entries@[ej]);
                                assert(!pre.has_msg_id(id));
                            } else if qj == i && ej == old_entries.len() {
                                assert(post.queues()[qi].entries@[ei]
                                    == pre.queues()[qi].entries@[ei]);
                                assert(!pre.has_msg_id(id));
                            } else {
                                assert(post.queues()[qi].entries@[ei]
                                    == pre.queues()[qi].entries@[ei]);
                                assert(post.queues()[qj].entries@[ej]
                                    == pre.queues()[qj].entries@[ej]);
                            }
                        }
                    }
                    lemma_queue_lookup(post, i as int);
                    lemma_queues_update_others(pre, post, i as int);
                    assert forall|id2: McEventId| #[trigger]
                        post.has_msg_id(id2) <==> pre.has_msg_id(id2) || id2 == id by {
                        if post.has_msg_id(id2) {
                            let (qi, ei) = choose|qi: int, ei: int|
                                0 <= qi < post.queues().len() && 0 <= ei
                                    < post.queues()[qi].entries@.len()
                                    && #[trigger] post.queues()[qi].entries@[ei].id == id2;
                            if qi == i && ei == old_entries.len() {
                                assert(id2 == id);
                            } else {
                                assert(pre.queues()[qi].entries@[ei].id == id2);
                            }
                        }
                        if pre.has_msg_id(id2) {
                            let (qi, ei) = choose|qi: int, ei: int|
                                0 <= qi < pre.queues().len() && 0 <= ei
                                    < pre.queues()[qi].entries@.len()
                                    && #[trigger] pre.queues()[qi].entries@[ei].id == id2;
                            assert(post.queues()[qi].entries@[ei].id == id2);
                        }
                        if id2 == id {
                            assert(post.queues()[i as int].entries@[old_entries.len() as int].id
                                == id);
                        }
                    }
                }
                was_empty
            },
            None => {
                let mut entries: Vec<MsgEntry> = Vec::new();
                entries.push(MsgEntry { msg, id });
                let ghost new_q_entries = entries@;
                self.queues.push(MessageQueue { src, dest, entries });
                proof {
                    let post = *self;
                    let n = pre.queues().len();
                    assert(post.queues()[n as int].entries@ == new_q_entries);
                    assert(post.wf()) by {
                        assert forall|qi: int, ei: int, qj: int, ej: int|
                            0 <= qi < post.queues().len() && 0 <= ei
                                < post.queues()[qi].entries@.len() && 0 <= qj
                                < post.queues().len() && 0 <= ej < post.queues()[qj].entries@.len()
                                && (qi != qj || ei != ej) implies #[trigger] post.queues()[qi].entries@[ei].id
                            != #[trigger] post.queues()[qj].entries@[ej].id by {
                            if qi == n {
                                assert(post.queues()[qj].entries@[ej]
                                    == pre.queues()[qj].entries@[ej]);
                                assert(!pre.has_msg_id(id));
                            } else if qj == n {
                                assert(post.queues()[qi].entries@[ei]
                                    == pre.queues()[qi].entries@[ei]);
                                assert(!pre.has_msg_id(id));
                            } else {
                                assert(post.queues()[qi].entries@[ei]
                                    == pre.queues()[qi].entries@[ei]);
                                assert(post.queues()[qj].entries@[ej]
                                    == pre.queues()[qj].entries@[ej]);
                            }
                        }
                    }
                    assert(post.has_queue(src@, dest@)) by {
                        assert(post.queues()[n as int].src@ == src@ && post.queues()[n as int].dest@
                            == dest@);
                    }
                    assert(post.queue_index(src@, dest@) == n) by {
                        lemma_queue_lookup(post, n as int);
                    }
                    assert(!pre.has_queue(src@, dest@));
                    assert(post.msg_entries(src@, dest@) == pre.msg_entries(src@, dest@).push(
                        MsgEntry { msg, id },
                    )) by {
                        assert(pre.msg_entries(src@, dest@) == Seq::<MsgEntry>::empty());
                        assert(post.msg_entries(src@, dest@) == new_q_entries);
                        assert(new_q_entries == Seq::<MsgEntry>::empty().push(MsgEntry { msg, id }));
                    }
                    assert forall|s2: Seq<char>, d2: Seq<char>|
                        !(s2 == src@ && d2 == dest@) implies #[trigger] post.msg_entries(s2, d2)
                        == pre.msg_entries(s2, d2) by {
                        if pre.has_queue(s2, d2) {
                            let ja = pre.queue_index(s2, d2);
                            assert(post.queues()[ja] == pre.queues()[ja]);
                            assert(post.has_queue(s2, d2));
                            lemma_queue_lookup(post, ja);
                            lemma_queue_lookup(pre, ja);
                        } else {
                            if post.has_queue(s2, d2) {
                                let jb = choose|jb: int|
                                    0 <= jb < post.queues().len()
                                        && #[trigger] post.queues()[jb].src@ == s2
                                        && post.queues()[jb].dest@ == d2;
                                if jb == n {
                                    assert(s2 == src@ && d2 == dest@);
                                } else {
                                    assert(pre.queues()[jb].src@ == s2 && pre.queues()[jb].dest@
                                        == d2);
                                }
                            }
                        }
                    }
                    assert forall|id2: McEventId| #[trigger]
                        post.has_msg_id(id2) <==> pre.has_msg_id(id2) || id2 == id by {
                        if post.has_msg_id(id2) {
                            let (qi, ei) = choose|qi: int, ei: int|
                                0 <= qi < post.queues().len() && 0 <= ei
                                    < post.queues()[qi].entries@.len()
                                    && #[trigger] post.queues()[qi].entries@[ei].id == id2;
                            if qi == n {
                                assert(id2 == id);
                            } else {
                                assert(pre.queues()[qi].entries@[ei].id == id2);
                            }
                        }
                        if pre.has_msg_id(id2) {
                            let (qi, ei) = choose|qi: int, ei: int|
                                0 <= qi < pre.queues().len() && 0 <= ei
                                    < pre.queues()[qi].entries@.len()
                                    && #[trigger] pre.queues()[qi].entries@[ei].id == id2;
                            assert(post.queues()[qi].entries@[ei].id == id2);
                        }
                        if id2 == id {
                            assert(post.queues()[n as int].entries@[0].id == id);
                        }
                    }
                }
                true
            },
        }
    }

    /// Records the timer. Returns true exactly when it is now the timer of
    /// its process that is allowed to fire, which holds when its delay is
    /// strictly below every delay already pending for the process.
    pub fn add_timer(&mut self, proc: String, delay: McTime, id: McEventId) -> (avail: bool)
        requires
            old(self).wf(),
            !old(self).has_timer_id(id),
        ensures
            final(self).wf(),
            final(self).queues() == old(self).queues(),
            final(self).has_proc(proc@),
            final(self).timer_entries(proc@) == old(self).timer_entries(proc@).push(
                TimerEntry { delay, id },
            ),
            forall|p2: Seq<char>|
                p2 != proc@ ==> #[trigger] final(self).timer_entries(p2) == old(self).timer_entries(
                    p2,
                ),
            forall|id2: McEventId|
                #[trigger] final(self).has_timer_id(id2) <==> old(self).has_timer_id(id2) || id2
                    == id,
            avail == is_first_min(
                final(self).timer_entries(proc@),
                old(self).timer_entries(proc@).len() as int,
            ),
    {
        let ghost pre = *self;
        let mut all_greater = true;
        let pos = find_proc(&self.timers, &proc);
        if let Some(i) = pos {
            proof {
                lemma_proc_lookup(pre, i as int);
            }
            let n = self.timers[i].entries.len();
            let mut k: usize = 0;
            while k < n
                invariant
                    *self == pre,
                    0 <= i < pre.timers().len(),
                    n == pre.timers()[i as int].entries@.len(),
                    0 <= k <= n,
                    all_greater == forall|j: int|
                        0 <= j < k ==> #[trigger] pre.timers()[i as int].entries@[j].delay.ticks
                            > delay.ticks,
                decreases n - k,
            {
                if self.timers[i].entries[k].delay.ticks <= delay.ticks {
                    all_greater = false;
                }
                k += 1;
            }
            let t = proc_at_mut(&mut self.timers, i);
            let ghost old_entries = t.entries@;
            t.entries.push(TimerEntry { delay, id });
            proof {
                let post = *self;
                assert(post.timers()[i as int].entries@ == old_entries.push(
                    TimerEntry { delay, id },
                ));
                assert(post.timers()[i as int].proc@ == proc@);
                assert(forall|j: int|
                    0 <= j < pre.timers().len() && j != i ==> pre.timers()[j] == post.timers()[j]);
                assert(post.wf()) by {
                    assert forall|pi: int, ei: int, pj: int, ej: int|
                        0 <= pi < post.timers().len() && 0 <= ei < post.timers()[pi].entries@.len()
                            && 0 <= pj < post.timers().len() && 0 <= ej
                            < post.timers()[pj].entries@.len() && (pi != pj || ei != ej) implies #[trigger] post.timers()[pi].entries@[ei].id
                        != #[trigger] post.timers()[pj].entries@[ej].id by {
                        if pi == i && ei == old_entries.len() {
                            assert(post.timers()[pj].entries@[ej] == pre.timers()[pj].entries@[ej]);
                            assert(!pre.has_timer_id(id));
                        } else if pj == i && ej == old_entries.len() {
                            assert(post.timers()[pi].entries@[ei] == pre.timers()[pi].entries@[ei]);
                            assert(!pre.has_timer_id(id));
                        } else {
                            assert(post.timers()[pi].entries@[ei] == pre.timers()[pi].entries@[ei]);
                            assert(post.timers()[pj].entries@[ej] == pre.timers()[pj].entries@[ej]);
                        }
                    }
                }
                lemma_proc_lookup(post, i as int);
                lemma_timers_update_others(pre, post, i as int);
                assert forall|id2: McEventId| #[trigger]
                    post.has_timer_id(id2) <==> pre.has_timer_id(id2) || id2 == id by {
                    if post.has_timer_id(id2) {
                        let (pi, ei) = choose|pi: int, ei: int|
                            0 <= pi < post.timers().len() && 0 <= ei
                                < post.timers()[pi].entries@.len()
                                && #[trigger] post.timers()[pi].entries@[ei].id == id2;
                        if pi == i && ei == old_entries.len() {
                            assert(id2 == id);
                        } else {
                            assert(pre.timers()[pi].entries@[ei].id == id2);
                        }
                    }
                    if pre.has_timer_id(id2) {
                        let (pi, ei) = choose|pi: int, ei: int|
                            0 <= pi < pre.timers().len() && 0 <= ei < pre.timers()[pi].entries@.len(
                            ) && #[trigger] pre.timers()[pi].entries@[ei].id == id2;
                        assert(post.timers()[pi].entries@[ei].id == id2);
                    }
                    if id2 == id {
                        assert(post.timers()[i as int].entries@[old_entries.len() as int].id == id);
                    }
                }
                assert(all_greater == is_first_min(
                    post.timer_entries(proc@),
                    old_entries.len() as int,
                )) by {
                    let es = post.timer_entries(proc@);
                    let k2 = old_entries.len() as int;
                    if all_greater {
                        assert forall|j: int| 0 <= j < es.len() implies es[k2].delay.ticks
                            <= #[trigger] es[j].delay.ticks by {
                            if j < k2 {
                                assert(es[j] == old_entries[j]);
                            }
                        }
                        assert forall|j: int| 0 <= j < k2 implies es[k2].delay.ticks
                            < #[trigger] es[j].delay.ticks by {
                            assert(es[j] == old_entries[j]);
                        }
                    } else {
                        let j = choose|j: int|
                            0 <= j < k2 && !(#[trigger] old_entries[j].delay.ticks > delay.ticks);
                        assert(es[j] == old_entries[j]);
                    }
                }
            }
            all_greater
        } else {
            let mut entries: Vec<TimerEntry> = Vec::new();
            entries.push(TimerEntry { delay, id });
            let ghost new_entries = entries@;
            self.timers.push(ProcTimers { proc, entries });
            proof {
                let post = *self;
                let n = pre.timers().len();
                assert(post.timers()[n as int].entries@ == new_entries);
                assert(post.wf()) by {
                    assert forall|pi: int, ei: int, pj: int, ej: int|
                        0 <= pi < post.timers().len() && 0 <= ei < post.timers()[pi].entries@.len()
                            && 0 <= pj < post.timers().len() && 0 <= ej
                            < post.timers()[pj].entries@.len() && (pi != pj || ei != ej) implies #[trigger] post.timers()[pi].entries@[ei].id
                        != #[trigger] post.timers()[pj].entries@[ej].id by {
                        if pi == n {
                            assert(post.timers()[pj].entries@[ej] == pre.timers()[pj].entries@[ej]);
                            assert(!pre.has_timer_id(id));
                        } else if pj == n {
                            assert(post.timers()[pi].entries@[ei] == pre.timers()[pi].entries@[ei]);
                            assert(!pre.has_timer_id(id));
                        } else {
                            assert(post.timers()[pi].entries@[ei] == pre.timers()[pi].entries@[ei]);
                            assert(post.timers()[pj].entries@[ej] == pre.timers()[pj].entries@[ej]);
                        }
                    }
                }
                assert(post.has_proc(proc@)) by {
                    assert(post.timers()[n as int].proc@ == proc@);
                }
                lemma_proc_lookup(post, n as int);
                assert(!pre.has_proc(proc@));
                assert(post.timer_entries(proc@) == pre.timer_entries(proc@).push(
                    TimerEntry { delay, id },
                )) by {
                    assert(pre.timer_entries(proc@) == Seq::<TimerEntry>::empty());
                    assert(new_entries == Seq::<TimerEntry>::empty().push(TimerEntry { delay, id }));
                }
                assert forall|p2: Seq<char>| p2 != proc@ implies #[trigger] post.timer_entries(p2)
                    == pre.timer_entries(p2) by {
                    if pre.has_proc(p2) {
                        let ja = pre.proc_index(p2);
                        assert(post.timers()[ja] == pre.timers()[ja]);
                        lemma_proc_lookup(post, ja);
                        lemma_proc_lookup(pre, ja);
                    } else {
                        if post.has_proc(p2) {
                            let jb = choose|jb: int|
                                0 <= jb < post.timers().len() && #[trigger] post.timers()[jb].proc@
                                    == p2;
                            if jb == n {
                                assert(p2 == proc@);
                            } else {
                                assert(pre.timers()[jb].proc@ == p2);
                            }
                        }
                    }
                }
                assert forall|id2: McEventId| #[trigger]
                    post.has_timer_id(id2) <==> pre.has_timer_id(id2) || id2 == id by {
                    if post.has_timer_id(id2) {
                        let (pi, ei) = choose|pi: int, ei: int|
                            0 <= pi < post.timers().len() && 0 <= ei
                                < post.timers()[pi].entries@.len()
                                && #[trigger] post.timers()[pi].entries@[ei].id == id2;
                        if pi == n {
                            assert(id2 == id);
                        } else {
                            assert(pre.timers()[pi].entries@[ei].id == id2);
                        }
                    }
                    if pre.has_timer_id(id2) {
                        let (pi, ei) = choose|pi: int, ei: int|
                            0 <= pi < pre.timers().len() && 0 <= ei < pre.timers()[pi].entries@.len(
                            ) && #[trigger] pre.timers()[pi].entries@[ei].id == id2;
                        assert(post.timers()[pi].entries@[ei].id == id2);
                    }
                    if id2 == id {
                        assert(post.timers()[n as int].entries@[0].id == id);
                    }
                }
                assert(is_first_min(post.timer_entries(proc@), 0));
            }
            true
        }
    }

    /// Pops the head of the pair's FIFO queue, whose payload must match the
    /// given message. Returns the id of the new head when one remains: that
    /// message becomes deliverable.
    pub fn remove_message(&mut self, msg: &String, src: &String, dest: &String) -> (r: Option<
        McEventId,
    >)
        requires
            old(self).wf(),
            old(self).msg_entries(src@, dest@).len() > 0,
            old(self).msg_entries(src@, dest@)[0].msg@ == msg@,
        ensures
            final(self).wf(),
            final(self).timers() == old(self).timers(),
            final(self).msg_entries(src@, dest@) == old(self).msg_entries(src@, dest@).skip(1),
            forall|s2: Seq<char>, d2: Seq<char>|
                !(s2 == src@ && d2 == dest@) ==> #[trigger] final(self).msg_entries(s2, d2) == old(
                    self,
                ).msg_entries(s2, d2),
            forall|id2: McEventId|
                #[trigger] final(self).has_msg_id(id2) <==> old(self).has_msg_id(id2) && id2 != old(
                    self,
                ).msg_entries(src@, dest@)[0].id,
            r == if old(self).msg_entries(src@, dest@).len() > 1 {
                Some(old(self).msg_entries(src@, dest@)[1].id)
            } else {
                Option::<McEventId>::None
            },
    {
        let ghost pre = *self;
        let ghost head_id = pre.msg_entries(src@, dest@)[0].id;
        let pos = find_queue(&self.queues, src, dest);
        let i = match pos {
            Some(i) => i,
            None => {
                proof {
                    assert(!pre.has_queue(src@, dest@));
                    assert(false);
                }
                0
            },
        };
        proof {
            lemma_queue_lookup(pre, i as int);
        }
        let q = queue_at_mut(&mut self.queues, i);
        let ghost old_entries = q.entries@;
        q.entries.remove(0);
        let r = if q.entries.len() > 0 {
            Some(q.entries[0].id)
        } else {
            None
        };
        proof {
            let post = *self;
            assert(post.queues()[i as int].entries@ == old_entries.remove(0));
            assert(post.queues()[i as int].entries@ =~= old_entries.skip(1));
            assert(post.queues()[i as int].src@ == src@ && post.queues()[i as int].dest@ == dest@);
            assert(forall|j: int|
                0 <= j < pre.queues().len() && j != i ==> pre.queues()[j] == post.queues()[j]);
            assert(post.wf()) by {
                assert forall|qi: int, ei: int, qj: int, ej: int|
                    0 <= qi < post.queues().len() && 0 <= ei < post.queues()[qi].entries@.len() && 0
                        <= qj < post.queues().len() && 0 <= ej < post.queues()[qj].entries@.len()
                        && (qi != qj || ei != ej) implies #[trigger] post.queues()[qi].entries@[ei].id
                    != #[trigger] post.queues()[qj].entries@[ej].id by {
                    let pei: int = if qi == i {
                        ei + 1
                    } else {
                        ei
                    };
                    let pej: int = if qj == i {
                        ej + 1
                    } else {
                        ej
                    };
                    assert(post.queues()[qi].entries@[ei] == pre.queues()[qi].entries@[pei]);
                    assert(post.queues()[qj].entries@[ej] == pre.queues()[qj].entries@[pej]);
                }
            }
            lemma_queue_lookup(post, i as int);
            lemma_queues_update_others(pre, post, i as int);
            assert forall|id2: McEventId| #[trigger]
                post.has_msg_id(id2) <==> (pre.has_msg_id(id2) && id2 != head_id) by {
                if post.has_msg_id(id2) {
                    let (qi, ei) = choose|qi: int, ei: int|
                        0 <= qi < post.queues().len() && 0 <= ei < post.queues()[qi].entries@.len()
                            && #[trigger] post.queues()[qi].entries@[ei].id == id2;
                    let pei: int = if qi == i {
                        ei + 1
                    } else {
                        ei
                    };
                    assert(pre.queues()[qi].entries@[pei].id == id2);
                    assert(pre.queues()[i as int].entries@[0].id == head_id);
                    assert(id2 != head_id);
                }
                if pre.has_msg_id(id2) && id2 != head_id {
                    let (qi, ei) = choose|qi: int, ei: int|
                        0 <= qi < pre.queues().len() && 0 <= ei < pre.queues()[qi].entries@.len()
                            && #[trigger] pre.queues()[qi].entries@[ei].id == id2;
                    if qi == i {
                        assert(pre.queues()[i as int].entries@[0].id == head_id);
                        assert(ei != 0);
                        assert(post.queues()[qi].entries@[ei - 1].id == id2);
                    } else {
                        assert(post.queues()[qi].entries@[ei].id == id2);
                    }
                }
            }
        }
        r
    }

    /// Removes the timer with event id `id` from its process. Returns the
    /// id of the timer of that process that is allowed to fire afterwards,
    /// if any timer remains.
    pub fn remove_timer(&mut self, id: McEventId) -> (r: Option<McEventId>)
        requires
            old(self).wf(),
            old(self).has_timer_id(id),
        ensures
            final(self).wf(),
            final(self).queues() == old(self).queues(),
            ({
                let p = old(self).timer_proc_of(id);
                let es = old(self).timer_entries(p);
                let k = choose|k: int| 0 <= k < es.len() && #[trigger] es[k].id == id;
                &&& final(self).timer_entries(p) == es.remove(k)
                &&& forall|p2: Seq<char>|
                    p2 != p ==> #[trigger] final(self).timer_entries(p2) == old(
                        self,
                    ).timer_entries(p2)
                &&& r == if es.len() > 1 {
                    Some(first_min_id(final(self).timer_entries(p)))
                } else {
                    Option::<McEventId>::None
                }
                &&& (r is Some ==> is_first_min(
                    final(self).timer_entries(p),
                    first_min_index(final(self).timer_entries(p)),
                ))
            }),
            forall|id2: McEventId|
                #[trigger] final(self).has_timer_id(id2) <==> old(self).has_timer_id(id2) && id2
                    != id,
    {
        let ghost pre = *self;
        let (i, j) = find_timer(&self.timers, id);
        proof {
            lemma_proc_lookup(pre, i as int);
            let (pi, ei) = choose|pi: int, ei: int|
                0 <= pi < pre.timers().len() && 0 <= ei < pre.timers()[pi].entries@.len()
                    && #[trigger] pre.timers()[pi].entries@[ei].id == id;
            assert(pi == i as int && ei == j as int);
            assert(pre.timer_proc_of(id) == pre.timers()[i as int].proc@);
            let es = pre.timer_entries(pre.timer_proc_of(id));
            let k = choose|k: int| 0 <= k < es.len() && #[trigger] es[k].id == id;
            assert(es[j as int].id == id);
            assert(k == j as int);
        }
        let t = proc_at_mut(&mut self.timers, i);
        let ghost old_entries = t.entries@;
        t.entries.remove(j);
        let r = if t.entries.len() > 0 {
            let m = find_first_min_idx(&t.entries);
            let ghost new_entries = t.entries@;
            proof {
                assert(exists|k2: int| is_first_min(new_entries, k2)) by {
                    assert(is_first_min(new_entries, m as int));
                }
                lemma_first_min_unique(new_entries, m as int, first_min_index(new_entries));
                assert(first_min_id(new_entries) == new_entries[m as int].id);
            }
            Some(t.entries[m].id)
        } else {
            None
        };
        proof {
            let post = *self;
            assert(post.timers()[i as int].entries@ == old_entries.remove(j as int));
            assert(post.timers()[i as int].proc@ == pre.timers()[i as int].proc@);
            assert(forall|k2: int|
                0 <= k2 < pre.timers().len() && k2 != i ==> pre.timers()[k2] == post.timers()[k2]);
            assert(post.wf()) by {
                assert forall|pi: int, ei: int, pj: int, ej: int|
                    0 <= pi < post.timers().len() && 0 <= ei < post.timers()[pi].entries@.len() && 0
                        <= pj < post.timers().len() && 0 <= ej < post.timers()[pj].entries@.len()
                        && (pi != pj || ei != ej) implies #[trigger] post.timers()[pi].entries@[ei].id
                    != #[trigger] post.timers()[pj].entries@[ej].id by {
                    let pei: int = if pi == i && ei >= j {
                        ei + 1
                    } else {
                        ei
                    };
                    let pej: int = if pj == i && ej >= j {
                        ej + 1
                    } else {
                        ej
                    };
                    assert(post.timers()[pi].entries@[ei] == pre.timers()[pi].entries@[pei]);
                    assert(post.timers()[pj].entries@[ej] == pre.timers()[pj].entries@[pej]);
                }
            }
            lemma_proc_lookup(post, i as int);
            lemma_timers_update_others(pre, post, i as int);
            if old_entries.len() > 1 {
                let m = choose|m: int| is_first_min(post.timers()[i as int].entries@, m);
            }
            assert forall|id2: McEventId| #[trigger]
                post.has_timer_id(id2) <==> (pre.has_timer_id(id2) && id2 != id) by {
                if post.has_timer_id(id2) {
                    let (pi, ei) = choose|pi: int, ei: int|
                        0 <= pi < post.timers().len() && 0 <= ei < post.timers()[pi].entries@.len()
                            && #[trigger] post.timers()[pi].entries@[ei].id == id2;
                    let pei: int = if pi == i && ei >= j {
                        ei + 1
                    } else {
                        ei
                    };
                    assert(pre.timers()[pi].entries@[pei].id == id2);
                    assert(pre.timers()[i as int].entries@[j as int].id == id);
                    assert(id2 != id);
                }
                if pre.has_timer_id(id2) && id2 != id {
                    let (pi, ei) = choose|pi: int, ei: int|
                        0 <= pi < pre.timers().len() && 0 <= ei < pre.timers()[pi].entries@.len()
                            && #[trigger] pre.timers()[pi].entries@[ei].id == id2;
                    if pi == i {
                        assert(ei != j);
                        if ei > j {
                            assert(post.timers()[pi].entries@[ei - 1].id == id2);
                        } else {
                            assert(post.timers()[pi].entries@[ei].id == id2);
                        }
                    } else {
                        assert(post.timers()[pi].entries@[ei].id == id2);
                    }
                }
            }
            if r is Some {
                let m = choose|m: int| is_first_min(post.timers()[i as int].entries@, m);
            }
        }
        r
    }
}

/// Locates the process index and entry index of the timer with id `id`.
fn find_timer(ts: &Vec<ProcTimers>, id: McEventId) -> (r: (usize, usize))
    requires
        exists|pi: int, ei: int|
            0 <= pi < ts@.len() && 0 <= ei < ts@[pi].entries@.len()
                && #[trigger] ts@[pi].entries@[ei].id == id,
    ensures
        r.0 < ts@.len(),
        r.1 < ts@[r.0 as int].entries@.len(),
        ts@[r.0 as int].entries@[r.1 as int].id == id,
{
    let n = ts.len();
    let mut i: usize = 0;
    while i < n
        invariant
            n == ts@.len(),
            0 <= i <= n,
            exists|pi: int, ei: int|
                0 <= pi < ts@.len() && 0 <= ei < ts@[pi].entries@.len()
                    && #[trigger] ts@[pi].entries@[ei].id == id,
            forall|pi: int, ei: int|
                0 <= pi < i && 0 <= ei < ts@[pi].entries@.len()
                    ==> #[trigger] ts@[pi].entries@[ei].id != id,
        decreases n - i,
    {
        let m = ts[i].entries.len();
        let mut k: usize = 0;
        while k < m
            invariant
                n == ts@.len(),
                0 <= i < n,
                m == ts@[i as int].entries@.len(),
                0 <= k <= m,
                forall|ei: int| 0 <= ei < k ==> #[trigger] ts@[i as int].entries@[ei].id != id,
            decreases m - k,
        {
            if ts[i].entries[k].id == id {
                return (i, k);
            }
            k += 1;
        }
        i += 1;
    }
    proof {
        let (pi, ei) = choose|pi: int, ei: int|
            0 <= pi < ts@.len() && 0 <= ei < ts@[pi].entries@.len()
                && #[trigger] ts@[pi].entries@[ei].id == id;
        assert(false);
    }
    (0, 0)
}

/// Finds the position of the earliest-inserted minimal-delay timer.
fn find_first_min_idx(entries: &Vec<TimerEntry>) -> (r: usize)
    requires
        entries@.len() > 0,
    ensures
        is_first_min(entries@, r as int),
{
    let n = entries.len();
    let mut best: usize = 0;
    let mut k: usize = 1;
    while k < n
        invariant
            n == entries@.len(),
            0 <= best < k <= n,
            forall|j: int|
                0 <= j < k ==> entries@[best as int].delay.ticks
                    <= #[trigger] entries@[j].delay.ticks,
            forall|j: int|
                0 <= j < best ==> entries@[best as int].delay.ticks
                    < #[trigger] entries@[j].delay.ticks,
        decreases n - k,
    {
        if entries[k].delay.ticks < entries[best].delay.ticks {
            best = k;
        }
        k += 1;
    }
    best
}

} // verus!
