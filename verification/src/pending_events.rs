//! Store of pending model-checking events.
//!
//! Events are keyed by a stable id assigned at insertion. The store exposes
//! the subset of events whose firing is consistent with causal ordering:
//! per-pair message FIFO and per-process timer order, enforced through a
//! [`DependencyResolver`]. Directives (cancellations and drops) preempt all
//! ordinary events.

use crate::dependency::{
    first_min_id, first_min_index, is_first_min, DependencyResolver, MsgEntry, TimerEntry,
};
use crate::id_set::IdSet;
use crate::mc_event::{McEvent, McEventId};
use vstd::prelude::*;

verus! {

/// One stored event together with its id.
#[derive(Clone, Debug)]
pub struct EventEntry {
    /// The id assigned at insertion.
    pub id: McEventId,
    /// The stored event.
    pub event: McEvent,
}

/// One entry of the timer index: (process, timer name) to event id.
#[derive(Clone, Debug)]
pub struct TimerMapEntry {
    /// The process that set the timer.
    pub proc: String,
    /// The timer name.
    pub timer: String,
    /// The id of the pending `TimerFired` event.
    pub id: McEventId,
}

/// Stores pending events and exposes the causally available subset.
#[derive(Clone, Debug)]
pub struct PendingEvents {
    events: Vec<EventEntry>,
    timer_mapping: Vec<TimerMapEntry>,
    available_events: IdSet,
    directives: IdSet,
    resolver: DependencyResolver,
    id_counter: McEventId,
}

/// Appending an entry with a fresh id extends the id lookup and changes no
/// stored event.
pub proof fn lemma_push_lookup(a: PendingEvents, b: PendingEvents, e: EventEntry)
    requires
        a.ids_unique(),
        !a.has_event(e.id),
        b.events() == a.events().push(e),
    ensures
        b.ids_unique(),
        forall|x: McEventId| #[trigger] b.has_event(x) <==> a.has_event(x) || x == e.id,
        forall|x: McEventId|
            a.has_event(x) ==> #[trigger] b.event_of(x) == a.event_of(x) && b.event_index(x)
                == a.event_index(x),
        b.has_event(e.id),
        b.event_of(e.id) == e.event,
        b.event_index(e.id) == a.events().len(),
{
    let n = a.events().len() as int;
    assert(b.ids_unique()) by {
        assert forall|i: int, j: int| 0 <= i < j < b.events().len() implies (
        #[trigger] b.events()[i]).id != (#[trigger] b.events()[j]).id by {
            if j < n {
                assert(b.events()[i] == a.events()[i] && b.events()[j] == a.events()[j]);
            } else {
                assert(b.events()[i] == a.events()[i]);
                if a.events()[i].id == e.id {
                    assert(a.has_event(e.id));
                }
            }
        }
    }
    assert forall|x: McEventId| #[trigger] b.has_event(x) <==> a.has_event(x) || x == e.id by {
        if b.has_event(x) {
            let i = choose|i: int|
                0 <= i < b.events().len() && (#[trigger] b.events()[i]).id == x;
            if i < n {
                assert(a.events()[i].id == x);
            }
        }
        if a.has_event(x) {
            let i = choose|i: int|
                0 <= i < a.events().len() && (#[trigger] a.events()[i]).id == x;
            assert(b.events()[i].id == x);
        }
        if x == e.id {
            assert(b.events()[n].id == x);
        }
    }
    assert forall|x: McEventId| a.has_event(x) implies #[trigger] b.event_of(x) == a.event_of(x)
        && b.event_index(x) == a.event_index(x) by {
        let i = a.event_index(x);
        assert(0 <= i < a.events().len() && a.events()[i].id == x);
        assert(b.events()[i].id == x);
        assert(b.has_event(x));
        let j = b.event_index(x);
        assert(0 <= j < b.events().len() && b.events()[j].id == x);
        if j == n {
            assert(x == e.id);
            assert(a.has_event(e.id));
            assert(false);
        }
        assert(b.events()[j] == a.events()[j]);
        if i != j {
            if i < j {
                assert(a.events()[i].id != a.events()[j].id);
            } else {
                assert(a.events()[j].id != a.events()[i].id);
            }
            assert(false);
        }
    }
    assert(b.events()[n].id == e.id);
    assert(b.has_event(e.id));
    let j = b.event_index(e.id);
    assert(0 <= j < b.events().len() && b.events()[j].id == e.id);
    if j < n {
        assert(a.events()[j].id == e.id);
        assert(a.has_event(e.id));
    }
}

/// Removing one entry keeps every other id pending with its event unchanged.
pub proof fn lemma_remove_lookup(a: PendingEvents, b: PendingEvents, k: int)
    requires
        a.ids_unique(),
        0 <= k < a.events().len(),
        b.events() == a.events().remove(k),
    ensures
        b.ids_unique(),
        forall|x: McEventId|
            #[trigger] b.has_event(x) <==> a.has_event(x) && x != a.events()[k].id,
        forall|x: McEventId| b.has_event(x) ==> #[trigger] b.event_of(x) == a.event_of(x),
{
    let n = a.events().len() as int;
    let rid = a.events()[k].id;
    assert(b.ids_unique()) by {
        assert forall|i: int, j: int| 0 <= i < j < b.events().len() implies (
        #[trigger] b.events()[i]).id != (#[trigger] b.events()[j]).id by {
            let pi: int = if i < k {
                i
            } else {
                i + 1
            };
            let pj: int = if j < k {
                j
            } else {
                j + 1
            };
            assert(b.events()[i] == a.events()[pi] && b.events()[j] == a.events()[pj]);
        }
    }
    assert forall|x: McEventId| #[trigger] b.has_event(x) <==> a.has_event(x) && x != rid by {
        if b.has_event(x) {
            let i = choose|i: int|
                0 <= i < b.events().len() && (#[trigger] b.events()[i]).id == x;
            let pi: int = if i < k {
                i
            } else {
                i + 1
            };
            assert(a.events()[pi].id == x);
            if pi < k {
                assert(a.events()[pi].id != a.events()[k].id);
            } else {
                assert(a.events()[k].id != a.events()[pi].id);
            }
        }
        if a.has_event(x) && x != rid {
            let i = choose|i: int|
                0 <= i < a.events().len() && (#[trigger] a.events()[i]).id == x;
            if i < k {
                assert(b.events()[i].id == x);
            } else {
                assert(i != k);
                assert(b.events()[i - 1].id == x);
            }
        }
    }
    assert forall|x: McEventId| b.has_event(x) implies #[trigger] b.event_of(x) == a.event_of(
        x,
    ) by {
        let i = b.event_index(x);
        assert(0 <= i < b.events().len() && b.events()[i].id == x);
        let pi: int = if i < k {
            i
        } else {
            i + 1
        };
        assert(b.events()[i] == a.events()[pi]);
        let j = a.event_index(x);
        assert(0 <= j < a.events().len() && a.events()[j].id == x);
        if j != pi {
            if j < pi {
                assert(a.events()[j].id != a.events()[pi].id);
            } else {
                assert(a.events()[pi].id != a.events()[j].id);
            }
        }
    }
}

/// Locates the position of the event with id `id`.
fn find_event_idx(events: &Vec<EventEntry>, id: McEventId) -> (r: usize)
    requires
        exists|i: int| 0 <= i < events@.len() && (#[trigger] events@[i]).id == id,
    ensures
        r < events@.len(),
        events@[r as int].id == id,
{
    let n = events.len();
    let mut i: usize = 0;
    while i < n
        invariant
            n == events@.len(),
            0 <= i <= n,
            exists|k: int| 0 <= k < events@.len() && (#[trigger] events@[k]).id == id,
            forall|k: int| 0 <= k < i ==> (#[trigger] events@[k]).id != id,
        decreases n - i,
    {
        if events[i].id == id {
            return i;
        }
        i += 1;
    }
    proof {
        let k = choose|k: int| 0 <= k < events@.len() && (#[trigger] events@[k]).id == id;
        assert(false);
    }
    0
}

/// Locates the timer-index entry with id `id`, if any.
fn find_mapping_idx_opt(maps: &Vec<TimerMapEntry>, id: McEventId) -> (r: Option<usize>)
    ensures
        match r {
            Some(i) => i < maps@.len() && maps@[i as int].id == id,
            None => forall|k: int| 0 <= k < maps@.len() ==> (#[trigger] maps@[k]).id != id,
        },
{
    let n = maps.len();
    let mut i: usize = 0;
    while i < n
        invariant
            n == maps@.len(),
            0 <= i <= n,
            forall|k: int| 0 <= k < i ==> (#[trigger] maps@[k]).id != id,
        decreases n - i,
    {
        if maps[i].id == id {
            return Some(i);
        }
        i += 1;
    }
    None
}

/// Popping a head message preserves the store invariant: the pair's queue
/// drops its head and the new head, if any, becomes available.
#[verifier::rlimit(100)]
#[verifier::spinoff_prover]
proof fn lemma_pop_msg_wf(pre: PendingEvents, post: PendingEvents, ev: McEvent, id: McEventId)
    requires
        pre.wf(),
        pre.has_event(id),
        pre.event_of(id) == ev,
        ev is MessageReceived,
        post.events() == pre.events().remove(pre.event_index(id)),
        post.counter() == pre.counter(),
        post.mapping() == pre.mapping(),
        post.available().wf(),
        post.directive_ids().wf(),
        forall|d: McEventId|
            #[trigger] post.directive_ids().has(d) <==> pre.directive_ids().has(d) && d != id,
        post.resolver().wf(),
        post.resolver().timers() == pre.resolver().timers(),
        ev matches McEvent::MessageReceived { msg, src, dest } ==> {
            &&& pre.resolver().msg_entries(src@, dest@).len() > 0
            &&& pre.resolver().msg_entries(src@, dest@)[0].id == id
            &&& post.resolver().msg_entries(src@, dest@) == pre.resolver().msg_entries(
                src@,
                dest@,
            ).skip(1)
            &&& forall|s2: Seq<char>, d2: Seq<char>|
                !(s2 == src@ && d2 == dest@) ==> #[trigger] post.resolver().msg_entries(s2, d2)
                    == pre.resolver().msg_entries(s2, d2)
            &&& forall|a: McEventId|
                #[trigger] post.available().has(a) <==> (pre.available().has(a) && a != id) || (
                pre.resolver().msg_entries(src@, dest@).len() > 1 && a == pre.resolver().msg_entries(
                    src@,
                    dest@,
                )[1].id)
        },
    ensures
        post.wf(),
        pre.timer_order() ==> post.timer_order(),
        forall|x: McEventId| #[trigger] post.has_event(x) <==> pre.has_event(x) && x != id,
        forall|x: McEventId|
            post.has_event(x) ==> #[trigger] post.event_of(x) == pre.event_of(x),
{
    let k = pre.event_index(id);
    assert(0 <= k < pre.events().len() && pre.events()[k].id == id);
    lemma_remove_lookup(pre, post, k);
    assert(post.counter_dominates()) by {
        assert forall|i: int| 0 <= i < post.events().len() implies (
        #[trigger] post.events()[i]).id < post.counter() by {
            let pi: int = if i < k {
                i
            } else {
                i + 1
            };
            assert(post.events()[i] == pre.events()[pi]);
        }
    }
    match ev {
        McEvent::MessageReceived { msg, src, dest } => {
            let rpre = pre.resolver();
            let rpost = post.resolver();
            let key_s = src@;
            let key_d = dest@;
            let pre_es = rpre.msg_entries(key_s, key_d);
            let post_es = rpost.msg_entries(key_s, key_d);
            assert(post_es == pre_es.skip(1));
            assert forall|i: int| 0 <= i < post.events().len() implies post.msg_linked(i) by {
                let pi: int = if i < k {
                    i
                } else {
                    i + 1
                };
                assert(post.events()[i] == pre.events()[pi]);
                assert(pre.msg_linked(pi));
                match post.events()[i].event {
                    McEvent::MessageReceived { msg: m2, src: s2, dest: d2 } => {
                        let es2 = rpre.msg_entries(s2@, d2@);
                        let ei = choose|ei: int|
                            0 <= ei < es2.len() && (#[trigger] es2[ei]).id == pre.events()[pi].id
                                && es2[ei].msg@ == m2@;
                        assert(pre.events()[pi].id != id) by {
                            if pi < k {
                                assert(pre.events()[pi].id != pre.events()[k].id);
                            } else {
                                assert(pre.events()[k].id != pre.events()[pi].id);
                            }
                        }
                        if s2@ == key_s && d2@ == key_d {
                            assert(ei != 0) by {
                                assert(es2[0].id == id);
                            }
                            assert(post_es[ei - 1] == pre_es[ei]);
                        } else {
                            assert(rpost.msg_entries(s2@, d2@) == es2);
                        }
                    },
                    _ => {},
                }
            }
            assert forall|qi: int, ei: int|
                0 <= qi < rpost.queues().len() && 0 <= ei
                    < rpost.queues()[qi].entries@.len() implies #[trigger] post.msg_entry_linked(
                qi,
                ei,
            ) by {
                let q = rpost.queues()[qi];
                crate::dependency::lemma_queue_lookup(rpost, qi);
                let eid = q.entries@[ei].id;
                if q.src@ == key_s && q.dest@ == key_d {
                    assert(q.entries@[ei] == pre_es[ei + 1]);
                    pre.lemma_msg_entry_linked_key(key_s, key_d, ei + 1);
                    assert(eid != id) by {
                        assert(rpre.has_queue(key_s, key_d));
                        let pqi = rpre.queue_index(key_s, key_d);
                        crate::dependency::lemma_queue_lookup(rpre, pqi);
                        assert(rpre.queues()[pqi].entries@[0].id != rpre.queues()[pqi].entries@[ei
                            + 1].id);
                    }
                } else {
                    let es2 = rpre.msg_entries(q.src@, q.dest@);
                    assert(rpost.msg_entries(q.src@, q.dest@) == es2);
                    pre.lemma_msg_entry_linked_key(q.src@, q.dest@, ei);
                    assert(eid != id) by {
                        if eid == id {
                            assert(pre.event_of(id) matches McEvent::MessageReceived {
                                msg: m3,
                                src: s3,
                                dest: d3,
                            } && s3@ == q.src@ && d3@ == q.dest@);
                        }
                    }
                }
            }
            assert forall|i: int| 0 <= i < post.events().len() implies post.timer_linked(i) by {
                let pi: int = if i < k {
                    i
                } else {
                    i + 1
                };
                assert(post.events()[i] == pre.events()[pi]);
                assert(pre.timer_linked(pi));
                match post.events()[i].event {
                    McEvent::TimerFired { proc: p2, timer: t2, timer_delay: d2 } => {
                        crate::dependency::lemma_timer_entries_congruent(rpre, rpost, p2@);
                    },
                    _ => {},
                }
            }
            assert forall|pi: int, ei: int|
                0 <= pi < rpost.timers().len() && 0 <= ei
                    < rpost.timers()[pi].entries@.len() implies #[trigger] post.timer_entry_linked(
                pi,
                ei,
            ) by {
                assert(rpost.timers()[pi] == rpre.timers()[pi]);
                assert(pre.timer_entry_linked(pi, ei));
                let eid = rpre.timers()[pi].entries@[ei].id;
                assert(eid != id) by {
                    if eid == id {
                        assert(pre.event_of(id) is TimerFired);
                    }
                }
            }
            assert(post.mapping_wf()) by {
                assert forall|i: int| 0 <= i < post.mapping().len() implies {
                    let m = #[trigger] post.mapping()[i];
                    &&& post.has_event(m.id)
                    &&& (post.event_of(m.id) matches McEvent::TimerFired {
                        proc: p2,
                        timer: t2,
                        timer_delay: d2,
                    }
                        && p2@ == m.proc@ && t2@ == m.timer@)
                } by {
                    assert(post.mapping()[i] == pre.mapping()[i]);
                    let m = pre.mapping()[i];
                    assert(m.id != id) by {
                        if m.id == id {
                            assert(pre.event_of(id) is TimerFired);
                        }
                    }
                }
            }
            assert(post.directives_exact()) by {
                assert forall|d: McEventId| #[trigger]
                    post.directive_ids().has(d) <==> post.has_event(d) && post.event_of(
                    d,
                ).is_directive() by {
                    if d != id && pre.has_event(d) {
                        assert(post.event_of(d) == pre.event_of(d));
                    }
                }
            }
            assert(post.avail_pending()) by {
                assert forall|a: McEventId| #[trigger] post.available().has(a) implies
                post.has_event(a) && !post.event_of(a).is_directive() by {
                    if pre.available().has(a) && a != id {
                        assert(pre.has_event(a));
                    } else {
                        assert(pre_es.len() > 1 && a == pre_es[1].id);
                        pre.lemma_msg_entry_linked_key(key_s, key_d, 1);
                        assert(a != id) by {
                            assert(rpre.has_queue(key_s, key_d));
                            let pqi = rpre.queue_index(key_s, key_d);
                            crate::dependency::lemma_queue_lookup(rpre, pqi);
                            assert(rpre.queues()[pqi].entries@[0].id
                                != rpre.queues()[pqi].entries@[1].id);
                        }
                    }
                }
            }
            assert(post.heads_avail()) by {
                assert forall|qi: int|
                    0 <= qi < rpost.queues().len() && (#[trigger] rpost.queues()[qi]).entries@.len()
                        > 0 implies post.available().has(rpost.queues()[qi].entries@[0].id) by {
                    let q = rpost.queues()[qi];
                    crate::dependency::lemma_queue_lookup(rpost, qi);
                    if q.src@ == key_s && q.dest@ == key_d {
                        assert(q.entries@[0] == pre_es[1]);
                    } else {
                        let es2 = rpre.msg_entries(q.src@, q.dest@);
                        assert(rpost.msg_entries(q.src@, q.dest@) == es2);
                        pre.lemma_head_avail_key(q.src@, q.dest@);
                        pre.lemma_msg_entry_linked_key(q.src@, q.dest@, 0);
                        assert(es2[0].id != id) by {
                            if es2[0].id == id {
                                assert(pre.event_of(id) matches McEvent::MessageReceived {
                                    msg: m3,
                                    src: s3,
                                    dest: d3,
                                } && s3@ == q.src@ && d3@ == q.dest@);
                            }
                        }
                    }
                }
            }
            assert(post.avail_msgs_are_heads()) by {
                assert forall|a: McEventId|
                    #[trigger] post.available().has(a) && post.has_event(a) implies (post.event_of(
                    a,
                ) matches McEvent::MessageReceived { msg: m2, src: s2, dest: d2 } ==> {
                    let es2 = rpost.msg_entries(s2@, d2@);
                    es2.len() > 0 && es2[0].id == a
                }) by {
                    if pre_es.len() > 1 && a == pre_es[1].id {
                        pre.lemma_msg_entry_linked_key(key_s, key_d, 1);
                        assert(post.event_of(a) == pre.event_of(a));
                        assert(post_es[0] == pre_es[1]);
                    } else {
                        assert(pre.available().has(a) && a != id);
                        assert(post.event_of(a) == pre.event_of(a));
                        match post.event_of(a) {
                            McEvent::MessageReceived { msg: m2, src: s2, dest: d2 } => {
                                if s2@ == key_s && d2@ == key_d {
                                    assert(pre_es[0].id == a);
                                    assert(false);
                                } else {
                                    assert(rpost.msg_entries(s2@, d2@) == rpre.msg_entries(
                                        s2@,
                                        d2@,
                                    ));
                                }
                            },
                            _ => {},
                        }
                    }
                }
            }
            assert(post.mins_avail()) by {
                assert forall|pi: int|
                    0 <= pi < rpost.timers().len() && (#[trigger] rpost.timers()[pi]).entries@.len()
                        > 0 implies post.available().has(
                    crate::dependency::first_min_id(rpost.timers()[pi].entries@),
                ) by {
                    assert(rpost.timers()[pi] == rpre.timers()[pi]);
                    assert(rpre.timers()[pi].entries@.len() > 0);
                    assert(pre.available().has(
                        crate::dependency::first_min_id(rpre.timers()[pi].entries@),
                    ));
                    let m = crate::dependency::first_min_id(rpre.timers()[pi].entries@);
                    assert(m != id) by {
                        crate::dependency::lemma_first_min_exists(rpre.timers()[pi].entries@);
                        let fmi = first_min_index(rpre.timers()[pi].entries@);
                        assert(pre.timer_entry_linked(pi, fmi));
                        if m == id {
                            assert(pre.event_of(id) is TimerFired);
                        }
                    }
                }
            }
            if pre.timer_order() {
                assert(post.timer_order()) by {
                    assert forall|a: McEventId|
                        #[trigger] post.available().has(a) && post.has_event(a) implies (
                    post.event_of(a) matches McEvent::TimerFired {
                        proc: p2,
                        timer: t2,
                        timer_delay: dl2,
                    } ==> {
                        let es2 = rpost.timer_entries(p2@);
                        es2.len() > 0 && crate::dependency::first_min_id(es2) == a
                    }) by {
                        assert(post.event_of(a) == pre.event_of(a));
                        match post.event_of(a) {
                            McEvent::TimerFired { proc: p2, timer: t2, timer_delay: dl2 } => {
                                assert(pre.available().has(a)) by {
                                    if pre_es.len() > 1 && a == pre_es[1].id {
                                        pre.lemma_msg_entry_linked_key(key_s, key_d, 1);
                                    }
                                }
                                crate::dependency::lemma_timer_entries_congruent(rpre, rpost, p2@);
                            },
                            _ => {},
                        }
                    }
                }
            }
        },
        _ => {},
    }
}

/// Popping a timer preserves the store invariant: the process's entry is
/// removed, its index entry is removed, and the process's newly
/// first-minimal timer, if any, becomes available.
#[verifier::rlimit(100)]
#[verifier::spinoff_prover]
proof fn lemma_pop_timer_wf(pre: PendingEvents, post: PendingEvents, ev: McEvent, id: McEventId)
    requires
        pre.wf(),
        pre.has_event(id),
        pre.event_of(id) == ev,
        ev is TimerFired,
        post.events() == pre.events().remove(pre.event_index(id)),
        post.counter() == pre.counter(),
        post.available().wf(),
        post.directive_ids().wf(),
        forall|d: McEventId|
            #[trigger] post.directive_ids().has(d) <==> pre.directive_ids().has(d) && d != id,
        post.resolver().wf(),
        post.resolver().queues() == pre.resolver().queues(),
        if exists|mi: int| 0 <= mi < pre.mapping().len() && (#[trigger] pre.mapping()[mi]).id
            == id {
            exists|mi: int|
                0 <= mi < pre.mapping().len() && (#[trigger] pre.mapping()[mi]).id == id
                    && post.mapping() == pre.mapping().remove(mi)
        } else {
            post.mapping() == pre.mapping()
        },
        ev matches McEvent::TimerFired { proc, timer, timer_delay } ==> {
            let es = pre.resolver().timer_entries(proc@);
            &&& exists|j: int|
                0 <= j < es.len() && (#[trigger] es[j]).id == id && post.resolver().timer_entries(
                    proc@,
                ) == es.remove(j)
            &&& forall|p2: Seq<char>|
                p2 != proc@ ==> #[trigger] post.resolver().timer_entries(p2)
                    == pre.resolver().timer_entries(p2)
            &&& forall|a: McEventId|
                #[trigger] post.available().has(a) <==> (pre.available().has(a) && a != id) || (
                post.resolver().timer_entries(proc@).len() > 0 && a == crate::dependency::first_min_id(
                    post.resolver().timer_entries(proc@),
                ))
        },
    ensures
        post.wf(),
        pre.timer_order() ==> post.timer_order(),
        ev matches McEvent::TimerFired { proc, timer, timer_delay } ==> ((exists|mi: int|
            0 <= mi < pre.mapping().len() && (#[trigger] pre.mapping()[mi]).id == id)
            ==> !post.has_timer_key(proc@, timer@)),
        forall|x: McEventId| #[trigger] post.has_event(x) <==> pre.has_event(x) && x != id,
        forall|x: McEventId|
            post.has_event(x) ==> #[trigger] post.event_of(x) == pre.event_of(x),
{
    let k = pre.event_index(id);
    assert(0 <= k < pre.events().len() && pre.events()[k].id == id);
    lemma_remove_lookup(pre, post, k);
    assert(post.counter_dominates()) by {
        assert forall|i: int| 0 <= i < post.events().len() implies (
        #[trigger] post.events()[i]).id < post.counter() by {
            let pi: int = if i < k {
                i
            } else {
                i + 1
            };
            assert(post.events()[i] == pre.events()[pi]);
        }
    }
    match ev {
        McEvent::TimerFired { proc, timer, timer_delay } => {
            let rpre = pre.resolver();
            let rpost = post.resolver();
            let key_p = proc@;
            let pre_es = rpre.timer_entries(key_p);
            let post_es = rpost.timer_entries(key_p);
            let j = choose|j: int|
                0 <= j < pre_es.len() && (#[trigger] pre_es[j]).id == id && post_es == pre_es.remove(
                    j,
                );
            assert(forall|j2: int, j3: int|
                0 <= j2 < pre_es.len() && 0 <= j3 < pre_es.len() && j2 != j3
                    ==> (#[trigger] pre_es[j2]).id != (#[trigger] pre_es[j3]).id) by {
                assert(rpre.has_proc(key_p)) by {
                    if !rpre.has_proc(key_p) {
                        assert(pre_es.len() == 0);
                    }
                }
                let pqi = rpre.proc_index(key_p);
                crate::dependency::lemma_proc_lookup(rpre, pqi);
            }
            assert forall|i: int| 0 <= i < post.events().len() implies post.timer_linked(i) by {
                let pi: int = if i < k {
                    i
                } else {
                    i + 1
                };
                assert(post.events()[i] == pre.events()[pi]);
                assert(pre.timer_linked(pi));
                assert(pre.events()[pi].id != id) by {
                    if pi < k {
                        assert(pre.events()[pi].id != pre.events()[k].id);
                    } else {
                        assert(pre.events()[k].id != pre.events()[pi].id);
                    }
                }
                match post.events()[i].event {
                    McEvent::TimerFired { proc: p2, timer: t2, timer_delay: d2 } => {
                        let es2 = rpre.timer_entries(p2@);
                        let ei = choose|ei: int|
                            0 <= ei < es2.len() && (#[trigger] es2[ei]).id == pre.events()[pi].id
                                && es2[ei].delay == d2;
                        if p2@ == key_p {
                            assert(ei != j);
                            if ei < j {
                                assert(post_es[ei] == pre_es[ei]);
                            } else {
                                assert(post_es[ei - 1] == pre_es[ei]);
                            }
                        } else {
                            assert(rpost.timer_entries(p2@) == es2);
                        }
                    },
                    _ => {},
                }
            }
            assert forall|pi: int, ei: int|
                0 <= pi < rpost.timers().len() && 0 <= ei
                    < rpost.timers()[pi].entries@.len() implies #[trigger] post.timer_entry_linked(
                pi,
                ei,
            ) by {
                let t = rpost.timers()[pi];
                crate::dependency::lemma_proc_lookup(rpost, pi);
                let eid = t.entries@[ei].id;
                if t.proc@ == key_p {
                    let pei: int = if ei < j {
                        ei
                    } else {
                        ei + 1
                    };
                    assert(t.entries@[ei] == pre_es[pei]);
                    pre.lemma_timer_entry_linked_key(key_p, pei);
                    assert(pei != j);
                    assert(eid != id);
                } else {
                    let es2 = rpre.timer_entries(t.proc@);
                    assert(rpost.timer_entries(t.proc@) == es2);
                    pre.lemma_timer_entry_linked_key(t.proc@, ei);
                    assert(eid != id) by {
                        if eid == id {
                            assert(pre.event_of(id) matches McEvent::TimerFired {
                                proc: p3,
                                timer: t3,
                                timer_delay: d3,
                            } && p3@ == t.proc@);
                        }
                    }
                }
            }
            assert forall|i: int| 0 <= i < post.events().len() implies post.msg_linked(i) by {
                let pi: int = if i < k {
                    i
                } else {
                    i + 1
                };
                assert(post.events()[i] == pre.events()[pi]);
                assert(pre.msg_linked(pi));
                match post.events()[i].event {
                    McEvent::MessageReceived { msg: m2, src: s2, dest: d2 } => {
                        crate::dependency::lemma_msg_entries_congruent(rpre, rpost, s2@, d2@);
                    },
                    _ => {},
                }
            }
            assert forall|qi: int, ei: int|
                0 <= qi < rpost.queues().len() && 0 <= ei
                    < rpost.queues()[qi].entries@.len() implies #[trigger] post.msg_entry_linked(
                qi,
                ei,
            ) by {
                assert(rpost.queues()[qi] == rpre.queues()[qi]);
                assert(pre.msg_entry_linked(qi, ei));
                let eid = rpre.queues()[qi].entries@[ei].id;
                assert(eid != id) by {
                    if eid == id {
                        assert(pre.event_of(id) is MessageReceived);
                    }
                }
            }
            if exists|mi: int|
                0 <= mi < pre.mapping().len() && (#[trigger] pre.mapping()[mi]).id == id {
            let mi = choose|mi: int|
                    0 <= mi < pre.mapping().len() && (#[trigger] pre.mapping()[mi]).id == id
                        && post.mapping() == pre.mapping().remove(mi);
                assert(post.mapping_wf()) by {
                    assert forall|i2: int, j2: int|
                        0 <= i2 < j2 < post.mapping().len() implies !((
                    #[trigger] post.mapping()[i2]).proc@ == (#[trigger] post.mapping()[j2]).proc@
                        && post.mapping()[i2].timer@ == post.mapping()[j2].timer@) by {
                        let pi2: int = if i2 < mi {
                            i2
                        } else {
                            i2 + 1
                        };
                        let pj2: int = if j2 < mi {
                            j2
                        } else {
                            j2 + 1
                        };
                        assert(post.mapping()[i2] == pre.mapping()[pi2]);
                        assert(post.mapping()[j2] == pre.mapping()[pj2]);
                    }
                    assert forall|i2: int| 0 <= i2 < post.mapping().len() implies {
                        let m = #[trigger] post.mapping()[i2];
                        &&& post.has_event(m.id)
                        &&& (post.event_of(m.id) matches McEvent::TimerFired {
                            proc: p2,
                            timer: t2,
                            timer_delay: d2,
                        }
                            && p2@ == m.proc@ && t2@ == m.timer@)
                    } by {
                        let pi2: int = if i2 < mi {
                            i2
                        } else {
                            i2 + 1
                        };
                        assert(post.mapping()[i2] == pre.mapping()[pi2]);
                        let m = pre.mapping()[pi2];
                        assert(m.id != id) by {
                            if m.id == id {
                                assert(pi2 != mi);
                                let lo: int = if pi2 < mi {
                                    pi2
                                } else {
                                    mi
                                };
                                let hi: int = if pi2 < mi {
                                    mi
                                } else {
                                    pi2
                                };
                                assert(pre.mapping()[lo].id == id && pre.mapping()[hi].id == id);
                                assert(pre.event_of(id) matches McEvent::TimerFired {
                                    proc: p3,
                                    timer: t3,
                                    timer_delay: d3,
                                }
                                    && p3@ == pre.mapping()[lo].proc@ && t3@
                                    == pre.mapping()[lo].timer@);
                                assert(pre.event_of(id) matches McEvent::TimerFired {
                                    proc: p3,
                                    timer: t3,
                                    timer_delay: d3,
                                }
                                    && p3@ == pre.mapping()[hi].proc@ && t3@
                                    == pre.mapping()[hi].timer@);
                                assert(!(pre.mapping()[lo].proc@ == pre.mapping()[hi].proc@
                                    && pre.mapping()[lo].timer@ == pre.mapping()[hi].timer@));
                            }
                        }
                    }
                }
                assert(pre.mapping()[mi].proc@ == key_p && pre.mapping()[mi].timer@ == timer@) by {
                    assert(pre.event_of(pre.mapping()[mi].id) matches McEvent::TimerFired {
                        proc: p3,
                        timer: t3,
                        timer_delay: d3,
                    } && p3@ == pre.mapping()[mi].proc@ && t3@ == pre.mapping()[mi].timer@);
                }
                assert(!post.has_timer_key(key_p, timer@)) by {
                    if post.has_timer_key(key_p, timer@) {
                        let i2 = choose|i2: int|
                            0 <= i2 < post.mapping().len() && (#[trigger] post.mapping()[i2]).proc@
                                == key_p && post.mapping()[i2].timer@ == timer@;
                        let pi2: int = if i2 < mi {
                            i2
                        } else {
                            i2 + 1
                        };
                        assert(post.mapping()[i2] == pre.mapping()[pi2]);
                        assert(pi2 != mi);
                        let lo: int = if pi2 < mi {
                            pi2
                        } else {
                            mi
                        };
                        let hi: int = if pi2 < mi {
                            mi
                        } else {
                            pi2
                        };
                        assert(!(pre.mapping()[lo].proc@ == pre.mapping()[hi].proc@
                            && pre.mapping()[lo].timer@ == pre.mapping()[hi].timer@));
                    }
                }
            } else {
                assert(post.mapping() == pre.mapping());
                assert(post.mapping_wf()) by {
                    assert forall|i2: int| 0 <= i2 < post.mapping().len() implies {
                        let m = #[trigger] post.mapping()[i2];
                        &&& post.has_event(m.id)
                        &&& (post.event_of(m.id) matches McEvent::TimerFired {
                            proc: p2,
                            timer: t2,
                            timer_delay: d2,
                        }
                            && p2@ == m.proc@ && t2@ == m.timer@)
                    } by {
                        let m = pre.mapping()[i2];
                        assert(m.id != id);
                        assert(post.event_of(m.id) == pre.event_of(m.id));
                    }
                }
            }
            assert(post.directives_exact()) by {
                assert forall|d: McEventId| #[trigger]
                    post.directive_ids().has(d) <==> post.has_event(d) && post.event_of(
                    d,
                ).is_directive() by {
                    if d != id && pre.has_event(d) {
                        assert(post.event_of(d) == pre.event_of(d));
                    }
                }
            }
            assert(post.avail_pending()) by {
                assert forall|a: McEventId| #[trigger] post.available().has(a) implies
                post.has_event(a) && !post.event_of(a).is_directive() by {
                    if pre.available().has(a) && a != id {
                        assert(pre.has_event(a));
                    } else {
                        assert(post_es.len() > 0 && a == crate::dependency::first_min_id(post_es));
                        crate::dependency::lemma_first_min_exists(post_es);
                        let fmi = first_min_index(post_es);
                        let pfmi: int = if fmi < j {
                            fmi
                        } else {
                            fmi + 1
                        };
                        assert(post_es[fmi] == pre_es[pfmi]);
                        pre.lemma_timer_entry_linked_key(key_p, pfmi);
                        assert(pfmi != j);
                        assert(a != id);
                    }
                }
            }
            assert(post.heads_avail()) by {
                assert forall|qi: int|
                    0 <= qi < rpost.queues().len() && (#[trigger] rpost.queues()[qi]).entries@.len()
                        > 0 implies post.available().has(rpost.queues()[qi].entries@[0].id) by {
                    assert(rpost.queues()[qi] == rpre.queues()[qi]);
                    assert(rpre.queues()[qi].entries@.len() > 0);
                    assert(pre.available().has(rpre.queues()[qi].entries@[0].id));
                    assert(pre.msg_entry_linked(qi, 0));
                    let eid = rpre.queues()[qi].entries@[0].id;
                    assert(eid != id) by {
                        if eid == id {
                            assert(pre.event_of(id) is MessageReceived);
                        }
                    }
                }
            }
            assert(post.avail_msgs_are_heads()) by {
                assert forall|a: McEventId|
                    #[trigger] post.available().has(a) && post.has_event(a) implies (post.event_of(
                    a,
                ) matches McEvent::MessageReceived { msg: m2, src: s2, dest: d2 } ==> {
                    let es2 = rpost.msg_entries(s2@, d2@);
                    es2.len() > 0 && es2[0].id == a
                }) by {
                    assert(post.event_of(a) == pre.event_of(a));
                    match post.event_of(a) {
                        McEvent::MessageReceived { msg: m2, src: s2, dest: d2 } => {
                            assert(pre.available().has(a)) by {
                                if post_es.len() > 0 && a == crate::dependency::first_min_id(
                                    post_es,
                                ) {
                                    crate::dependency::lemma_first_min_exists(post_es);
                                    let fmi = first_min_index(post_es);
                                    let pfmi: int = if fmi < j {
                                        fmi
                                    } else {
                                        fmi + 1
                                    };
                                    assert(post_es[fmi] == pre_es[pfmi]);
                                    pre.lemma_timer_entry_linked_key(key_p, pfmi);
                                }
                            }
                            crate::dependency::lemma_msg_entries_congruent(rpre, rpost, s2@, d2@);
                        },
                        _ => {},
                    }
                }
            }
            assert(post.mins_avail()) by {
                assert forall|pi: int|
                    0 <= pi < rpost.timers().len() && (#[trigger] rpost.timers()[pi]).entries@.len()
                        > 0 implies post.available().has(
                    crate::dependency::first_min_id(rpost.timers()[pi].entries@),
                ) by {
                    let t = rpost.timers()[pi];
                    crate::dependency::lemma_proc_lookup(rpost, pi);
                    if t.proc@ == key_p {
                        assert(t.entries@ == post_es);
                    } else {
                        let es2 = rpre.timer_entries(t.proc@);
                        assert(rpost.timer_entries(t.proc@) == es2);
                        assert(es2.len() > 0);
                        pre.lemma_min_avail_key(t.proc@);
                        crate::dependency::lemma_first_min_exists(es2);
                        let fmi = first_min_index(es2);
                        pre.lemma_timer_entry_linked_key(t.proc@, fmi);
                        let m = crate::dependency::first_min_id(es2);
                        assert(m != id) by {
                            if m == id {
                                assert(pre.event_of(id) matches McEvent::TimerFired {
                                    proc: p3,
                                    timer: t3,
                                    timer_delay: d3,
                                } && p3@ == t.proc@);
                            }
                        }
                    }
                }
            }
            if pre.timer_order() {
                assert(post.timer_order()) by {
                    assert forall|a: McEventId|
                        #[trigger] post.available().has(a) && post.has_event(a) implies (
                    post.event_of(a) matches McEvent::TimerFired {
                        proc: p2,
                        timer: t2,
                        timer_delay: dl2,
                    } ==> {
                        let es2 = rpost.timer_entries(p2@);
                        es2.len() > 0 && crate::dependency::first_min_id(es2) == a
                    }) by {
                        assert(post.event_of(a) == pre.event_of(a));
                        match post.event_of(a) {
                            McEvent::TimerFired { proc: p2, timer: t2, timer_delay: dl2 } => {
                                if post_es.len() > 0 && a == crate::dependency::first_min_id(
                                    post_es,
                                ) {
                                    crate::dependency::lemma_first_min_exists(post_es);
                                    let fmi = first_min_index(post_es);
                                    let pfmi: int = if fmi < j {
                                        fmi
                                    } else {
                                        fmi + 1
                                    };
                                    assert(post_es[fmi] == pre_es[pfmi]);
                                    pre.lemma_timer_entry_linked_key(key_p, pfmi);
                                    assert(p2@ == key_p);
                                } else {
                                    assert(pre.available().has(a) && a != id);
                                    if p2@ == key_p {
                                        assert(pre_es.len() > 0 && crate::dependency::first_min_id(
                                            pre_es,
                                        ) == a);
                                        assert(rpre.has_proc(key_p)) by {
                                            if !rpre.has_proc(key_p) {
                                                assert(pre_es.len() == 0);
                                            }
                                        }
                                        crate::dependency::lemma_first_min_exists(pre_es);
                                        let fmi = first_min_index(pre_es);
                                        assert(pre_es[fmi].id == a);
                                        assert(fmi != j);
                                        assert(pre_es.len() > 1) by {
                                            if pre_es.len() == 1 {
                                                assert(fmi == 0 && j == 0);
                                            }
                                        }
                                        crate::dependency::lemma_first_min_remove_stable(pre_es, j);
                                        assert(crate::dependency::first_min_id(post_es) == a);
                                    } else {
                                        assert(rpost.timer_entries(p2@) == rpre.timer_entries(p2@));
                                    }
                                }
                            },
                            _ => {},
                        }
                    }
                }
            }
        },
        _ => {},
    }
}

/// Popping a directive preserves the store invariant.
#[verifier::rlimit(100)]
#[verifier::spinoff_prover]
proof fn lemma_pop_directive_wf(
    pre: PendingEvents,
    post: PendingEvents,
    ev: McEvent,
    id: McEventId,
)
    requires
        pre.wf(),
        pre.has_event(id),
        pre.event_of(id) == ev,
        ev.is_directive(),
        post.events() == pre.events().remove(pre.event_index(id)),
        post.counter() == pre.counter(),
        post.mapping() == pre.mapping(),
        post.resolver() == pre.resolver(),
        post.available().wf(),
        post.directive_ids().wf(),
        forall|a: McEventId|
            #[trigger] post.available().has(a) <==> pre.available().has(a) && a != id,
        forall|d: McEventId|
            #[trigger] post.directive_ids().has(d) <==> pre.directive_ids().has(d) && d != id,
    ensures
        post.wf(),
        pre.timer_order() ==> post.timer_order(),
        forall|x: McEventId| #[trigger] post.has_event(x) <==> pre.has_event(x) && x != id,
        forall|x: McEventId|
            post.has_event(x) ==> #[trigger] post.event_of(x) == pre.event_of(x),
{
    let k = pre.event_index(id);
    assert(0 <= k < pre.events().len() && pre.events()[k].id == id);
    lemma_remove_lookup(pre, post, k);
    let rpre = pre.resolver();
    let rpost = post.resolver();
    assert(post.counter_dominates()) by {
        assert forall|i: int| 0 <= i < post.events().len() implies (
        #[trigger] post.events()[i]).id < post.counter() by {
            let pi: int = if i < k {
                i
            } else {
                i + 1
            };
            assert(post.events()[i] == pre.events()[pi]);
        }
    }
    assert forall|i: int| 0 <= i < post.events().len() implies post.msg_linked(i)
        && post.timer_linked(i) by {
        let pi: int = if i < k {
            i
        } else {
            i + 1
        };
        assert(post.events()[i] == pre.events()[pi]);
        assert(pre.msg_linked(pi) && pre.timer_linked(pi));
    }
    assert forall|qi: int, ei: int|
        0 <= qi < rpost.queues().len() && 0 <= ei
            < rpost.queues()[qi].entries@.len() implies #[trigger] post.msg_entry_linked(
        qi,
        ei,
    ) by {
        assert(pre.msg_entry_linked(qi, ei));
        let eid = rpre.queues()[qi].entries@[ei].id;
        assert(eid != id) by {
            if eid == id {
                assert(pre.event_of(id) is MessageReceived);
            }
        }
    }
    assert forall|pi: int, ei: int|
        0 <= pi < rpost.timers().len() && 0 <= ei
            < rpost.timers()[pi].entries@.len() implies #[trigger] post.timer_entry_linked(
        pi,
        ei,
    ) by {
        assert(pre.timer_entry_linked(pi, ei));
        let eid = rpre.timers()[pi].entries@[ei].id;
        assert(eid != id) by {
            if eid == id {
                assert(pre.event_of(id) is TimerFired);
            }
        }
    }
    assert(post.mapping_wf()) by {
        assert forall|i: int| 0 <= i < post.mapping().len() implies {
            let m = #[trigger] post.mapping()[i];
            &&& post.has_event(m.id)
            &&& (post.event_of(m.id) matches McEvent::TimerFired {
                proc: p2,
                timer: t2,
                timer_delay: d2,
            }
                && p2@ == m.proc@ && t2@ == m.timer@)
        } by {
            assert(post.mapping()[i] == pre.mapping()[i]);
            let m = pre.mapping()[i];
            assert(m.id != id) by {
                if m.id == id {
                    assert(pre.event_of(id) is TimerFired);
                }
            }
        }
    }
    assert(post.directives_exact()) by {
        assert forall|d: McEventId| #[trigger]
            post.directive_ids().has(d) <==> post.has_event(d) && post.event_of(
            d,
        ).is_directive() by {
            if d != id && pre.has_event(d) {
                assert(post.event_of(d) == pre.event_of(d));
            }
        }
    }
    assert(post.heads_avail()) by {
        assert forall|qi: int|
            0 <= qi < rpost.queues().len() && (#[trigger] rpost.queues()[qi]).entries@.len()
                > 0 implies post.available().has(rpost.queues()[qi].entries@[0].id) by {
            assert(pre.available().has(rpre.queues()[qi].entries@[0].id));
            assert(pre.msg_entry_linked(qi, 0));
            let eid = rpre.queues()[qi].entries@[0].id;
            assert(eid != id) by {
                if eid == id {
                    assert(pre.event_of(id) is MessageReceived);
                }
            }
        }
    }
    assert(post.avail_msgs_are_heads()) by {
        assert forall|a: McEventId|
            #[trigger] post.available().has(a) && post.has_event(a) implies (post.event_of(
            a,
        ) matches McEvent::MessageReceived { msg: m2, src: s2, dest: d2 } ==> {
            let es2 = rpost.msg_entries(s2@, d2@);
            es2.len() > 0 && es2[0].id == a
        }) by {
            assert(pre.available().has(a) && pre.has_event(a));
            assert(post.event_of(a) == pre.event_of(a));
        }
    }
    assert(post.mins_avail()) by {
        assert forall|pi: int|
            0 <= pi < rpost.timers().len() && (#[trigger] rpost.timers()[pi]).entries@.len()
                > 0 implies post.available().has(
            crate::dependency::first_min_id(rpost.timers()[pi].entries@),
        ) by {
            assert(pre.available().has(crate::dependency::first_min_id(rpre.timers()[pi].entries@)));
            crate::dependency::lemma_first_min_exists(rpre.timers()[pi].entries@);
            let fmi = first_min_index(rpre.timers()[pi].entries@);
            assert(pre.timer_entry_linked(pi, fmi));
            let m = crate::dependency::first_min_id(rpre.timers()[pi].entries@);
            assert(m != id) by {
                if m == id {
                    assert(pre.event_of(id) is TimerFired);
                }
            }
        }
    }
    if pre.timer_order() {
        assert(post.timer_order()) by {
            assert forall|a: McEventId|
                #[trigger] post.available().has(a) && post.has_event(a) implies (post.event_of(
                a,
            ) matches McEvent::TimerFired { proc: p2, timer: t2, timer_delay: dl2 } ==> {
                let es2 = rpost.timer_entries(p2@);
                es2.len() > 0 && crate::dependency::first_min_id(es2) == a
            }) by {
                assert(pre.available().has(a) && pre.has_event(a));
                assert(post.event_of(a) == pre.event_of(a));
            }
        }
    }
}

/// Pushing a message event preserves the store invariant.
#[verifier::rlimit(100)]
#[verifier::spinoff_prover]
proof fn lemma_push_msg_wf(pre: PendingEvents, post: PendingEvents, ev: McEvent, id: McEventId)
    requires
        pre.wf(),
        !pre.has_event(id),
        ev is MessageReceived,
        post.events() == pre.events().push(EventEntry { id, event: ev }),
        pre.counter() <= post.counter(),
        id < post.counter(),
        post.mapping() == pre.mapping(),
        post.directive_ids() == pre.directive_ids(),
        post.available().wf(),
        post.resolver().wf(),
        post.resolver().timers() == pre.resolver().timers(),
        ev matches McEvent::MessageReceived { msg, src, dest } ==> {
            &&& post.resolver().msg_entries(src@, dest@) == pre.resolver().msg_entries(
                src@,
                dest@,
            ).push(MsgEntry { msg, id })
            &&& forall|s2: Seq<char>, d2: Seq<char>|
                !(s2 == src@ && d2 == dest@) ==> #[trigger] post.resolver().msg_entries(s2, d2)
                    == pre.resolver().msg_entries(s2, d2)
            &&& forall|a: McEventId|
                #[trigger] post.available().has(a) <==> pre.available().has(a) || (a == id
                    && pre.resolver().msg_entries(src@, dest@).len() == 0)
        },
    ensures
        post.wf(),
        pre.timer_order() ==> post.timer_order(),
{
    lemma_push_lookup(pre, post, EventEntry { id, event: ev });
    let n = pre.events().len() as int;
    assert(post.counter_dominates()) by {
        assert forall|i: int| 0 <= i < post.events().len() implies (
        #[trigger] post.events()[i]).id < post.counter() by {
            if i < n {
                assert(post.events()[i] == pre.events()[i]);
            }
        }
    }
    match ev {
        McEvent::MessageReceived { msg, src, dest } => {
                    let rpre = pre.resolver();
                    let rpost = post.resolver();
                    let key_s = src@;
                    let key_d = dest@;
                    let pre_es = rpre.msg_entries(key_s, key_d);
                    let post_es = rpost.msg_entries(key_s, key_d);
                    assert(post_es == pre_es.push(MsgEntry { msg, id }));
                    assert forall|i: int| 0 <= i < post.events().len() implies post.msg_linked(
                        i,
                    ) by {
                        if i == n {
                            assert(post_es[pre_es.len() as int].id == id);
                        } else {
                            assert(post.events()[i] == pre.events()[i]);
                            assert(pre.msg_linked(i));
                            match post.events()[i].event {
                                McEvent::MessageReceived { msg: m2, src: s2, dest: d2 } => {
                                    let es2 = rpre.msg_entries(s2@, d2@);
                                    let ei = choose|ei: int|
                                        0 <= ei < es2.len() && (#[trigger] es2[ei]).id
                                            == pre.events()[i].id && es2[ei].msg@ == m2@;
                                    if s2@ == key_s && d2@ == key_d {
                                        assert(post_es[ei] == pre_es[ei]);
                                    } else {
                                        assert(rpost.msg_entries(s2@, d2@) == es2);
                                    }
                                },
                                _ => {},
                            }
                        }
                    }
                    assert forall|qi: int, ei: int|
                        0 <= qi < rpost.queues().len() && 0 <= ei
                            < rpost.queues()[qi].entries@.len() implies #[trigger] post.msg_entry_linked(
                        qi,
                        ei,
                    ) by {
                        let q = rpost.queues()[qi];
                        crate::dependency::lemma_queue_lookup(rpost, qi);
                        let k2_s = q.src@;
                        let k2_d = q.dest@;
                        if k2_s == key_s && k2_d == key_d {
                            if ei < pre_es.len() {
                                pre.lemma_msg_entry_linked_key(key_s, key_d, ei);
                                assert(q.entries@[ei] == pre_es[ei]);
                            } else {
                                assert(q.entries@[ei] == MsgEntry { msg, id });
                            }
                        } else {
                            let es2 = rpre.msg_entries(k2_s, k2_d);
                            assert(rpost.msg_entries(k2_s, k2_d) == es2);
                            assert(es2.len() > 0);
                            pre.lemma_msg_entry_linked_key(k2_s, k2_d, ei);
                        }
                    }
                    assert forall|i: int| 0 <= i < post.events().len() implies post.timer_linked(
                        i,
                    ) by {
                        if i < n {
                            assert(post.events()[i] == pre.events()[i]);
                            assert(pre.timer_linked(i));
                            match post.events()[i].event {
                                McEvent::TimerFired { proc: p2, timer: t2, timer_delay: d2 } => {
                                    crate::dependency::lemma_timer_entries_congruent(
                                        rpre,
                                        rpost,
                                        p2@,
                                    );
                                },
                                _ => {},
                            }
                        }
                    }
                    assert forall|pi: int, ei: int|
                        0 <= pi < rpost.timers().len() && 0 <= ei
                            < rpost.timers()[pi].entries@.len() implies #[trigger] post.timer_entry_linked(
                        pi,
                        ei,
                    ) by {
                        assert(rpost.timers()[pi] == rpre.timers()[pi]);
                        assert(pre.timer_entry_linked(pi, ei));
                    }
                    assert(post.directives_exact()) by {
                        assert forall|d: McEventId| #[trigger]
                            post.directive_ids().has(d) <==> post.has_event(d) && post.event_of(
                            d,
                        ).is_directive() by {
                            assert(post.directive_ids() == pre.directive_ids());
                            if d != id && pre.has_event(d) {
                                assert(post.event_of(d) == pre.event_of(d));
                            }
                        }
                    }
                    assert(post.heads_avail()) by {
                        assert forall|qi: int|
                            0 <= qi < rpost.queues().len()
                                && (#[trigger] rpost.queues()[qi]).entries@.len()
                                > 0 implies post.available().has(
                            rpost.queues()[qi].entries@[0].id,
                        ) by {
                            let q = rpost.queues()[qi];
                            crate::dependency::lemma_queue_lookup(rpost, qi);
                            if q.src@ == key_s && q.dest@ == key_d {
                                if pre_es.len() == 0 {
                                    assert(q.entries@[0].id == id);
                                } else {
                                    assert(q.entries@[0] == pre_es[0]);
                                    pre.lemma_head_avail_key(key_s, key_d);
                                }
                            } else {
                                assert(rpost.msg_entries(q.src@, q.dest@) == rpre.msg_entries(
                                    q.src@,
                                    q.dest@,
                                ));
                                pre.lemma_head_avail_key(q.src@, q.dest@);
                            }
                        }
                    }
                    assert(post.avail_msgs_are_heads()) by {
                        assert forall|a: McEventId|
                            #[trigger] post.available().has(a) && post.has_event(a) implies (
                        post.event_of(a) matches McEvent::MessageReceived {
                            msg: m2,
                            src: s2,
                            dest: d2,
                        } ==> {
                            let es2 = rpost.msg_entries(s2@, d2@);
                            es2.len() > 0 && es2[0].id == a
                        }) by {
                            if a == id {
                                if pre_es.len() == 0 {
                                    assert(post_es[0].id == id);
                                }
                            } else {
                                assert(pre.available().has(a));
                                assert(pre.has_event(a));
                                assert(post.event_of(a) == pre.event_of(a));
                                match post.event_of(a) {
                                    McEvent::MessageReceived { msg: m2, src: s2, dest: d2 } => {
                                        if s2@ == key_s && d2@ == key_d {
                                            assert(post_es[0] == pre_es[0]);
                                        } else {
                                            assert(rpost.msg_entries(s2@, d2@) == rpre.msg_entries(
                                                s2@,
                                                d2@,
                                            ));
                                        }
                                    },
                                    _ => {},
                                }
                            }
                        }
                    }
                    assert(post.mins_avail()) by {
                        assert forall|pi: int|
                            0 <= pi < rpost.timers().len()
                                && (#[trigger] rpost.timers()[pi]).entries@.len()
                                > 0 implies post.available().has(
                            crate::dependency::first_min_id(rpost.timers()[pi].entries@),
                        ) by {
                            assert(rpost.timers()[pi] == rpre.timers()[pi]);
                            assert(rpre.timers()[pi].entries@.len() > 0);
                            assert(pre.available().has(
                                crate::dependency::first_min_id(rpre.timers()[pi].entries@),
                            ));
                        }
                    }
                    if pre.timer_order() {
                        assert(post.timer_order()) by {
                            assert forall|a: McEventId|
                                #[trigger] post.available().has(a) && post.has_event(a) implies (
                            post.event_of(a) matches McEvent::TimerFired {
                                proc: p2,
                                timer: t2,
                                timer_delay: dl2,
                            } ==> {
                                let es2 = rpost.timer_entries(p2@);
                                es2.len() > 0 && crate::dependency::first_min_id(es2) == a
                            }) by {
                                if a != id {
                                    assert(pre.available().has(a) && pre.has_event(a));
                                    assert(post.event_of(a) == pre.event_of(a));
                                    match post.event_of(a) {
                                        McEvent::TimerFired {
                                            proc: p2,
                                            timer: t2,
                                            timer_delay: dl2,
                                        } => {
                                            crate::dependency::lemma_timer_entries_congruent(
                                                rpre,
                                                rpost,
                                                p2@,
                                            );
                                        },
                                        _ => {},
                                    }
                                }
                            }
                        }
                    }
        },
        _ => {},
    }
}

/// Pushing a timer event preserves the store invariant; timer order is
/// preserved when the new delay does not undercut the pending minimum.
#[verifier::rlimit(100)]
#[verifier::spinoff_prover]
proof fn lemma_push_timer_wf(pre: PendingEvents, post: PendingEvents, ev: McEvent, id: McEventId)
    requires
        pre.wf(),
        !pre.has_event(id),
        ev is TimerFired,
        post.events() == pre.events().push(EventEntry { id, event: ev }),
        pre.counter() <= post.counter(),
        id < post.counter(),
        post.directive_ids() == pre.directive_ids(),
        post.available().wf(),
        post.resolver().wf(),
        post.resolver().queues() == pre.resolver().queues(),
        ev matches McEvent::TimerFired { proc, timer, timer_delay } ==> {
            &&& (if pre.has_timer_key(proc@, timer@) {
                exists|mi: int|
                    0 <= mi < pre.mapping().len() && (#[trigger] pre.mapping()[mi]).proc@ == proc@
                        && pre.mapping()[mi].timer@ == timer@ && post.mapping()
                        == pre.mapping().update(mi, TimerMapEntry { proc, timer, id })
            } else {
                post.mapping() == pre.mapping().push(TimerMapEntry { proc, timer, id })
            })
            &&& post.resolver().timer_entries(proc@) == pre.resolver().timer_entries(proc@).push(
                TimerEntry { delay: timer_delay, id },
            )
            &&& forall|p2: Seq<char>|
                p2 != proc@ ==> #[trigger] post.resolver().timer_entries(p2)
                    == pre.resolver().timer_entries(p2)
            &&& forall|a: McEventId|
                #[trigger] post.available().has(a) <==> pre.available().has(a) || (a == id
                    && is_first_min(
                    post.resolver().timer_entries(proc@),
                    pre.resolver().timer_entries(proc@).len() as int,
                ))
        },
    ensures
        post.wf(),
        pre.timer_order() && (ev matches McEvent::TimerFired { proc, timer, timer_delay } ==> (
        pre.resolver().timer_entries(proc@).len() == 0 || exists|j: int|
            0 <= j < pre.resolver().timer_entries(proc@).len() && (
            #[trigger] pre.resolver().timer_entries(proc@)[j]).delay.ticks
                <= timer_delay.ticks)) ==> post.timer_order(),
{
    lemma_push_lookup(pre, post, EventEntry { id, event: ev });
    let n = pre.events().len() as int;
    assert(post.counter_dominates()) by {
        assert forall|i: int| 0 <= i < post.events().len() implies (
        #[trigger] post.events()[i]).id < post.counter() by {
            if i < n {
                assert(post.events()[i] == pre.events()[i]);
            }
        }
    }
    match ev {
        McEvent::TimerFired { proc, timer, timer_delay } => {
                    let rpre = pre.resolver();
                    let rpost = post.resolver();
                    let key_p = proc@;
                    let pre_es = rpre.timer_entries(key_p);
                    let post_es = rpost.timer_entries(key_p);
                    assert(post_es == pre_es.push(TimerEntry { delay: timer_delay, id }));
                    assert forall|i: int| 0 <= i < post.events().len() implies post.timer_linked(
                        i,
                    ) by {
                        if i == n {
                            assert(post_es[pre_es.len() as int].id == id);
                        } else {
                            assert(post.events()[i] == pre.events()[i]);
                            assert(pre.timer_linked(i));
                            match post.events()[i].event {
                                McEvent::TimerFired { proc: p2, timer: t2, timer_delay: d2 } => {
                                    let es2 = rpre.timer_entries(p2@);
                                    let ei = choose|ei: int|
                                        0 <= ei < es2.len() && (#[trigger] es2[ei]).id
                                            == pre.events()[i].id && es2[ei].delay == d2;
                                    if p2@ == key_p {
                                        assert(post_es[ei] == pre_es[ei]);
                                    } else {
                                        assert(rpost.timer_entries(p2@) == es2);
                                    }
                                },
                                _ => {},
                            }
                        }
                    }
                    assert forall|pi: int, ei: int|
                        0 <= pi < rpost.timers().len() && 0 <= ei
                            < rpost.timers()[pi].entries@.len() implies #[trigger] post.timer_entry_linked(
                        pi,
                        ei,
                    ) by {
                        let t = rpost.timers()[pi];
                        crate::dependency::lemma_proc_lookup(rpost, pi);
                        if t.proc@ == key_p {
                            if ei < pre_es.len() {
                                pre.lemma_timer_entry_linked_key(key_p, ei);
                                assert(t.entries@[ei] == pre_es[ei]);
                            } else {
                                assert(t.entries@[ei] == TimerEntry { delay: timer_delay, id });
                            }
                        } else {
                            let es2 = rpre.timer_entries(t.proc@);
                            assert(rpost.timer_entries(t.proc@) == es2);
                            assert(es2.len() > 0);
                            pre.lemma_timer_entry_linked_key(t.proc@, ei);
                        }
                    }
                    assert forall|i: int| 0 <= i < post.events().len() implies post.msg_linked(
                        i,
                    ) by {
                        if i < n {
                            assert(post.events()[i] == pre.events()[i]);
                            assert(pre.msg_linked(i));
                            match post.events()[i].event {
                                McEvent::MessageReceived { msg: m2, src: s2, dest: d2 } => {
                                    crate::dependency::lemma_msg_entries_congruent(
                                        rpre,
                                        rpost,
                                        s2@,
                                        d2@,
                                    );
                                },
                                _ => {},
                            }
                        }
                    }
                    assert forall|qi: int, ei: int|
                        0 <= qi < rpost.queues().len() && 0 <= ei
                            < rpost.queues()[qi].entries@.len() implies #[trigger] post.msg_entry_linked(
                        qi,
                        ei,
                    ) by {
                        assert(rpost.queues()[qi] == rpre.queues()[qi]);
                        assert(pre.msg_entry_linked(qi, ei));
                    }
                    assert(post.mapping_wf()) by {
                        let mn = pre.mapping().len() as int;
                        if pre.has_timer_key(key_p, timer@) {
                            let mi = choose|mi: int|
                                0 <= mi < pre.mapping().len() && (#[trigger] pre.mapping()[mi]).proc@
                                    == key_p && pre.mapping()[mi].timer@ == timer@ && post.mapping()
                                    == pre.mapping().update(
                                    mi,
                                    TimerMapEntry { proc, timer, id },
                                );
                            assert forall|i: int, j: int|
                                0 <= i < j < post.mapping().len() implies !((
                            #[trigger] post.mapping()[i]).proc@
                                == (#[trigger] post.mapping()[j]).proc@ && post.mapping()[i].timer@
                                == post.mapping()[j].timer@) by {
                                assert(post.mapping()[i].proc@ == pre.mapping()[i].proc@
                                    && post.mapping()[i].timer@ == pre.mapping()[i].timer@);
                                assert(post.mapping()[j].proc@ == pre.mapping()[j].proc@
                                    && post.mapping()[j].timer@ == pre.mapping()[j].timer@);
                            }
                            assert forall|i: int| 0 <= i < post.mapping().len() implies {
                                let m = #[trigger] post.mapping()[i];
                                &&& post.has_event(m.id)
                                &&& (post.event_of(m.id) matches McEvent::TimerFired {
                                    proc: p2,
                                    timer: t2,
                                    timer_delay: d2,
                                }
                                    && p2@ == m.proc@ && t2@ == m.timer@)
                            } by {
                                if i == mi {
                                    assert(post.mapping()[i].id == id);
                                    assert(post.event_of(id) == ev);
                                } else {
                                    assert(post.mapping()[i] == pre.mapping()[i]);
                                    assert(post.event_of(pre.mapping()[i].id) == pre.event_of(
                                        pre.mapping()[i].id,
                                    ));
                                }
                            }
                        } else {
                            assert forall|i: int, j: int|
                                0 <= i < j < post.mapping().len() implies !((
                            #[trigger] post.mapping()[i]).proc@
                                == (#[trigger] post.mapping()[j]).proc@ && post.mapping()[i].timer@
                                == post.mapping()[j].timer@) by {
                                if j == mn {
                                    assert(post.mapping()[i] == pre.mapping()[i]);
                                    if post.mapping()[i].proc@ == key_p && post.mapping()[i].timer@
                                        == timer@ {
                                        assert(pre.has_timer_key(key_p, timer@));
                                    }
                                } else {
                                    assert(post.mapping()[i] == pre.mapping()[i]);
                                    assert(post.mapping()[j] == pre.mapping()[j]);
                                }
                            }
                            assert forall|i: int| 0 <= i < post.mapping().len() implies {
                                let m = #[trigger] post.mapping()[i];
                                &&& post.has_event(m.id)
                                &&& (post.event_of(m.id) matches McEvent::TimerFired {
                                    proc: p2,
                                    timer: t2,
                                    timer_delay: d2,
                                }
                                    && p2@ == m.proc@ && t2@ == m.timer@)
                            } by {
                                if i == mn {
                                    assert(post.mapping()[i].id == id);
                                    assert(post.event_of(id) == ev);
                                } else {
                                    assert(post.mapping()[i] == pre.mapping()[i]);
                                    assert(post.event_of(pre.mapping()[i].id) == pre.event_of(
                                        pre.mapping()[i].id,
                                    ));
                                }
                            }
                        }
                    }
                    assert(post.directives_exact()) by {
                        assert forall|d: McEventId| #[trigger]
                            post.directive_ids().has(d) <==> post.has_event(d) && post.event_of(
                            d,
                        ).is_directive() by {
                            assert(post.directive_ids() == pre.directive_ids());
                            if d != id && pre.has_event(d) {
                                assert(post.event_of(d) == pre.event_of(d));
                            }
                        }
                    }
                    assert(post.heads_avail()) by {
                        assert forall|qi: int|
                            0 <= qi < rpost.queues().len()
                                && (#[trigger] rpost.queues()[qi]).entries@.len()
                                > 0 implies post.available().has(
                            rpost.queues()[qi].entries@[0].id,
                        ) by {
                            assert(rpost.queues()[qi] == rpre.queues()[qi]);
                            assert(rpre.queues()[qi].entries@.len() > 0);
                            assert(pre.available().has(rpre.queues()[qi].entries@[0].id));
                        }
                    }
                    assert(post.avail_msgs_are_heads()) by {
                        assert forall|a: McEventId|
                            #[trigger] post.available().has(a) && post.has_event(a) implies (
                        post.event_of(a) matches McEvent::MessageReceived {
                            msg: m2,
                            src: s2,
                            dest: d2,
                        } ==> {
                            let es2 = rpost.msg_entries(s2@, d2@);
                            es2.len() > 0 && es2[0].id == a
                        }) by {
                            if a != id {
                                assert(pre.available().has(a) && pre.has_event(a));
                                assert(post.event_of(a) == pre.event_of(a));
                                match post.event_of(a) {
                                    McEvent::MessageReceived { msg: m2, src: s2, dest: d2 } => {
                                        crate::dependency::lemma_msg_entries_congruent(
                                            rpre,
                                            rpost,
                                            s2@,
                                            d2@,
                                        );
                                    },
                                    _ => {},
                                }
                            } else {
                                assert(!(post.event_of(a) is MessageReceived));
                            }
                        }
                    }
                    let now_min_flag = is_first_min(post_es, pre_es.len() as int);
                    assert(post.mins_avail()) by {
                        assert forall|pi: int|
                            0 <= pi < rpost.timers().len()
                                && (#[trigger] rpost.timers()[pi]).entries@.len()
                                > 0 implies post.available().has(
                            crate::dependency::first_min_id(rpost.timers()[pi].entries@),
                        ) by {
                            let t = rpost.timers()[pi];
                            crate::dependency::lemma_proc_lookup(rpost, pi);
                            if t.proc@ == key_p {
                                if now_min_flag {
                                    crate::dependency::lemma_first_min_unique(
                                        post_es,
                                        pre_es.len() as int,
                                        first_min_index(post_es),
                                    );
                                    assert(crate::dependency::first_min_id(post_es) == id);
                                } else {
                                    assert(pre_es.len() > 0) by {
                                        if pre_es.len() == 0 {
                                            assert(is_first_min(post_es, 0));
                                        }
                                    }
                                    crate::dependency::lemma_first_min_push_stable(
                                        pre_es,
                                        TimerEntry { delay: timer_delay, id },
                                    );
                                    pre.lemma_min_avail_key(key_p);
                                }
                            } else {
                                assert(rpost.timer_entries(t.proc@) == rpre.timer_entries(t.proc@));
                                assert(rpre.timer_entries(t.proc@).len() > 0);
                                pre.lemma_min_avail_key(t.proc@);
                            }
                        }
                    }
                    if pre.timer_order() && (pre_es.len() == 0 || exists|j: int|
                        0 <= j < pre_es.len() && (#[trigger] pre_es[j]).delay.ticks
                            <= timer_delay.ticks) {
                        assert(post.timer_order()) by {
                            assert forall|a: McEventId|
                                #[trigger] post.available().has(a) && post.has_event(a) implies (
                            post.event_of(a) matches McEvent::TimerFired {
                                proc: p2,
                                timer: t2,
                                timer_delay: dl2,
                            } ==> {
                                let es2 = rpost.timer_entries(p2@);
                                es2.len() > 0 && crate::dependency::first_min_id(es2) == a
                            }) by {
                                if a == id {
                                    if post.available().has(id) {
                                        if pre.available().has(id) {
                                            assert(pre.has_event(id));
                                        }
                                        assert(now_min_flag);
                                        if pre_es.len() > 0 {
                                            let j = choose|j: int|
                                                0 <= j < pre_es.len() && (
                                                #[trigger] pre_es[j]).delay.ticks
                                                    <= timer_delay.ticks;
                                            assert(post_es[j] == pre_es[j]);
                                            assert(post_es[pre_es.len() as int].delay.ticks
                                                < post_es[j].delay.ticks);
                                        }
                                        assert(pre_es.len() == 0);
                                        assert(exists|k2: int| is_first_min(post_es, k2)) by {
                                            assert(is_first_min(post_es, 0));
                                        }
                                        crate::dependency::lemma_first_min_unique(
                                            post_es,
                                            0,
                                            first_min_index(post_es),
                                        );
                                    }
                                } else {
                                    assert(pre.available().has(a) && pre.has_event(a));
                                    assert(post.event_of(a) == pre.event_of(a));
                                    match post.event_of(a) {
                                        McEvent::TimerFired {
                                            proc: p2,
                                            timer: t2,
                                            timer_delay: dl2,
                                        } => {
                                            if p2@ == key_p {
                                            assert(pre_es.len() > 0);
                                            assert(!now_min_flag) by {
                                                if now_min_flag {
                                                    let j = choose|j: int|
                                                        0 <= j < pre_es.len() && (
                                                        #[trigger] pre_es[j]).delay.ticks
                                                            <= timer_delay.ticks;
                                                    assert(post_es[j] == pre_es[j]);
                                                    assert(post_es[pre_es.len() as int].delay.ticks
                                                        < post_es[j].delay.ticks);
                                                }
                                            }
                                                crate::dependency::lemma_first_min_push_stable(
                                                    pre_es,
                                                    TimerEntry { delay: timer_delay, id },
                                                );
                                            } else {
                                                assert(rpost.timer_entries(p2@)
                                                    == rpre.timer_entries(p2@));
                                            }
                                        },
                                        _ => {},
                                    }
                                }
                            }
                        }
                    }
        },
        _ => {},
    }
}

/// Pushing a directive preserves the store invariant and the timer order.
#[verifier::rlimit(100)]
#[verifier::spinoff_prover]
proof fn lemma_push_directive_wf(
    pre: PendingEvents,
    post: PendingEvents,
    ev: McEvent,
    id: McEventId,
)
    requires
        pre.wf(),
        !pre.has_event(id),
        ev.is_directive(),
        post.events() == pre.events().push(EventEntry { id, event: ev }),
        pre.counter() <= post.counter(),
        id < post.counter(),
        post.mapping() == pre.mapping(),
        post.resolver() == pre.resolver(),
        post.available() == pre.available(),
        post.directive_ids().wf(),
        forall|d: McEventId|
            #[trigger] post.directive_ids().has(d) <==> pre.directive_ids().has(d) || d == id,
    ensures
        post.wf(),
        pre.timer_order() ==> post.timer_order(),
{
    lemma_push_lookup(pre, post, EventEntry { id, event: ev });
    let n = pre.events().len() as int;
    assert(post.counter_dominates()) by {
        assert forall|i: int| 0 <= i < post.events().len() implies (
        #[trigger] post.events()[i]).id < post.counter() by {
            if i < n {
                assert(post.events()[i] == pre.events()[i]);
            }
        }
    }
    {
                    let rpost = post.resolver();
                    assert(rpost == pre.resolver());
                    assert forall|i: int| 0 <= i < post.events().len() implies post.msg_linked(i)
                        && post.timer_linked(i) by {
                        if i < n {
                            assert(post.events()[i] == pre.events()[i]);
                            assert(pre.msg_linked(i) && pre.timer_linked(i));
                        }
                    }
                    assert forall|qi: int, ei: int|
                        0 <= qi < rpost.queues().len() && 0 <= ei
                            < rpost.queues()[qi].entries@.len() implies #[trigger] post.msg_entry_linked(
                        qi,
                        ei,
                    ) by {
                        assert(pre.msg_entry_linked(qi, ei));
                    }
                    assert forall|pi: int, ei: int|
                        0 <= pi < rpost.timers().len() && 0 <= ei
                            < rpost.timers()[pi].entries@.len() implies #[trigger] post.timer_entry_linked(
                        pi,
                        ei,
                    ) by {
                        assert(pre.timer_entry_linked(pi, ei));
                    }
                    assert(post.directives_exact()) by {
                        assert forall|d: McEventId| #[trigger]
                            post.directive_ids().has(d) <==> post.has_event(d) && post.event_of(
                            d,
                        ).is_directive() by {
                            if d != id && pre.has_event(d) {
                                assert(post.event_of(d) == pre.event_of(d));
                            }
                            if d == id {
                                assert(post.event_of(id) == ev);
                            }
                        }
                    }
                    assert(post.heads_avail()) by {
                        assert forall|qi: int|
                            0 <= qi < rpost.queues().len()
                                && (#[trigger] rpost.queues()[qi]).entries@.len()
                                > 0 implies post.available().has(
                            rpost.queues()[qi].entries@[0].id,
                        ) by {
                            assert(rpost.queues()[qi].entries@.len() > 0);
                            assert(pre.available().has(rpost.queues()[qi].entries@[0].id));
                        }
                    }
                    assert(post.avail_msgs_are_heads() && post.mins_avail()) by {
                        assert(post.available() == pre.available());
                        assert forall|a: McEventId|
                            #[trigger] post.available().has(a) && post.has_event(a) implies
                        post.event_of(a) == pre.event_of(a) && pre.available().has(a)
                            && pre.has_event(a) by {}
                    }
                    if pre.timer_order() {
                        assert(post.timer_order()) by {
                            assert forall|a: McEventId|
                                #[trigger] post.available().has(a) && post.has_event(a) implies (
                            post.event_of(a) matches McEvent::TimerFired {
                                proc: p2,
                                timer: t2,
                                timer_delay: dl2,
                            } ==> {
                                let es2 = rpost.timer_entries(p2@);
                                es2.len() > 0 && crate::dependency::first_min_id(es2) == a
                            }) by {
                                assert(pre.available().has(a) && pre.has_event(a));
                                assert(post.event_of(a) == pre.event_of(a));
                            }
                        }
                    }
    }
}

impl PendingEvents {
    /// The stored events, in insertion order.
    pub closed spec fn events(self) -> Seq<EventEntry> {
        self.events@
    }

    /// The timer index entries.
    pub closed spec fn mapping(self) -> Seq<TimerMapEntry> {
        self.timer_mapping@
    }

    /// Ids of events not blocked by causal ordering.
    pub closed spec fn available(self) -> IdSet {
        self.available_events
    }

    /// Ids of pending directives.
    pub closed spec fn directive_ids(self) -> IdSet {
        self.directives
    }

    /// The dependency resolver state.
    pub closed spec fn resolver(self) -> DependencyResolver {
        self.resolver
    }

    /// The next id that `push` will assign.
    pub closed spec fn counter(self) -> McEventId {
        self.id_counter
    }

    /// Whether an event with id `id` is pending.
    pub open spec fn has_event(self, id: McEventId) -> bool {
        exists|i: int| 0 <= i < self.events().len() && (#[trigger] self.events()[i]).id == id
    }

    /// The position of the pending event with id `id`.
    pub open spec fn event_index(self, id: McEventId) -> int {
        choose|i: int| 0 <= i < self.events().len() && (#[trigger] self.events()[i]).id == id
    }

    /// The pending event with id `id`.
    pub open spec fn event_of(self, id: McEventId) -> McEvent {
        self.events()[self.event_index(id)].event
    }

    /// Whether the timer index holds a (process, timer name) key.
    pub open spec fn has_timer_key(self, proc: Seq<char>, timer: Seq<char>) -> bool {
        exists|i: int|
            0 <= i < self.mapping().len() && (#[trigger] self.mapping()[i]).proc@ == proc
                && self.mapping()[i].timer@ == timer
    }

    /// Pending event ids are pairwise distinct.
    pub open spec fn ids_unique(self) -> bool {
        forall|i: int, j: int|
            0 <= i < j < self.events().len() ==> (#[trigger] self.events()[i]).id
                != (#[trigger] self.events()[j]).id
    }

    /// Every pending id is below the id counter, so `push` assigns fresh ids.
    pub open spec fn counter_dominates(self) -> bool {
        forall|i: int|
            0 <= i < self.events().len() ==> (#[trigger] self.events()[i]).id < self.counter()
    }

    /// Every pending message event is registered in its pair's FIFO queue.
    pub open spec fn msg_linked(self, i: int) -> bool {
        self.events()[i].event matches McEvent::MessageReceived { msg, src, dest } ==> {
            let es = self.resolver().msg_entries(src@, dest@);
            exists|ei: int|
                0 <= ei < es.len() && (#[trigger] es[ei]).id == self.events()[i].id && es[ei].msg@
                    == msg@
        }
    }

    /// Every resolver message entry is a pending message event with the
    /// queue's key and the entry's payload.
    pub open spec fn msg_entry_linked(self, qi: int, ei: int) -> bool {
        {
            let q = self.resolver().queues()[qi];
            let e = q.entries@[ei];
            &&& self.has_event(e.id)
            &&& (self.event_of(e.id) matches McEvent::MessageReceived { msg, src, dest }
                && msg@ == e.msg@ && src@ == q.src@ && dest@ == q.dest@)
        }
    }

    /// Every pending timer event is registered with its process.
    pub open spec fn timer_linked(self, i: int) -> bool {
        self.events()[i].event matches McEvent::TimerFired { proc, timer, timer_delay } ==> {
            let es = self.resolver().timer_entries(proc@);
            exists|ei: int|
                0 <= ei < es.len() && (#[trigger] es[ei]).id == self.events()[i].id
                    && es[ei].delay == timer_delay
        }
    }

    /// Every resolver timer entry is a pending timer event of that process
    /// with the entry's delay.
    pub open spec fn timer_entry_linked(self, pi: int, ei: int) -> bool {
        {
            let t = self.resolver().timers()[pi];
            let e = t.entries@[ei];
            &&& self.has_event(e.id)
            &&& (self.event_of(e.id) matches McEvent::TimerFired { proc, timer, timer_delay }
                && proc@ == t.proc@ && timer_delay == e.delay)
        }
    }

    /// The timer index keys are unique and each entry points at a pending
    /// timer event with that key.
    pub open spec fn mapping_wf(self) -> bool {
        &&& forall|i: int, j: int|
            0 <= i < j < self.mapping().len() ==> !((#[trigger] self.mapping()[i]).proc@
                == (#[trigger] self.mapping()[j]).proc@ && self.mapping()[i].timer@
                == self.mapping()[j].timer@)
        &&& forall|i: int|
            0 <= i < self.mapping().len() ==> {
                let m = #[trigger] self.mapping()[i];
                &&& self.has_event(m.id)
                &&& (self.event_of(m.id) matches McEvent::TimerFired { proc, timer, timer_delay }
                    && proc@ == m.proc@ && timer@ == m.timer@)
            }
    }

    /// The directive set holds exactly the pending cancellations and drops.
    pub open spec fn directives_exact(self) -> bool {
        forall|id: McEventId|
            #[trigger] self.directive_ids().has(id) <==> self.has_event(id) && self.event_of(
                id,
            ).is_directive()
    }

    /// Available ids are pending ordinary events.
    pub open spec fn avail_pending(self) -> bool {
        forall|id: McEventId|
            #[trigger] self.available().has(id) ==> self.has_event(id) && !self.event_of(
                id,
            ).is_directive()
    }

    /// The head of every non-empty message queue is available.
    pub open spec fn heads_avail(self) -> bool {
        forall|qi: int|
            0 <= qi < self.resolver().queues().len()
                && (#[trigger] self.resolver().queues()[qi]).entries@.len() > 0
                ==> self.available().has(self.resolver().queues()[qi].entries@[0].id)
    }

    /// Every available message event is the head of its pair's queue.
    pub open spec fn avail_msgs_are_heads(self) -> bool {
        forall|id: McEventId|
            #[trigger] self.available().has(id) && self.has_event(id) ==> (self.event_of(id)
                matches McEvent::MessageReceived { msg, src, dest } ==> {
                let es = self.resolver().msg_entries(src@, dest@);
                es.len() > 0 && es[0].id == id
            })
    }

    /// The first-minimal timer of every process with pending timers is
    /// available.
    pub open spec fn mins_avail(self) -> bool {
        forall|pi: int|
            0 <= pi < self.resolver().timers().len()
                && (#[trigger] self.resolver().timers()[pi]).entries@.len() > 0
                ==> self.available().has(first_min_id(self.resolver().timers()[pi].entries@))
    }

    /// The well-formedness invariant of the store.
    pub open spec fn wf(self) -> bool {
        &&& self.ids_unique()
        &&& self.counter_dominates()
        &&& self.resolver().wf()
        &&& self.available().wf()
        &&& self.directive_ids().wf()
        &&& forall|i: int| 0 <= i < self.events().len() ==> self.msg_linked(i)
        &&& forall|qi: int, ei: int|
            0 <= qi < self.resolver().queues().len() && 0 <= ei
                < self.resolver().queues()[qi].entries@.len() ==> #[trigger] self.msg_entry_linked(
                qi,
                ei,
            )
        &&& forall|i: int| 0 <= i < self.events().len() ==> self.timer_linked(i)
        &&& forall|pi: int, ei: int|
            0 <= pi < self.resolver().timers().len() && 0 <= ei
                < self.resolver().timers()[pi].entries@.len()
                ==> #[trigger] self.timer_entry_linked(pi, ei)
        &&& self.mapping_wf()
        &&& self.directives_exact()
        &&& self.avail_pending()
        &&& self.heads_avail()
        &&& self.avail_msgs_are_heads()
        &&& self.mins_avail()
    }

    /// Every available timer event is the one timer of its process that is
    /// allowed to fire: the earliest-inserted entry of minimal delay.
    pub open spec fn timer_order(self) -> bool {
        forall|id: McEventId|
            #[trigger] self.available().has(id) && self.has_event(id) ==> (self.event_of(id)
                matches McEvent::TimerFired { proc, timer, timer_delay } ==> {
                let es = self.resolver().timer_entries(proc@);
                es.len() > 0 && first_min_id(es) == id
            })
    }

    /// Creates a new empty store.
    pub fn new() -> (r: PendingEvents)
        ensures
            r.wf(),
            r.timer_order(),
            r.events() == Seq::<EventEntry>::empty(),
            r.counter() == 0,
            r.available()@ == Seq::<McEventId>::empty(),
            r.directive_ids()@ == Seq::<McEventId>::empty(),
    {
        PendingEvents {
            events: Vec::new(),
            timer_mapping: Vec::new(),
            available_events: IdSet::new(),
            directives: IdSet::new(),
            resolver: DependencyResolver::new(),
            id_counter: 0,
        }
    }

    /// Stores `event` under the given id, which must be fresh, and returns
    /// that id. The event is registered with the dependency resolver and
    /// becomes available immediately exactly when nothing blocks it: a
    /// message when it heads its pair's queue, a timer when it is the one
    /// timer of its process allowed to fire; directives always preempt.
    /// A timer overwrites any previous timer-index entry of the same
    /// (process, timer name) key, which then names the newest such timer.
    #[verifier::rlimit(100)]
    #[verifier::spinoff_prover]
    pub fn push_with_fixed_id(&mut self, event: McEvent, id: McEventId) -> (r: McEventId)
        requires
            old(self).wf(),
            !old(self).has_event(id),
            id < usize::MAX,
        ensures
            r == id,
            final(self).wf(),
            final(self).events() == old(self).events().push(EventEntry { id, event }),
            final(self).counter() == if id >= old(self).counter() {
                id + 1
            } else {
                old(self).counter() as int
            },
            event.is_directive() ==> {
                &&& final(self).resolver() == old(self).resolver()
                &&& final(self).mapping() == old(self).mapping()
                &&& final(self).available()@ == old(self).available()@
                &&& forall|d: McEventId|
                    #[trigger] final(self).directive_ids().has(d) <==> old(self).directive_ids().has(d) || d == id
            },
            !event.is_directive() ==> final(self).directive_ids()@ == old(self).directive_ids()@,
            event matches McEvent::MessageReceived { msg, src, dest } ==> {
                &&& final(self).resolver().msg_entries(src@, dest@) == old(self).resolver().msg_entries(src@, dest@).push(MsgEntry { msg, id })
                &&& forall|s2: Seq<char>, d2: Seq<char>|
                    !(s2 == src@ && d2 == dest@) ==> #[trigger] final(self).resolver().msg_entries(
                        s2,
                        d2,
                    ) == old(self).resolver().msg_entries(s2, d2)
                &&& final(self).resolver().timers() == old(self).resolver().timers()
                &&& final(self).mapping() == old(self).mapping()
                &&& forall|a: McEventId|
                    #[trigger] final(self).available().has(a) <==> old(self).available().has(a) || (
                    a == id && old(self).resolver().msg_entries(src@, dest@).len() == 0)
            },
            event matches McEvent::TimerFired { proc, timer, timer_delay } ==> {
                &&& final(self).resolver().timer_entries(proc@) == old(self).resolver().timer_entries(proc@).push(TimerEntry { delay: timer_delay, id })
                &&& forall|p2: Seq<char>|
                    p2 != proc@ ==> #[trigger] final(self).resolver().timer_entries(p2) == old(self).resolver().timer_entries(p2)
                &&& final(self).resolver().queues() == old(self).resolver().queues()
                &&& if old(self).has_timer_key(proc@, timer@) {
                    exists|mi: int|
                        0 <= mi < old(self).mapping().len() && (
                        #[trigger] old(self).mapping()[mi]).proc@ == proc@
                            && old(self).mapping()[mi].timer@ == timer@ && final(self).mapping()
                            == old(self).mapping().update(mi, TimerMapEntry { proc, timer, id })
                } else {
                    final(self).mapping() == old(self).mapping().push(
                        TimerMapEntry { proc, timer, id },
                    )
                }
                &&& forall|a: McEventId|
                    #[trigger] final(self).available().has(a) <==> old(self).available().has(a) || (
                    a == id && is_first_min(
                        final(self).resolver().timer_entries(proc@),
                        old(self).resolver().timer_entries(proc@).len() as int,
                    ))
            },
            old(self).timer_order() && (event matches McEvent::TimerFired {
                proc,
                timer,
                timer_delay,
            } ==> (old(self).resolver().timer_entries(proc@).len() == 0 || exists|j: int|
                0 <= j < old(self).resolver().timer_entries(proc@).len()
                    && (#[trigger] old(self).resolver().timer_entries(proc@)[j]).delay.ticks
                    <= timer_delay.ticks)) ==> final(self).timer_order(),
    {
        let ghost pre = *self;
        let ghost ev = event;
        match &event {
            McEvent::MessageReceived { msg, src, dest } => {
                proof {
                    if pre.resolver().has_msg_id(id) {
                        let (qi, ei) = choose|qi: int, ei: int|
                            0 <= qi < pre.resolver().queues().len() && 0 <= ei
                                < pre.resolver().queues()[qi].entries@.len()
                                && #[trigger] pre.resolver().queues()[qi].entries@[ei].id == id;
                        assert(pre.msg_entry_linked(qi, ei));
                        assert(false);
                    }
                }
                let at_head = self.resolver.add_message(msg.clone(), src.clone(), dest.clone(), id);
                if at_head {
                    self.available_events.insert(id);
                }
            },
            McEvent::TimerFired { proc, timer, timer_delay } => {
                proof {
                    if pre.resolver().has_timer_id(id) {
                        let (pi, ei) = choose|pi: int, ei: int|
                            0 <= pi < pre.resolver().timers().len() && 0 <= ei
                                < pre.resolver().timers()[pi].entries@.len()
                                && #[trigger] pre.resolver().timers()[pi].entries@[ei].id == id;
                        assert(pre.timer_entry_linked(pi, ei));
                        assert(false);
                    }
                }
                let mlen = self.timer_mapping.len();
                let mut mi: usize = 0;
                while mi < mlen && !(self.timer_mapping[mi].proc == *proc
                    && self.timer_mapping[mi].timer == *timer)
                    invariant
                        *self == pre,
                        mlen == pre.mapping().len(),
                        0 <= mi <= mlen,
                        forall|k: int|
                            0 <= k < mi ==> !((#[trigger] pre.mapping()[k]).proc@ == proc@
                                && pre.mapping()[k].timer@ == timer@),
                    decreases mlen - mi,
                {
                    mi += 1;
                }
                if mi < mlen {
                    proof {
                        assert(pre.mapping()[mi as int].proc@ == proc@
                            && pre.mapping()[mi as int].timer@ == timer@);
                        assert(pre.has_timer_key(proc@, timer@));
                    }
                    self.timer_mapping.set(
                        mi,
                        TimerMapEntry { proc: proc.clone(), timer: timer.clone(), id },
                    );
                } else {
                    proof {
                        if pre.has_timer_key(proc@, timer@) {
                            let k = choose|k: int|
                                0 <= k < pre.mapping().len() && (#[trigger] pre.mapping()[k]).proc@
                                    == proc@ && pre.mapping()[k].timer@ == timer@;
                        }
                        assert(!pre.has_timer_key(proc@, timer@));
                    }
                    self.timer_mapping.push(
                        TimerMapEntry { proc: proc.clone(), timer: timer.clone(), id },
                    );
                }
                let now_min = self.resolver.add_timer(proc.clone(), *timer_delay, id);
                if now_min {
                    self.available_events.insert(id);
                }
            },
            McEvent::TimerCancelled { .. } => {
                self.directives.insert(id);
            },
            McEvent::MessageDropped { .. } => {
                self.directives.insert(id);
            },
        }
        self.events.push(EventEntry { id, event });
        if id >= self.id_counter {
            self.id_counter = id + 1;
        }
        proof {
            let post = *self;
            match ev {
                McEvent::MessageReceived { .. } => {
                    lemma_push_msg_wf(pre, post, ev, id);
                },
                McEvent::TimerFired { .. } => {
                    lemma_push_timer_wf(pre, post, ev, id);
                },
                McEvent::TimerCancelled { .. } | McEvent::MessageDropped { .. } => {
                    lemma_push_directive_wf(pre, post, ev, id);
                },
            }
            lemma_push_lookup(pre, post, EventEntry { id, event: ev });
        }
        id
    }

    /// Messages of one (source, destination) pair are delivered in send
    /// order: an available message event is the earliest-inserted pending
    /// message of its pair, and `pop` exposes the next one in insertion
    /// order, so the delivery order is the insertion order.
    pub proof fn lemma_message_fifo(self, id: McEventId)
        requires
            self.wf(),
            self.available().has(id),
            self.event_of(id) is MessageReceived,
        ensures
            self.event_of(id) matches McEvent::MessageReceived { msg, src, dest } ==> {
                let es = self.resolver().msg_entries(src@, dest@);
                &&& es.len() > 0
                &&& es[0].id == id
                &&& forall|ei: int| 0 < ei < es.len() ==> (#[trigger] es[ei]).id != id
            },
    {
        assert(self.has_event(id)) by {
            assert(self.avail_pending());
        }
        match self.event_of(id) {
            McEvent::MessageReceived { msg, src, dest } => {
                let es = self.resolver().msg_entries(src@, dest@);
                assert(es.len() > 0 && es[0].id == id);
                assert forall|ei: int| 0 < ei < es.len() implies (#[trigger] es[ei]).id != id by {
                    assert(self.resolver().has_queue(src@, dest@));
                    let qi = self.resolver().queue_index(src@, dest@);
                    crate::dependency::lemma_queue_lookup(self.resolver(), qi);
                    assert(self.resolver().queues()[qi].entries@[0].id
                        != self.resolver().queues()[qi].entries@[ei].id);
                }
            },
            _ => {},
        }
    }

    /// Timers of one process fire in non-decreasing delay order, with
    /// insertion order breaking ties: an available timer event has a delay
    /// no greater than any other pending timer of its process, and precedes
    /// every equal-delay one in insertion order.
    pub proof fn lemma_timer_fire_order(self, id: McEventId)
        requires
            self.wf(),
            self.timer_order(),
            self.available().has(id),
            self.event_of(id) is TimerFired,
        ensures
            self.event_of(id) matches McEvent::TimerFired { proc, timer, timer_delay } ==> {
                let es = self.resolver().timer_entries(proc@);
                &&& es.len() > 0
                &&& exists|k: int| 0 <= k < es.len() && (#[trigger] es[k]).id == id
                &&& forall|k: int, j: int|
                    0 <= k < es.len() && (#[trigger] es[k]).id == id && 0 <= j < es.len() && j != k
                        ==> timer_delay.ticks < (#[trigger] es[j]).delay.ticks || (timer_delay.ticks
                        == es[j].delay.ticks && k < j)
            },
    {
        assert(self.has_event(id)) by {
            assert(self.avail_pending());
        }
        match self.event_of(id) {
            McEvent::TimerFired { proc, timer, timer_delay } => {
                let es = self.resolver().timer_entries(proc@);
                assert(es.len() > 0 && first_min_id(es) == id);
                crate::dependency::lemma_first_min_exists(es);
                let fm = first_min_index(es);
                assert(es[fm].id == id);
                assert forall|k: int, j: int|
                    0 <= k < es.len() && (#[trigger] es[k]).id == id && 0 <= j < es.len() && j
                        != k implies timer_delay.ticks < (#[trigger] es[j]).delay.ticks || (
                timer_delay.ticks == es[j].delay.ticks && k < j) by {
                    assert(self.resolver().has_proc(proc@)) by {
                        if !self.resolver().has_proc(proc@) {
                            assert(es.len() == 0);
                        }
                    }
                    let pqi = self.resolver().proc_index(proc@);
                    crate::dependency::lemma_proc_lookup(self.resolver(), pqi);
                    if k != fm {
                        assert(self.resolver().timers()[pqi].entries@[k].id
                            != self.resolver().timers()[pqi].entries@[fm].id);
                    }
                    assert(k == fm);
                    assert(es[k].delay == timer_delay) by {
                        assert(self.timer_entry_linked(pqi, k));
                    }
                    if j > k {
                        assert(es[k].delay.ticks <= es[j].delay.ticks);
                    }
                }
            },
            _ => {},
        }
    }

    /// Pushing an event into an empty store and then popping the id it was
    /// assigned hands the same event back: the stored event under the fresh
    /// id is exactly the pushed one, and `pop` returns the stored event.
    pub proof fn lemma_push_pop_roundtrip(self, post: PendingEvents, ev: McEvent, id: McEventId)
        requires
            self.events().len() == 0,
            post.events() == self.events().push(EventEntry { id, event: ev }),
        ensures
            post.has_event(id),
            post.event_of(id) == ev,
    {
        assert(!self.has_event(id)) by {
            if self.has_event(id) {
                let i = choose|i: int|
                    0 <= i < self.events().len() && (#[trigger] self.events()[i]).id == id;
            }
        }
        assert(self.ids_unique());
        lemma_push_lookup(self, post, EventEntry { id, event: ev });
    }

    /// Under `wf`, a non-empty pair queue's head is available.
    pub proof fn lemma_head_avail_key(self, s: Seq<char>, d: Seq<char>)
        requires
            self.wf(),
            self.resolver().msg_entries(s, d).len() > 0,
        ensures
            self.available().has(self.resolver().msg_entries(s, d)[0].id),
    {
        assert(self.resolver().has_queue(s, d));
        let qi = self.resolver().queue_index(s, d);
        crate::dependency::lemma_queue_lookup(self.resolver(), qi);
        assert(self.resolver().queues()[qi].entries@.len() > 0);
    }

    /// Under `wf`, the first-minimal timer of a process with pending timers
    /// is available.
    pub proof fn lemma_min_avail_key(self, p: Seq<char>)
        requires
            self.wf(),
            self.resolver().timer_entries(p).len() > 0,
        ensures
            self.available().has(first_min_id(self.resolver().timer_entries(p))),
    {
        assert(self.resolver().has_proc(p));
        let pi = self.resolver().proc_index(p);
        crate::dependency::lemma_proc_lookup(self.resolver(), pi);
        assert(self.resolver().timers()[pi].entries@.len() > 0);
    }

    /// Under `wf`, a queue entry looked up by key is linked to its pending
    /// message event.
    pub proof fn lemma_msg_entry_linked_key(self, s: Seq<char>, d: Seq<char>, ei: int)
        requires
            self.wf(),
            0 <= ei < self.resolver().msg_entries(s, d).len(),
        ensures
            ({
                let e = self.resolver().msg_entries(s, d)[ei];
                &&& self.has_event(e.id)
                &&& (self.event_of(e.id) matches McEvent::MessageReceived { msg, src, dest }
                    && msg@ == e.msg@ && src@ == s && dest@ == d)
            }),
    {
        assert(self.resolver().has_queue(s, d));
        let qi = self.resolver().queue_index(s, d);
        crate::dependency::lemma_queue_lookup(self.resolver(), qi);
        assert(self.msg_entry_linked(qi, ei));
    }

    /// Under `wf`, a timer entry looked up by process is linked to its
    /// pending timer event.
    pub proof fn lemma_timer_entry_linked_key(self, p: Seq<char>, ei: int)
        requires
            self.wf(),
            0 <= ei < self.resolver().timer_entries(p).len(),
        ensures
            ({
                let e = self.resolver().timer_entries(p)[ei];
                &&& self.has_event(e.id)
                &&& (self.event_of(e.id) matches McEvent::TimerFired { proc, timer, timer_delay }
                    && proc@ == p && timer_delay == e.delay)
            }),
    {
        assert(self.resolver().has_proc(p));
        let pi = self.resolver().proc_index(p);
        crate::dependency::lemma_proc_lookup(self.resolver(), pi);
        assert(self.timer_entry_linked(pi, ei));
    }

    /// Stores the event under a fresh id and returns that id.
    pub fn push(&mut self, event: McEvent) -> (id: McEventId)
        requires
            old(self).wf(),
            old(self).counter() < usize::MAX,
        ensures
            id == old(self).counter(),
            final(self).wf(),
            final(self).counter() == id + 1,
            final(self).events() == old(self).events().push(EventEntry { id, event }),
            event.is_directive() ==> {
                &&& final(self).resolver() == old(self).resolver()
                &&& final(self).mapping() == old(self).mapping()
                &&& final(self).available()@ == old(self).available()@
                &&& forall|d: McEventId|
                    #[trigger] final(self).directive_ids().has(d) <==> old(self).directive_ids().has(d) || d == id
            },
            !event.is_directive() ==> final(self).directive_ids()@ == old(self).directive_ids()@,
            event matches McEvent::MessageReceived { msg, src, dest } ==> {
                &&& final(self).resolver().msg_entries(src@, dest@) == old(self).resolver().msg_entries(src@, dest@).push(MsgEntry { msg, id })
                &&& forall|s2: Seq<char>, d2: Seq<char>|
                    !(s2 == src@ && d2 == dest@) ==> #[trigger] final(self).resolver().msg_entries(
                        s2,
                        d2,
                    ) == old(self).resolver().msg_entries(s2, d2)
                &&& final(self).resolver().timers() == old(self).resolver().timers()
                &&& forall|a: McEventId|
                    #[trigger] final(self).available().has(a) <==> old(self).available().has(a) || (
                    a == id && old(self).resolver().msg_entries(src@, dest@).len() == 0)
            },
            event matches McEvent::TimerFired { proc, timer, timer_delay } ==> {
                &&& final(self).resolver().timer_entries(proc@) == old(self).resolver().timer_entries(proc@).push(TimerEntry { delay: timer_delay, id })
                &&& forall|p2: Seq<char>|
                    p2 != proc@ ==> #[trigger] final(self).resolver().timer_entries(p2) == old(self).resolver().timer_entries(p2)
                &&& final(self).resolver().queues() == old(self).resolver().queues()
                &&& if old(self).has_timer_key(proc@, timer@) {
                    exists|mi: int|
                        0 <= mi < old(self).mapping().len() && (
                        #[trigger] old(self).mapping()[mi]).proc@ == proc@
                            && old(self).mapping()[mi].timer@ == timer@ && final(self).mapping()
                            == old(self).mapping().update(mi, TimerMapEntry { proc, timer, id })
                } else {
                    final(self).mapping() == old(self).mapping().push(
                        TimerMapEntry { proc, timer, id },
                    )
                }
                &&& forall|a: McEventId|
                    #[trigger] final(self).available().has(a) <==> old(self).available().has(a) || (
                    a == id && is_first_min(
                        final(self).resolver().timer_entries(proc@),
                        old(self).resolver().timer_entries(proc@).len() as int,
                    ))
            },
            old(self).timer_order() && (event matches McEvent::TimerFired {
                proc,
                timer,
                timer_delay,
            } ==> (old(self).resolver().timer_entries(proc@).len() == 0 || exists|j: int|
                0 <= j < old(self).resolver().timer_entries(proc@).len()
                    && (#[trigger] old(self).resolver().timer_entries(proc@)[j]).delay.ticks
                    <= timer_delay.ticks)) ==> final(self).timer_order(),
    {
        let id = self.id_counter;
        self.push_with_fixed_id(event, id)
    }

    /// The id that the timer index maps the (process, timer name) key to.
    pub open spec fn timer_key_id(self, proc: Seq<char>, timer: Seq<char>) -> McEventId {
        let i = choose|i: int|
            0 <= i < self.mapping().len() && (#[trigger] self.mapping()[i]).proc@ == proc
                && self.mapping()[i].timer@ == timer;
        self.mapping()[i].id
    }

    /// Removes the pending event with id `id` and returns it. A message may
    /// be removed only when it heads its pair's queue; the resolver then
    /// unblocks the next message of the pair, or the newly first-minimal
    /// timer of the process. A popped timer also leaves the timer index,
    /// where it would otherwise go stale: the index then always names
    /// pending timers, and cancelling a timer that has already fired does
    /// nothing instead of failing on a dangling entry.
    #[verifier::rlimit(100)]
    #[verifier::spinoff_prover]
    pub fn pop(&mut self, event_id: McEventId) -> (r: McEvent)
        requires
            old(self).wf(),
            old(self).has_event(event_id),
            old(self).event_of(event_id) matches McEvent::MessageReceived { msg, src, dest } ==> {
                let es = old(self).resolver().msg_entries(src@, dest@);
                es.len() > 0 && es[0].id == event_id
            },
        ensures
            final(self).wf(),
            r == old(self).event_of(event_id),
            final(self).counter() == old(self).counter(),
            forall|x: McEventId|
                #[trigger] final(self).has_event(x) <==> old(self).has_event(x) && x != event_id,
            forall|x: McEventId|
                final(self).has_event(x) ==> #[trigger] final(self).event_of(x) == old(self).event_of(x),
            forall|d: McEventId|
                #[trigger] final(self).directive_ids().has(d) <==> old(self).directive_ids().has(d)
                    && d != event_id,
            old(self).timer_order() ==> final(self).timer_order(),
            r matches McEvent::MessageReceived { msg, src, dest } ==> {
                &&& final(self).resolver().msg_entries(src@, dest@) == old(self).resolver().msg_entries(src@, dest@).skip(1)
                &&& forall|s2: Seq<char>, d2: Seq<char>|
                    !(s2 == src@ && d2 == dest@) ==> #[trigger] final(self).resolver().msg_entries(
                        s2,
                        d2,
                    ) == old(self).resolver().msg_entries(s2, d2)
                &&& final(self).resolver().timers() == old(self).resolver().timers()
                &&& final(self).mapping() == old(self).mapping()
                &&& forall|a: McEventId|
                    #[trigger] final(self).available().has(a) <==> (old(self).available().has(a)
                        && a != event_id) || (old(self).resolver().msg_entries(src@, dest@).len()
                        > 1 && a == old(self).resolver().msg_entries(src@, dest@)[1].id)
            },
            r matches McEvent::TimerFired { proc, timer, timer_delay } ==> {
                let es = old(self).resolver().timer_entries(proc@);
                &&& exists|j: int|
                    0 <= j < es.len() && (#[trigger] es[j]).id == event_id && final(self).resolver().timer_entries(proc@) == es.remove(j)
                &&& forall|p2: Seq<char>|
                    p2 != proc@ ==> #[trigger] final(self).resolver().timer_entries(p2) == old(self).resolver().timer_entries(p2)
                &&& final(self).resolver().queues() == old(self).resolver().queues()
                &&& if exists|mi: int|
                    0 <= mi < old(self).mapping().len() && (#[trigger] old(self).mapping()[mi]).id
                        == event_id {
                    &&& exists|mi: int|
                        0 <= mi < old(self).mapping().len() && (
                        #[trigger] old(self).mapping()[mi]).id == event_id && final(self).mapping()
                            == old(self).mapping().remove(mi)
                    &&& !final(self).has_timer_key(proc@, timer@)
                } else {
                    final(self).mapping() == old(self).mapping()
                }
                &&& forall|a: McEventId|
                    #[trigger] final(self).available().has(a) <==> (old(self).available().has(a)
                        && a != event_id) || (final(self).resolver().timer_entries(proc@).len() > 0
                        && a == crate::dependency::first_min_id(
                        final(self).resolver().timer_entries(proc@),
                    ))
            },
            r.is_directive() ==> {
                &&& final(self).resolver() == old(self).resolver()
                &&& final(self).mapping() == old(self).mapping()
                &&& forall|a: McEventId|
                    #[trigger] final(self).available().has(a) <==> old(self).available().has(a)
                        && a != event_id
            },
    {
        let ghost pre = *self;
        let idx = find_event_idx(&self.events, event_id);
        proof {
            let k = pre.event_index(event_id);
            if k != idx {
                if k < idx {
                    assert(pre.events()[k].id != pre.events()[idx as int].id);
                } else {
                    assert(pre.events()[idx as int].id != pre.events()[k].id);
                }
            }
        }
        let entry = self.events.remove(idx);
        self.directives.remove(event_id);
        self.available_events.remove(event_id);
        match &entry.event {
            McEvent::TimerFired { proc, timer, timer_delay } => {
                proof {
                    let i = pre.event_index(event_id);
                    assert(pre.timer_linked(i));
                    assert(pre.resolver().has_timer_id(event_id)) by {
                        let es = pre.resolver().timer_entries(proc@);
                        let ei = choose|ei: int|
                            0 <= ei < es.len() && (#[trigger] es[ei]).id == event_id && es[ei].delay
                                == timer_delay;
                        assert(pre.resolver().has_proc(proc@)) by {
                            if !pre.resolver().has_proc(proc@) {
                                assert(es.len() == 0);
                            }
                        }
                        let pqi = pre.resolver().proc_index(proc@);
                        crate::dependency::lemma_proc_lookup(pre.resolver(), pqi);
                        assert(pre.resolver().timers()[pqi].entries@[ei].id == event_id);
                    }
                }
                match find_mapping_idx_opt(&self.timer_mapping, event_id) {
                    Some(mi) => {
                        self.timer_mapping.remove(mi);
                    },
                    None => {},
                }
                let unblocked = self.resolver.remove_timer(event_id);
                if let Some(u) = unblocked {
                    self.available_events.insert(u);
                }
                proof {
                    let post = *self;
                    assert(pre.resolver().timer_proc_of(event_id) == proc@) by {
                        let (pi2, ei2) = choose|pi2: int, ei2: int|
                            0 <= pi2 < pre.resolver().timers().len() && 0 <= ei2
                                < pre.resolver().timers()[pi2].entries@.len()
                                && #[trigger] pre.resolver().timers()[pi2].entries@[ei2].id
                                == event_id;
                        assert(pre.timer_entry_linked(pi2, ei2));
                    }
                    lemma_pop_timer_wf(pre, post, entry.event, event_id);
                }
            },
            McEvent::MessageReceived { msg, src, dest } => {
                proof {
                    let i = pre.event_index(event_id);
                    assert(pre.msg_linked(i));
                    pre.lemma_msg_entry_linked_key(src@, dest@, 0);
                }
                let next = self.resolver.remove_message(msg, src, dest);
                if let Some(u) = next {
                    self.available_events.insert(u);
                }
                proof {
                    let post = *self;
                    lemma_pop_msg_wf(pre, post, entry.event, event_id);
                }
            },
            McEvent::TimerCancelled { .. } => {
                proof {
                    lemma_pop_directive_wf(pre, *self, entry.event, event_id);
                }
            },
            McEvent::MessageDropped { .. } => {
                proof {
                    lemma_pop_directive_wf(pre, *self, entry.event, event_id);
                }
            },
        }
        entry.event
    }

    /// Cancels the pending timer with the given (process, timer name) key,
    /// if one exists, removing it from the store and the timer index. The
    /// index never holds entries of already-fired timers (see `pop`), so a
    /// cancellation after the timer fired finds no key and does nothing.
    pub fn cancel_timer(&mut self, proc: String, timer: String)
        requires
            old(self).wf(),
        ensures
            final(self).wf(),
            final(self).counter() == old(self).counter(),
            old(self).timer_order() ==> final(self).timer_order(),
            !old(self).has_timer_key(proc@, timer@) ==> *final(self) == *old(self),
            old(self).has_timer_key(proc@, timer@) ==> {
                let id = old(self).timer_key_id(proc@, timer@);
                &&& forall|x: McEventId|
                    #[trigger] final(self).has_event(x) <==> old(self).has_event(x) && x != id
                &&& forall|x: McEventId|
                    final(self).has_event(x) ==> #[trigger] final(self).event_of(x) == old(self).event_of(x)
                &&& !final(self).has_timer_key(proc@, timer@)
            },
    {
        let ghost pre = *self;
        let n = self.timer_mapping.len();
        let mut i: usize = 0;
        while i < n
            invariant
                *self == pre,
                pre == *old(self),
                pre.wf(),
                n == pre.mapping().len(),
                0 <= i <= n,
                forall|k: int|
                    0 <= k < i ==> !((#[trigger] pre.mapping()[k]).proc@ == proc@
                        && pre.mapping()[k].timer@ == timer@),
            decreases n - i,
        {
            if self.timer_mapping[i].proc == proc && self.timer_mapping[i].timer == timer {
                let id = self.timer_mapping[i].id;
                proof {
                    assert(pre.mapping()[i as int].proc@ == proc@ && pre.mapping()[i as int].timer@
                        == timer@ && pre.mapping()[i as int].id == id);
                    assert(pre.has_timer_key(proc@, timer@));
                    assert(pre.has_event(pre.mapping()[i as int].id) && (pre.event_of(
                        pre.mapping()[i as int].id,
                    ) matches McEvent::TimerFired { proc: p3, timer: t3, timer_delay: d3 }
                        && p3@ == pre.mapping()[i as int].proc@ && t3@
                        == pre.mapping()[i as int].timer@));
                    let k = choose|k: int|
                        0 <= k < pre.mapping().len() && (#[trigger] pre.mapping()[k]).proc@ == proc@
                            && pre.mapping()[k].timer@ == timer@;
                    if k != i {
                        let lo: int = if k < i {
                            k
                        } else {
                            i as int
                        };
                        let hi: int = if k < i {
                            i as int
                        } else {
                            k
                        };
                        assert(!(pre.mapping()[lo].proc@ == pre.mapping()[hi].proc@
                            && pre.mapping()[lo].timer@ == pre.mapping()[hi].timer@));
                    }
                    assert(pre.timer_key_id(proc@, timer@) == id);
                    assert(pre.has_event(id));
                    assert(pre.event_of(id) is TimerFired);
                }
                self.pop(id);
                return ;
            }
            i += 1;
        }
        proof {
            if pre.has_timer_key(proc@, timer@) {
                let k = choose|k: int|
                    0 <= k < pre.mapping().len() && (#[trigger] pre.mapping()[k]).proc@ == proc@
                        && pre.mapping()[k].timer@ == timer@;
            }
        }
    }

    /// Returns the pending event with id `id`, if any.
    pub fn get(&self, id: McEventId) -> (r: Option<&McEvent>)
        requires
            self.wf(),
        ensures
            match r {
                Some(e) => self.has_event(id) && *e == self.event_of(id),
                None => !self.has_event(id),
            },
    {
        let n = self.events.len();
        let mut i: usize = 0;
        while i < n
            invariant
                self.wf(),
                n == self.events().len(),
                0 <= i <= n,
                forall|k: int| 0 <= k < i ==> (#[trigger] self.events()[k]).id != id,
            decreases n - i,
        {
            if self.events[i].id == id {
                proof {
                    assert(self.has_event(id));
                    let k = self.event_index(id);
                    if k != i {
                        assert(self.events()[k].id == id && self.events()[i as int].id == id);
                    }
                }
                return Some(&self.events[i].event);
            }
            i += 1;
        }
        proof {
            if self.has_event(id) {
                let k = self.event_index(id);
                assert(self.events()[k].id == id);
            }
        }
        None
    }

    /// The ids of the currently explorable events, in increasing order.
    /// When any directive is pending, exploration is preempted: the result
    /// is exactly one directive id (the smallest). Otherwise it is the set
    /// of causally available events.
    pub fn available_events(&self) -> (r: Vec<McEventId>)
        requires
            self.wf(),
        ensures
            if self.directive_ids()@.len() > 0 {
                &&& r@.len() == 1
                &&& self.directive_ids().has(r@[0])
                &&& forall|d: McEventId| #[trigger] self.directive_ids().has(d) ==> r@[0] <= d
            } else {
                r@ == self.available()@
            },
    {
        match self.directives.min() {
            Some(d) => {
                let mut out: Vec<McEventId> = Vec::new();
                out.push(d);
                proof {
                    assert(self.directive_ids()@.len() > 0) by {
                        let k = choose|k: int|
                            0 <= k < self.directive_ids()@.len() && self.directive_ids()@[k] == d;
                    }
                }
                out
            },
            None => self.available_events.to_vec(),
        }
    }

    /// The number of currently explorable events: 1 when a directive is
    /// pending, otherwise the number of available events.
    pub fn available_events_num(&self) -> (r: usize)
        requires
            self.wf(),
        ensures
            r == if self.directive_ids()@.len() > 0 {
                1int
            } else {
                self.available()@.len() as int
            },
    {
        if !self.directives.is_empty() {
            return 1;
        }
        self.available_events.len()
    }
}

} // verus!
