//! Host-level invocation admission.
//!
//! An invoker decides, for each arriving invocation, whether it starts in a
//! warm (idle) container, waits for a deploying one (cold), is queued, or is
//! rejected outright; and it later drains its queue against freed resources.
//! Two dequeuing policies are provided: a naive full sweep and a FIFO policy
//! that never lets a younger invocation bypass the queue's head.

use crate::container::{
    deploys, is_candidate, reserves, starts_running, Container, ContainerManager, ContainerStatus,
};
use crate::function::{Application, FunctionRegistry};
use crate::invocation::Invocation;
use crate::stats::{
    bumps_cold_start, bumps_queueing, bumps_wasted, sat_add, spec_sat_add, Stats,
};
use vstd::prelude::*;

verus! {

/// The outcome of trying to place one invocation.
#[derive(Clone, Copy, Debug, PartialEq, Eq, Structural)]
pub enum InvokerDecision {
    /// Starts now in the idle container with this id.
    Warm(usize),
    /// Starts in the container with this id after the given delay.
    Cold(usize, u64),
    /// No capacity now; the invocation was queued.
    Queued,
    /// No capacity now; nothing was queued.
    Rejected,
}

/// One invocation admitted from the queue.
#[derive(Clone, Copy, Debug)]
pub struct DequeuedInvocation {
    /// The invocation.
    pub id: usize,
    /// The container it was assigned to.
    pub container_id: usize,
    /// Remaining deploy delay; absent for a warm start.
    pub delay: Option<u64>,
}

impl DequeuedInvocation {
    /// Builds the record.
    pub fn new(id: usize, container_id: usize, delay: Option<u64>) -> (r: DequeuedInvocation)
        ensures
            r.id == id && r.container_id == container_id && r.delay == delay,
    {
        DequeuedInvocation { id, container_id, delay }
    }
}

/// One queued invocation.
#[derive(Clone, Copy, Debug)]
pub struct InvokerQueueItem {
    /// The invocation.
    pub invocation_id: usize,
    /// Its function.
    pub func_id: usize,
    /// Its application.
    pub app_id: usize,
    /// Its arrival time.
    pub time: u64,
}

impl InvokerQueueItem {
    /// Builds the record.
    pub fn new(invocation_id: usize, func_id: usize, app_id: usize, time: u64) -> (r:
        InvokerQueueItem)
        ensures
            r.invocation_id == invocation_id && r.func_id == func_id && r.app_id == app_id
                && r.time == time,
    {
        InvokerQueueItem { invocation_id, func_id, app_id, time }
    }
}

/// Remaining wait before the container can accept work: zero when idle,
/// otherwise the remaining deploy time, clamped at zero.
pub open spec fn spec_wait(c: Container, time: u64) -> u64 {
    if c.status is Idle {
        0
    } else {
        let fin = spec_sat_add(c.last_change, c.deployment_time);
        if fin > time {
            (fin - time) as u64
        } else {
            0
        }
    }
}

/// Holds iff container `i` is the one `try_invoke` picks: a candidate whose
/// wait is minimal, earliest in id order among candidates of equal wait.
pub open spec fn is_best(cs: Seq<Container>, app: Application, time: u64, i: int) -> bool {
    &&& 0 <= i < cs.len()
    &&& is_candidate(cs[i], app, true)
    &&& forall|j: int|
        0 <= j < cs.len() && is_candidate(#[trigger] cs[j], app, true) ==> spec_wait(cs[i], time)
            <= spec_wait(cs[j], time)
    &&& forall|j: int|
        0 <= j < i && is_candidate(#[trigger] cs[j], app, true) ==> spec_wait(cs[i], time)
            < spec_wait(cs[j], time)
}

/// Whether the application has a usable (idle or deploying) container.
pub open spec fn has_candidate(cs: Seq<Container>, app: Application) -> bool {
    exists|i: int| 0 <= i < cs.len() && is_candidate(#[trigger] cs[i], app, true)
}

/// The index `try_invoke` picks; meaningful only when `has_candidate`.
pub open spec fn best_index(cs: Seq<Container>, app: Application, time: u64) -> int {
    choose|i: int| is_best(cs, app, time, i)
}

/// Whether a fresh container of the application fits on the host.
pub open spec fn spec_fits(cm: ContainerManager, app: Application) -> bool {
    app.cores <= cm.core_capacity() - cm.cores_reserved() && app.memory <= cm.memory_capacity()
        - cm.memory_reserved()
}

/// When a candidate exists, a best one exists and is unique.
pub proof fn lemma_best_exists(cs: Seq<Container>, app: Application, time: u64)
    requires
        has_candidate(cs, app),
    ensures
        is_best(cs, app, time, best_index(cs, app, time)),
    decreases cs.len(),
{
    let i0 = choose|i: int| 0 <= i < cs.len() && is_candidate(#[trigger] cs[i], app, true);
    if cs.len() > 0 {
        let prefix = cs.drop_last();
        let last = cs.len() - 1;
        if has_candidate(prefix, app) {
            lemma_best_exists(prefix, app, time);
            let k = best_index(prefix, app, time);
            assert(forall|j: int| 0 <= j < last ==> prefix[j] == cs[j]);
            if is_candidate(cs[last], app, true) && spec_wait(cs[last], time) < spec_wait(
                cs[k],
                time,
            ) {
                assert(is_best(cs, app, time, last));
            } else {
                assert(is_best(cs, app, time, k));
            }
        } else {
            assert(i0 == last) by {
                if i0 < last {
                    assert(is_candidate(prefix[i0], app, true));
                }
            }
            assert(is_best(cs, app, time, last)) by {
                assert forall|j: int|
                    0 <= j < cs.len() && is_candidate(#[trigger] cs[j], app, true) implies
                spec_wait(cs[last], time) <= spec_wait(cs[j], time) by {
                    if j < last {
                        assert(is_candidate(prefix[j], app, true));
                    }
                }
                assert forall|j: int|
                    0 <= j < last && is_candidate(#[trigger] cs[j], app, true) implies
                spec_wait(cs[last], time) < spec_wait(cs[j], time) by {
                    assert(is_candidate(prefix[j], app, true));
                }
            }
        }
    }
    let k2 = choose|k2: int| is_best(cs, app, time, k2);
}

/// Two best indices are the same.
pub proof fn lemma_best_unique(cs: Seq<Container>, app: Application, time: u64, k1: int, k2: int)
    requires
        is_best(cs, app, time, k1),
        is_best(cs, app, time, k2),
    ensures
        k1 == k2,
{
}

/// Chooses the container for one invocation of `app`: the candidate with
/// the least remaining wait (warm when idle, cold when deploying), else a
/// freshly deployed container when resources allow, else rejection.
pub fn try_invoke(app: &Application, cm: &mut ContainerManager, time: u64) -> (r: InvokerDecision)
    requires
        old(cm).wf(),
    ensures
        final(cm).wf(),
        final(cm).core_capacity() == old(cm).core_capacity(),
        final(cm).memory_capacity() == old(cm).memory_capacity(),
        !(r is Queued),
        ({
            let cs = old(cm).containers();
            if has_candidate(cs, *app) {
                let b = best_index(cs, *app, time);
                &&& *final(cm) == *old(cm)
                &&& if cs[b].status is Idle {
                    r == InvokerDecision::Warm(b as usize)
                } else {
                    r == InvokerDecision::Cold((b as usize), spec_wait(cs[b], time))
                }
            } else if spec_fits(*old(cm), *app) {
                &&& r == InvokerDecision::Cold((cs.len() as usize), app.deployment_time)
                &&& deploys(*old(cm), *final(cm), *app, time)
            } else {
                &&& r == InvokerDecision::Rejected
                &&& *final(cm) == *old(cm)
            }
        }),
{
    let ghost cs = cm.containers();
    let cands = cm.get_possible_containers(app, true);
    let m = cands.len();
    if m > 0 {
        let mut best: usize = cands[0];
        let mut best_wait: u64 = wait_exec(cm.get_container(best).unwrap(), time);
        let mut k: usize = 1;
        proof {
            assert(is_candidate(cs[best as int], *app, true));
        }
        while k < m
            invariant
                cm.wf(),
                cs == cm.containers(),
                m == cands@.len(),
                0 < m,
                1 <= k <= m,
                forall|p: int|
                    0 <= p < cands@.len() ==> (#[trigger] cands@[p]) < cs.len() && is_candidate(
                        cs[cands@[p] as int],
                        *app,
                        true,
                    ),
                forall|i: int|
                    0 <= i < cs.len() && is_candidate(#[trigger] cs[i], *app, true)
                        ==> cands@.contains(i as usize),
                forall|p1: int, p2: int| 0 <= p1 < p2 < cands@.len() ==> cands@[p1] < cands@[p2],
                best < cs.len(),
                is_candidate(cs[best as int], *app, true),
                best_wait == spec_wait(cs[best as int], time),
                exists|p0: int| 0 <= p0 < k && cands@[p0] == best,
                forall|p: int|
                    0 <= p < k ==> best_wait <= spec_wait(cs[(#[trigger] cands@[p]) as int], time),
                forall|p: int|
                    0 <= p < k && (#[trigger] cands@[p]) < best ==> best_wait < spec_wait(
                        cs[cands@[p] as int],
                        time,
                    ),
            decreases m - k,
        {
            let cid = cands[k];
            let w = wait_exec(cm.get_container(cid).unwrap(), time);
            if w < best_wait {
                proof {
                    let p0 = choose|p0: int| 0 <= p0 < k && cands@[p0] == best;
                    assert forall|p: int|
                        0 <= p < k + 1 && (#[trigger] cands@[p]) < cid implies w < spec_wait(
                        cs[cands@[p] as int],
                        time,
                    ) by {
                        if p < k {
                            assert(best_wait <= spec_wait(cs[cands@[p] as int], time));
                        }
                    }
                }
                best = cid;
                best_wait = w;
            } else {
                proof {
                    if cands[k as int] < best {
                        let p0 = choose|p0: int| 0 <= p0 < k && cands@[p0] == best;
                        if p0 < k as int {
                            assert(cands@[p0] < cands@[k as int] || p0 == k as int);
                        }
                        assert(false);
                    }
                }
            }
            k += 1;
        }
        proof {
            assert(is_best(cs, *app, time, best as int)) by {
                assert forall|j: int|
                    0 <= j < cs.len() && is_candidate(#[trigger] cs[j], *app, true) implies
                spec_wait(cs[best as int], time) <= spec_wait(cs[j], time) by {
                    assert(cands@.contains(j as usize));
                    let p = choose|p: int| 0 <= p < cands@.len() && cands@[p] == j as usize;
                }
                assert forall|j: int|
                    0 <= j < best && is_candidate(#[trigger] cs[j], *app, true) implies spec_wait(
                    cs[best as int],
                    time,
                ) < spec_wait(cs[j], time) by {
                    assert(cands@.contains(j as usize));
                    let p = choose|p: int| 0 <= p < cands@.len() && cands@[p] == j as usize;
                }
            }
            assert(has_candidate(cs, *app));
            lemma_best_exists(cs, *app, time);
            lemma_best_unique(cs, *app, time, best as int, best_index(cs, *app, time));
        }
        let c = cm.get_container(best).unwrap();
        if matches!(c.status, ContainerStatus::Idle) {
            InvokerDecision::Warm(best)
        } else {
            InvokerDecision::Cold(best, best_wait)
        }
    } else {
        proof {
            if has_candidate(cs, *app) {
                let i = choose|i: int|
                    0 <= i < cs.len() && is_candidate(#[trigger] cs[i], *app, true);
                assert(cands@.contains(i as usize));
            }
        }
        match cm.try_deploy(app, time) {
            Some((id, delay)) => InvokerDecision::Cold(id, delay),
            None => InvokerDecision::Rejected,
        }
    }
}

/// Remaining wait before the container can accept work.
fn wait_exec(c: &Container, time: u64) -> (r: u64)
    ensures
        r == spec_wait(*c, time),
{
    if matches!(c.status, ContainerStatus::Idle) {
        0
    } else {
        let fin = sat_add(c.last_change, c.deployment_time);
        if fin > time {
            fin - time
        } else {
            0
        }
    }
}

/// `try_invoke` rejects exactly when no candidate exists and a fresh
/// container does not fit.
pub open spec fn spec_rejects(cm: ContainerManager, app: Application, time: u64) -> bool {
    !has_candidate(cm.containers(), app) && !spec_fits(cm, app)
}

/// One queued item was admitted: the exact effect of processing `item` at
/// `time` against manager state `cm0` and statistics `st0`. The decision is
/// the one `try_invoke` takes there; the record, the container transition
/// and the statistics samples are pinned for each of the three admission
/// shapes (warm, cold on an existing container, cold on a fresh one).
pub open spec fn spec_admit(
    app: Application,
    cm0: ContainerManager,
    st0: Stats,
    cm1: ContainerManager,
    st1: Stats,
    item: InvokerQueueItem,
    d: DequeuedInvocation,
    time: u64,
) -> bool {
    let cs = cm0.containers();
    let qwait = (time - item.time) as u64;
    &&& item.time <= time
    &&& app.id == item.app_id
    &&& !spec_rejects(cm0, app, time)
    &&& d.id == item.invocation_id
    &&& if has_candidate(cs, app) {
        let b = best_index(cs, app, time);
        if cs[b].status is Idle {
            &&& d.container_id == b
            &&& d.delay is None
            &&& starts_running(cm0, cm1, b as usize, item.invocation_id, time)
            &&& exists|s1: Stats, s2: Stats|
                {
                    let delta = if time >= cs[b].last_change {
                        (time - cs[b].last_change) as u64
                    } else {
                        0
                    };
                    &&& #[trigger] bumps_queueing(st0, s1, item.app_id, item.func_id, qwait)
                    &&& bumps_wasted(s1, s2, delta, cs[b].cores, cs[b].memory)
                    &&& #[trigger] bumps_cold_start(s2, st1, item.app_id, item.func_id, qwait)
                }
        } else {
            &&& d.container_id == b
            &&& d.delay == Some(spec_wait(cs[b], time))
            &&& reserves(cm0, cm1, b as usize, item.invocation_id)
            &&& exists|s1: Stats|
                {
                    &&& #[trigger] bumps_queueing(st0, s1, item.app_id, item.func_id, qwait)
                    &&& bumps_cold_start(
                        s1,
                        st1,
                        item.app_id,
                        item.func_id,
                        spec_sat_add(qwait, spec_wait(cs[b], time)),
                    )
                }
        }
    } else {
        &&& d.container_id == cs.len()
        &&& d.delay == Some(app.deployment_time)
        &&& exists|cmm: ContainerManager|
            #[trigger] deploys(cm0, cmm, app, time) && reserves(
                cmm,
                cm1,
                (cs.len() as usize),
                item.invocation_id,
            )
        &&& exists|s1: Stats|
            {
                &&& #[trigger] bumps_queueing(st0, s1, item.app_id, item.func_id, qwait)
                &&& bumps_cold_start(
                    s1,
                    st1,
                    item.app_id,
                    item.func_id,
                    spec_sat_add(qwait, app.deployment_time),
                )
            }
    }
}

/// The FIFO drain relation: processing queue prefix `q` in order from
/// `(cm0, st0)` ends at `(cm1, st1)` and yields the records `d`, each item
/// admitted at its turn by `spec_admit` against the state its predecessors
/// left behind.
pub open spec fn fifo_steps(
    q: Seq<InvokerQueueItem>,
    fr: FunctionRegistry,
    cm0: ContainerManager,
    st0: Stats,
    cm1: ContainerManager,
    st1: Stats,
    d: Seq<DequeuedInvocation>,
    time: u64,
) -> bool
    decreases q.len(),
{
    if q.len() == 0 {
        &&& cm1 == cm0
        &&& st1 == st0
        &&& d.len() == 0
    } else {
        &&& d.len() == q.len()
        &&& q.last().app_id < fr.apps().len()
        &&& exists|cmm: ContainerManager, stm: Stats|
            fifo_steps(q.drop_last(), fr, cm0, st0, cmm, stm, d.drop_last(), time)
                && #[trigger] spec_admit(
                fr.apps()[q.last().app_id as int],
                cmm,
                stm,
                cm1,
                st1,
                q.last(),
                d.last(),
                time,
            )
    }
}

/// The naive sweep relation: processing all of `q` in order from
/// `(cm0, st0)` ends at `(cm1, st1)`; each item is either admitted at its
/// turn by `spec_admit`, appending its record to `d`, or rejected at its
/// turn, leaving the state untouched and the item kept (in order) in
/// `kept`.
pub open spec fn naive_steps(
    q: Seq<InvokerQueueItem>,
    fr: FunctionRegistry,
    cm0: ContainerManager,
    st0: Stats,
    cm1: ContainerManager,
    st1: Stats,
    d: Seq<DequeuedInvocation>,
    kept: Seq<InvokerQueueItem>,
    time: u64,
) -> bool
    decreases q.len(),
{
    if q.len() == 0 {
        &&& cm1 == cm0
        &&& st1 == st0
        &&& d.len() == 0
        &&& kept.len() == 0
    } else {
        &&& q.last().app_id < fr.apps().len()
        &&& ({
            let app = fr.apps()[q.last().app_id as int];
            ||| (kept.len() > 0 && kept.last() == q.last() && spec_rejects(cm1, app, time)
                && naive_steps(q.drop_last(), fr, cm0, st0, cm1, st1, d, kept.drop_last(), time))
            ||| (d.len() > 0 && exists|cmm: ContainerManager, stm: Stats|
                naive_steps(
                    q.drop_last(),
                    fr,
                    cm0,
                    st0,
                    cmm,
                    stm,
                    d.drop_last(),
                    kept,
                    time,
                ) && #[trigger] spec_admit(app, cmm, stm, cm1, st1, q.last(), d.last(), time))
        })
    }
}

/// Extends a naive sweep by one admitted item.
pub proof fn lemma_naive_extend_admit(
    q: Seq<InvokerQueueItem>,
    fr: FunctionRegistry,
    cm0: ContainerManager,
    st0: Stats,
    cmm: ContainerManager,
    stm: Stats,
    cm1: ContainerManager,
    st1: Stats,
    d: Seq<DequeuedInvocation>,
    kept: Seq<InvokerQueueItem>,
    item: InvokerQueueItem,
    dnew: DequeuedInvocation,
    time: u64,
)
    requires
        naive_steps(q, fr, cm0, st0, cmm, stm, d, kept, time),
        item.app_id < fr.apps().len(),
        spec_admit(fr.apps()[item.app_id as int], cmm, stm, cm1, st1, item, dnew, time),
    ensures
        naive_steps(q.push(item), fr, cm0, st0, cm1, st1, d.push(dnew), kept, time),
{
    let q1 = q.push(item);
    let d1 = d.push(dnew);
    assert(q1.drop_last() =~= q);
    assert(d1.drop_last() =~= d);
    assert(q1.last() == item);
    assert(d1.last() == dnew);
    assert(naive_steps(q1.drop_last(), fr, cm0, st0, cmm, stm, d1.drop_last(), kept, time));
    assert(naive_steps(q1, fr, cm0, st0, cm1, st1, d1, kept, time));
}

/// Extends a naive sweep by one rejected item, kept in the queue.
pub proof fn lemma_naive_extend_reject(
    q: Seq<InvokerQueueItem>,
    fr: FunctionRegistry,
    cm0: ContainerManager,
    st0: Stats,
    cm1: ContainerManager,
    st1: Stats,
    d: Seq<DequeuedInvocation>,
    kept: Seq<InvokerQueueItem>,
    item: InvokerQueueItem,
    time: u64,
)
    requires
        naive_steps(q, fr, cm0, st0, cm1, st1, d, kept, time),
        item.app_id < fr.apps().len(),
        spec_rejects(cm1, fr.apps()[item.app_id as int], time),
    ensures
        naive_steps(q.push(item), fr, cm0, st0, cm1, st1, d, kept.push(item), time),
{
    let q1 = q.push(item);
    let k1 = kept.push(item);
    assert(q1.drop_last() =~= q);
    assert(k1.drop_last() =~= kept);
    assert(q1.last() == item);
    assert(k1.last() == item);
    assert(naive_steps(q1.drop_last(), fr, cm0, st0, cm1, st1, d, k1.drop_last(), time));
    assert(naive_steps(q1, fr, cm0, st0, cm1, st1, d, k1, time));
}

/// Extends a FIFO drain by one admitted item.
pub proof fn lemma_fifo_extend(
    q: Seq<InvokerQueueItem>,
    fr: FunctionRegistry,
    cm0: ContainerManager,
    st0: Stats,
    cmm: ContainerManager,
    stm: Stats,
    cm1: ContainerManager,
    st1: Stats,
    d: Seq<DequeuedInvocation>,
    item: InvokerQueueItem,
    dnew: DequeuedInvocation,
    time: u64,
)
    requires
        fifo_steps(q, fr, cm0, st0, cmm, stm, d, time),
        item.app_id < fr.apps().len(),
        spec_admit(fr.apps()[item.app_id as int], cmm, stm, cm1, st1, item, dnew, time),
    ensures
        fifo_steps(q.push(item), fr, cm0, st0, cm1, st1, d.push(dnew), time),
{
    let q1 = q.push(item);
    let d1 = d.push(dnew);
    assert(q1.drop_last() =~= q);
    assert(d1.drop_last() =~= d);
    assert(q1.last() == item);
    assert(d1.last() == dnew);
    assert(fifo_steps(q1.drop_last(), fr, cm0, st0, cmm, stm, d1.drop_last(), time));
    assert(fifo_steps(q1, fr, cm0, st0, cm1, st1, d1, time));
}

/// Admits one queued item: runs the accounting of a warm or cold start and
/// assigns the invocation to its container. Returns the admission record,
/// or nothing when the host rejects the item.
fn admit_item(
    item: InvokerQueueItem,
    app: &Application,
    cm: &mut ContainerManager,
    stats: &mut Stats,
    time: u64,
) -> (r: Option<DequeuedInvocation>)
    requires
        old(cm).wf(),
        old(stats).wf(),
        item.time <= time,
        app.id == item.app_id,
    ensures
        final(cm).wf(),
        final(stats).wf(),
        final(cm).core_capacity() == old(cm).core_capacity(),
        final(cm).memory_capacity() == old(cm).memory_capacity(),
        r is None <==> spec_rejects(*old(cm), *app, time),
        r is None ==> *final(cm) == *old(cm) && *final(stats) == *old(stats),
        r matches Some(d) ==> spec_admit(
            *app,
            *old(cm),
            *old(stats),
            *final(cm),
            *final(stats),
            item,
            d,
            time,
        ),
    {
        let ghost cs = cm.containers();
        let decision = try_invoke(app, cm, time);
        match decision {
            InvokerDecision::Warm(id) => {
                proof {
                    lemma_best_exists(cs, *app, time);
                }
                stats.update_queueing_time(item.app_id, item.func_id, time - item.time);
                let ghost st_a = *stats;
                let c_cores;
                let c_memory;
                let c_last_change;
                {
                    let c = cm.get_container(id).unwrap();
                    c_cores = c.cores;
                    c_memory = c.memory;
                    c_last_change = c.last_change;
                }
                let delta = if time >= c_last_change {
                    time - c_last_change
                } else {
                    0
                };
                stats.update_wasted_resources(delta, c_cores, c_memory);
                let ghost st_b = *stats;
                stats.on_cold_start(item.app_id, item.func_id, time - item.time);
                cm.start_running(id, item.invocation_id, time);
                proof {
                    let b = best_index(cs, *app, time);
                    let qwait = (time - item.time) as u64;
                    assert(bumps_queueing(*old(stats), st_a, item.app_id, item.func_id, qwait));
                    assert(bumps_cold_start(st_b, *stats, item.app_id, item.func_id, qwait));
                }
                Some(DequeuedInvocation::new(item.invocation_id, id, None))
            },
            InvokerDecision::Cold(id, delay) => {
                proof {
                    if has_candidate(cs, *app) {
                        lemma_best_exists(cs, *app, time);
                    }
                }
                let ghost cm_mid = *cm;
                stats.update_queueing_time(item.app_id, item.func_id, time - item.time);
                let ghost st_a = *stats;
                cm.reserve_container(id, item.invocation_id);
                stats.on_cold_start(item.app_id, item.func_id, sat_add(time - item.time, delay));
                proof {
                    let qwait = (time - item.time) as u64;
                    assert(bumps_queueing(*old(stats), st_a, item.app_id, item.func_id, qwait));
                    assert(bumps_cold_start(
                        st_a,
                        *stats,
                        item.app_id,
                        item.func_id,
                        spec_sat_add(qwait, delay),
                    ));
                    if !has_candidate(cs, *app) {
                        assert(deploys(*old(cm), cm_mid, *app, time));
                        assert(reserves(cm_mid, *cm, (cs.len() as usize), item.invocation_id));
                    }
                }
                Some(DequeuedInvocation::new(item.invocation_id, id, Some(delay)))
            },
            InvokerDecision::Queued => {
                proof {
                    assert(false);
                }
                None
            },
            InvokerDecision::Rejected => None,
        }
    }

/// Queue items are ordered by arrival time.
pub open spec fn sorted_by_arrival(q: Seq<InvokerQueueItem>) -> bool {
    forall|i: int, j: int| 0 <= i < j < q.len() ==> (#[trigger] q[i]).time <= (#[trigger] q[j]).time
}

/// The FIFO admission-order law: in the FIFO invoker the admitted
/// invocations form a prefix of the queue, so when the queue is ordered by
/// arrival time, any invocation admitted before another arrived no later.
pub proof fn lemma_fifo_admission_order(q: Seq<InvokerQueueItem>, d: Seq<DequeuedInvocation>)
    requires
        sorted_by_arrival(q),
        d.len() <= q.len(),
        forall|i: int| 0 <= i < d.len() ==> (#[trigger] d[i]).id == q[i].invocation_id,
    ensures
        forall|i: int, j: int| 0 <= i < j < d.len() ==> (#[trigger] q[i]).time <= (#[trigger] q[j]).time,
{
}

/// The no-bypass law: in one FIFO `dequeue` call the admitted invocations
/// are exactly a prefix of the queue, so while the head stays queued, no
/// later invocation of the same call is admitted: no admitted id is the id
/// of an invocation still queued afterwards.
pub proof fn lemma_fifo_no_bypass(
    q: Seq<InvokerQueueItem>,
    d: Seq<DequeuedInvocation>,
    rest: Seq<InvokerQueueItem>,
)
    requires
        d.len() <= q.len(),
        rest == q.skip(d.len() as int),
        forall|i: int| 0 <= i < d.len() ==> (#[trigger] d[i]).id == q[i].invocation_id,
        forall|i: int, j: int|
            0 <= i < j < q.len() ==> (#[trigger] q[i]).invocation_id
                != (#[trigger] q[j]).invocation_id,
    ensures
        forall|i: int, j: int|
            0 <= i < d.len() && 0 <= j < rest.len() ==> (#[trigger] d[i]).id
                != (#[trigger] rest[j]).invocation_id,
{
    assert forall|i: int, j: int|
        0 <= i < d.len() && 0 <= j < rest.len() implies (#[trigger] d[i]).id
        != (#[trigger] rest[j]).invocation_id by {
        assert(rest[j] == q[d.len() + j]);
        assert(q[i].invocation_id != q[d.len() + j].invocation_id);
    }
}

/// `NaiveInvoker` sweeps the whole queue on every `dequeue` and admits
/// whatever fits, keeping rejected items in their original order.
#[derive(Debug)]
pub struct NaiveInvoker {
    queue: Vec<InvokerQueueItem>,
}

impl NaiveInvoker {
    /// The queued items, oldest first.
    pub closed spec fn queue(self) -> Seq<InvokerQueueItem> {
        self.queue@
    }

    /// Creates an invoker with an empty queue.
    pub fn new() -> (r: NaiveInvoker)
        ensures
            r.queue().len() == 0,
    {
        NaiveInvoker { queue: Vec::new() }
    }

    /// Admits the invocation now if a container is available or deployable,
    /// else queues it. Never returns `Rejected`: rejection turns into
    /// `Queued`.
    pub fn invoke(
        &mut self,
        invocation: &Invocation,
        fr: &FunctionRegistry,
        cm: &mut ContainerManager,
        time: u64,
    ) -> (r: InvokerDecision)
        requires
            fr.wf(),
            old(cm).wf(),
            invocation.app_id < fr.apps().len(),
        ensures
            final(cm).wf(),
            final(cm).core_capacity() == old(cm).core_capacity(),
            final(cm).memory_capacity() == old(cm).memory_capacity(),
            !(r is Rejected),
            ({
                let app = fr.apps()[invocation.app_id as int];
                let cs = old(cm).containers();
                if has_candidate(cs, app) {
                    let b = best_index(cs, app, time);
                    &&& *final(cm) == *old(cm)
                    &&& final(self).queue() == old(self).queue()
                    &&& if cs[b].status is Idle {
                        r == InvokerDecision::Warm(b as usize)
                    } else {
                        r == InvokerDecision::Cold((b as usize), spec_wait(cs[b], time))
                    }
                } else if spec_fits(*old(cm), app) {
                    &&& r == InvokerDecision::Cold((cs.len() as usize), app.deployment_time)
                    &&& deploys(*old(cm), *final(cm), app, time)
                    &&& final(self).queue() == old(self).queue()
                } else {
                    &&& r is Queued
                    &&& *final(cm) == *old(cm)
                    &&& final(self).queue() == old(self).queue().push(
                        InvokerQueueItem {
                            invocation_id: invocation.id,
                            func_id: invocation.func_id,
                            app_id: invocation.app_id,
                            time: invocation.arrival_time,
                        },
                    )
                }
            }),
    {
        let app = fr.get_app(invocation.app_id).unwrap();
        let decision = try_invoke(app, cm, time);
        if matches!(decision, InvokerDecision::Rejected) {
            self.queue.push(
                InvokerQueueItem::new(
                    invocation.id,
                    invocation.func_id,
                    invocation.app_id,
                    invocation.arrival_time,
                ),
            );
            return InvokerDecision::Queued;
        }
        decision
    }

    /// Sweeps the queue once, admitting every item the host accepts and
    /// keeping the rejected ones queued in their original order.
    pub fn dequeue(
        &mut self,
        fr: &FunctionRegistry,
        cm: &mut ContainerManager,
        stats: &mut Stats,
        time: u64,
    ) -> (dequeued: Vec<DequeuedInvocation>)
        requires
            fr.wf(),
            old(cm).wf(),
            old(stats).wf(),
            forall|i: int|
                0 <= i < old(self).queue().len() ==> (#[trigger] old(self).queue()[i]).app_id
                    < fr.apps().len() && old(self).queue()[i].time <= time,
        ensures
            final(cm).wf(),
            final(stats).wf(),
            final(cm).core_capacity() == old(cm).core_capacity(),
            final(cm).memory_capacity() == old(cm).memory_capacity(),
            dequeued@.len() + final(self).queue().len() == old(self).queue().len(),
            naive_steps(
                old(self).queue(),
                *fr,
                *old(cm),
                *old(stats),
                *final(cm),
                *final(stats),
                dequeued@,
                final(self).queue(),
                time,
            ),
    {
        let n = self.queue.len();
        let mut new_queue: Vec<InvokerQueueItem> = Vec::new();
        let mut dequeued: Vec<DequeuedInvocation> = Vec::new();
        let mut i: usize = 0;
        while i < n
            invariant
                fr.wf(),
                cm.wf(),
                stats.wf(),
                cm.core_capacity() == old(cm).core_capacity(),
                cm.memory_capacity() == old(cm).memory_capacity(),
                self.queue() == old(self).queue(),
                n == self.queue().len(),
                0 <= i <= n,
                forall|k: int|
                    0 <= k < n ==> (#[trigger] self.queue()[k]).app_id < fr.apps().len()
                        && self.queue()[k].time <= time,
                dequeued@.len() + new_queue@.len() == i,
                naive_steps(
                    self.queue().take(i as int),
                    *fr,
                    *old(cm),
                    *old(stats),
                    *cm,
                    *stats,
                    dequeued@,
                    new_queue@,
                    time,
                ),
            decreases n - i,
        {
            let item = self.queue[i];
            let app = fr.get_app(item.app_id).unwrap();
            let ghost prefix = self.queue().take(i as int);
            let ghost old_new = new_queue@;
            let ghost d_pre = dequeued@;
            let ghost cm_pre = *cm;
            let ghost st_pre = *stats;
            match admit_item(item, app, cm, stats, time) {
                Some(d) => {
                    dequeued.push(d);
                    proof {
                        assert(self.queue()[i as int] == item);
                        lemma_naive_extend_admit(
                            prefix,
                            *fr,
                            *old(cm),
                            *old(stats),
                            cm_pre,
                            st_pre,
                            *cm,
                            *stats,
                            d_pre,
                            new_queue@,
                            item,
                            d,
                            time,
                        );
                        assert(self.queue().take(i + 1 as int) =~= prefix.push(item));
                        assert(dequeued@ =~= d_pre.push(d));
                    }
                },
                None => {
                    new_queue.push(item);
                    proof {
                        assert(self.queue()[i as int] == item);
                        lemma_naive_extend_reject(
                            prefix,
                            *fr,
                            *old(cm),
                            *old(stats),
                            *cm,
                            *stats,
                            d_pre,
                            old_new,
                            item,
                            time,
                        );
                        assert(self.queue().take(i + 1 as int) =~= prefix.push(item));
                        assert(new_queue@ =~= old_new.push(item));
                    }
                },
            }
            i += 1;
        }
        proof {
            assert(self.queue().take(n as int) =~= self.queue());
        }
        self.queue = new_queue;
        dequeued
    }

    /// Number of queued invocations.
    pub fn queue_len(&self) -> (r: usize)
        ensures
            r == self.queue().len(),
    {
        self.queue.len()
    }

    /// The policy's name.
    pub fn to_string(&self) -> (r: String)
        ensures
            r@ == "NaiveInvoker"@,
    {
        let r = ("NaiveInvoker").to_owned();
        r
    }
}

/// `FIFOInvoker` repeatedly admits the oldest queued invocation and stops
/// at the first rejection, so nothing bypasses the head of the queue.
#[derive(Debug)]
pub struct FIFOInvoker {
    queue: std::collections::VecDeque<InvokerQueueItem>,
}

impl FIFOInvoker {
    /// The queued items, oldest first.
    pub closed spec fn queue(self) -> Seq<InvokerQueueItem> {
        self.queue@
    }

    /// Creates an invoker with an empty queue.
    pub fn new() -> (r: FIFOInvoker)
        ensures
            r.queue().len() == 0,
    {
        FIFOInvoker { queue: std::collections::VecDeque::new() }
    }

    /// Admits the invocation now if a container is available or deployable,
    /// else queues it at the back. Never returns `Rejected`.
    pub fn invoke(
        &mut self,
        invocation: &Invocation,
        fr: &FunctionRegistry,
        cm: &mut ContainerManager,
        time: u64,
    ) -> (r: InvokerDecision)
        requires
            fr.wf(),
            old(cm).wf(),
            invocation.app_id < fr.apps().len(),
        ensures
            final(cm).wf(),
            final(cm).core_capacity() == old(cm).core_capacity(),
            final(cm).memory_capacity() == old(cm).memory_capacity(),
            !(r is Rejected),
            ({
                let app = fr.apps()[invocation.app_id as int];
                let cs = old(cm).containers();
                if has_candidate(cs, app) {
                    let b = best_index(cs, app, time);
                    &&& *final(cm) == *old(cm)
                    &&& final(self).queue() == old(self).queue()
                    &&& if cs[b].status is Idle {
                        r == InvokerDecision::Warm(b as usize)
                    } else {
                        r == InvokerDecision::Cold((b as usize), spec_wait(cs[b], time))
                    }
                } else if spec_fits(*old(cm), app) {
                    &&& r == InvokerDecision::Cold((cs.len() as usize), app.deployment_time)
                    &&& deploys(*old(cm), *final(cm), app, time)
                    &&& final(self).queue() == old(self).queue()
                } else {
                    &&& r is Queued
                    &&& *final(cm) == *old(cm)
                    &&& final(self).queue() == old(self).queue().push(
                        InvokerQueueItem {
                            invocation_id: invocation.id,
                            func_id: invocation.func_id,
                            app_id: invocation.app_id,
                            time: invocation.arrival_time,
                        },
                    )
                }
            }),
            sorted_by_arrival(old(self).queue()) && (old(self).queue().len() == 0 || old(
                self,
            ).queue().last().time <= invocation.arrival_time) ==> sorted_by_arrival(
                final(self).queue(),
            ),
    {
        let app = fr.get_app(invocation.app_id).unwrap();
        let decision = try_invoke(app, cm, time);
        if matches!(decision, InvokerDecision::Rejected) {
            self.queue.push_back(
                InvokerQueueItem::new(
                    invocation.id,
                    invocation.func_id,
                    invocation.app_id,
                    invocation.arrival_time,
                ),
            );
            return InvokerDecision::Queued;
        }
        decision
    }

    /// Repeatedly admits the head of the queue; stops as soon as the host
    /// rejects it. The admitted invocations are exactly a prefix of the
    /// queue, in order: no younger invocation bypasses the head.
    pub fn dequeue(
        &mut self,
        fr: &FunctionRegistry,
        cm: &mut ContainerManager,
        stats: &mut Stats,
        time: u64,
    ) -> (dequeued: Vec<DequeuedInvocation>)
        requires
            fr.wf(),
            old(cm).wf(),
            old(stats).wf(),
            forall|i: int|
                0 <= i < old(self).queue().len() ==> (#[trigger] old(self).queue()[i]).app_id
                    < fr.apps().len() && old(self).queue()[i].time <= time,
        ensures
            final(cm).wf(),
            final(stats).wf(),
            final(cm).core_capacity() == old(cm).core_capacity(),
            final(cm).memory_capacity() == old(cm).memory_capacity(),
            dequeued@.len() <= old(self).queue().len(),
            final(self).queue() == old(self).queue().skip(dequeued@.len() as int),
            forall|i: int|
                0 <= i < dequeued@.len() ==> (#[trigger] dequeued@[i]).id == old(
                    self,
                ).queue()[i].invocation_id,
            final(self).queue().len() > 0 ==> spec_rejects(
                *final(cm),
                fr.apps()[final(self).queue()[0].app_id as int],
                time,
            ),
            sorted_by_arrival(old(self).queue()) ==> sorted_by_arrival(final(self).queue()),
            fifo_steps(
                old(self).queue().take(dequeued@.len() as int),
                *fr,
                *old(cm),
                *old(stats),
                *final(cm),
                *final(stats),
                dequeued@,
                time,
            ),
    {
        let mut dequeued: Vec<DequeuedInvocation> = Vec::new();
        loop
            invariant_except_break
                fr.wf(),
                cm.wf(),
                stats.wf(),
                cm.core_capacity() == old(cm).core_capacity(),
                cm.memory_capacity() == old(cm).memory_capacity(),
                dequeued@.len() <= old(self).queue().len(),
                self.queue() == old(self).queue().skip(dequeued@.len() as int),
                forall|i: int|
                    0 <= i < dequeued@.len() ==> (#[trigger] dequeued@[i]).id == old(
                        self,
                    ).queue()[i].invocation_id,
                forall|i: int|
                    0 <= i < old(self).queue().len() ==> (#[trigger] old(self).queue()[i]).app_id
                        < fr.apps().len() && old(self).queue()[i].time <= time,
                fifo_steps(
                    old(self).queue().take(dequeued@.len() as int),
                    *fr,
                    *old(cm),
                    *old(stats),
                    *cm,
                    *stats,
                    dequeued@,
                    time,
                ),
            ensures
                fr.wf(),
                cm.wf(),
                stats.wf(),
                cm.core_capacity() == old(cm).core_capacity(),
                cm.memory_capacity() == old(cm).memory_capacity(),
                dequeued@.len() <= old(self).queue().len(),
                self.queue() == old(self).queue().skip(dequeued@.len() as int),
                forall|i: int|
                    0 <= i < dequeued@.len() ==> (#[trigger] dequeued@[i]).id == old(
                        self,
                    ).queue()[i].invocation_id,
                self.queue().len() > 0 ==> spec_rejects(
                    *cm,
                    fr.apps()[self.queue()[0].app_id as int],
                    time,
                ),
                fifo_steps(
                    old(self).queue().take(dequeued@.len() as int),
                    *fr,
                    *old(cm),
                    *old(stats),
                    *cm,
                    *stats,
                    dequeued@,
                    time,
                ),
            decreases self.queue().len(),
        {
            if self.queue.len() == 0 {
                break;
            }
            let item = self.queue[0];
            proof {
                assert(self.queue()[0] == old(self).queue()[dequeued@.len() as int]);
            }
            let app = fr.get_app(item.app_id).unwrap();
            let ghost k = dequeued@.len();
            let ghost prefix = old(self).queue().take(k as int);
            let ghost d_pre = dequeued@;
            let ghost cm_pre = *cm;
            let ghost st_pre = *stats;
            match admit_item(item, app, cm, stats, time) {
                Some(d) => {
                    dequeued.push(d);
                    self.queue.pop_front();
                    proof {
                        assert(self.queue() =~= old(self).queue().skip(k + 1 as int));
                        assert(old(self).queue()[k as int] == item);
                        lemma_fifo_extend(
                            prefix,
                            *fr,
                            *old(cm),
                            *old(stats),
                            cm_pre,
                            st_pre,
                            *cm,
                            *stats,
                            d_pre,
                            item,
                            d,
                            time,
                        );
                        assert(old(self).queue().take(k + 1 as int) =~= prefix.push(item));
                        assert(dequeued@ =~= d_pre.push(d));
                    }
                },
                None => {
                    break;
                },
            }
        }
        dequeued
    }

    /// Number of queued invocations.
    pub fn queue_len(&self) -> (r: usize)
        ensures
            r == self.queue().len(),
    {
        self.queue.len()
    }

    /// The policy's name.
    pub fn to_string(&self) -> (r: String)
        ensures
            r@ == "FIFOInvoker"@,
    {
        let r = ("FIFOInvoker").to_owned();
        r
    }
}

/// An invoker of either policy, as produced from a policy name.
#[derive(Debug)]
pub enum InvokerVariant {
    /// The full-sweep policy.
    Naive(NaiveInvoker),
    /// The head-of-queue policy.
    Fifo(FIFOInvoker),
}

/// Produces a fresh invoker from its policy name. Only the two literal
/// policy names are accepted.
pub fn default_invoker_resolver(s: &str) -> (r: InvokerVariant)
    requires
        s@ == "NaiveInvoker"@ || s@ == "FIFOInvoker"@,
    ensures
        r is Naive <==> s@ == "NaiveInvoker"@,
        r matches InvokerVariant::Naive(inv) ==> inv.queue().len() == 0,
        r matches InvokerVariant::Fifo(inv) ==> inv.queue().len() == 0,
{
    let owned = s.to_owned();
    let naive_name = ("NaiveInvoker").to_owned();
    if owned == naive_name {
        InvokerVariant::Naive(NaiveInvoker::new())
    } else {
        proof {
            reveal_strlit("NaiveInvoker");
            reveal_strlit("FIFOInvoker");
            assert(s@ == "FIFOInvoker"@);
        }
        InvokerVariant::Fifo(FIFOInvoker::new())
    }
}

} // verus!
