//! Host-local containers and their manager.
//!
//! The manager owns one host's containers and tracks the cores and memory
//! reserved by live (not terminated) containers. Its invariant keeps the
//! reserved totals equal to the per-container sums and within the host
//! capacity, and a container may leave `Deploying` only once its deployment
//! time has elapsed.

use crate::function::Application;
use vstd::prelude::*;

verus! {

/// Lifecycle state of a container.
#[derive(Clone, Copy, Debug, PartialEq, Eq, Structural)]
pub enum ContainerStatus {
    /// Being deployed; resources are reserved, nothing runs yet.
    Deploying,
    /// Deployed and empty.
    Idle,
    /// Executing at least one invocation.
    Running,
    /// Torn down; resources are released.
    Terminated,
}

/// A host-local unit of execution bound to one application.
#[derive(Clone, Debug)]
pub struct Container {
    /// Container id: its position in the manager's table.
    pub id: usize,
    /// The application it serves.
    pub app_id: usize,
    /// Cores reserved while live.
    pub cores: u64,
    /// Memory reserved while live.
    pub memory: u64,
    /// Ticks needed to deploy it.
    pub deployment_time: u64,
    /// Time of the last status change; non-decreasing.
    pub last_change: u64,
    /// Lifecycle state.
    pub status: ContainerStatus,
    /// Ids of the invocations currently assigned to it.
    pub invocations: Vec<usize>,
}

/// Whether the container still reserves host resources.
pub open spec fn is_live(c: Container) -> bool {
    !(c.status is Terminated)
}

/// Sum of cores reserved by live containers among the first `n`.
pub open spec fn live_cores(cs: Seq<Container>, n: int) -> int
    decreases n,
{
    if n <= 0 {
        0
    } else {
        live_cores(cs, n - 1) + if is_live(cs[n - 1]) {
            cs[n - 1].cores as int
        } else {
            0
        }
    }
}

/// Sum of memory reserved by live containers among the first `n`.
pub open spec fn live_memory(cs: Seq<Container>, n: int) -> int
    decreases n,
{
    if n <= 0 {
        0
    } else {
        live_memory(cs, n - 1) + if is_live(cs[n - 1]) {
            cs[n - 1].memory as int
        } else {
            0
        }
    }
}

/// Changing one container without touching its liveness or resources keeps
/// the live sums.
pub proof fn lemma_live_sums_update(cs: Seq<Container>, i: int, c: Container, n: int)
    requires
        0 <= i < cs.len(),
        n <= cs.len(),
        is_live(c) == is_live(cs[i]),
        c.cores == cs[i].cores,
        c.memory == cs[i].memory,
    ensures
        live_cores(cs.update(i, c), n) == live_cores(cs, n),
        live_memory(cs.update(i, c), n) == live_memory(cs, n),
    decreases n,
{
    if n > 0 {
        lemma_live_sums_update(cs, i, c, n - 1);
        if i != n - 1 {
            assert(cs.update(i, c)[n - 1] == cs[n - 1]);
        }
    }
}

/// Appending a container leaves the sums over the original prefix.
pub proof fn lemma_live_sums_push(cs: Seq<Container>, c: Container, n: int)
    requires
        n <= cs.len(),
    ensures
        live_cores(cs.push(c), n) == live_cores(cs, n),
        live_memory(cs.push(c), n) == live_memory(cs, n),
    decreases n,
{
    if n > 0 {
        lemma_live_sums_push(cs, c, n - 1);
        assert(cs.push(c)[n - 1] == cs[n - 1]);
    }
}

/// The container-resource law: at all times, the cores and memory of the
/// live containers on a host sum to at most the host capacity. The manager
/// invariant keeps the reserved totals equal to the live sums, so every
/// operation that preserves the invariant preserves the bound.
pub proof fn lemma_container_resources(cm: ContainerManager)
    requires
        cm.wf(),
    ensures
        live_cores(cm.containers(), cm.containers().len() as int) <= cm.core_capacity(),
        live_memory(cm.containers(), cm.containers().len() as int) <= cm.memory_capacity(),
{
}

/// Manages one host's containers and resource reservations.
#[derive(Clone, Debug)]
pub struct ContainerManager {
    cores: u64,
    memory: u64,
    cores_reserved: u64,
    memory_reserved: u64,
    containers: Vec<Container>,
}

impl ContainerManager {
    /// The container table, in id order.
    pub closed spec fn containers(self) -> Seq<Container> {
        self.containers@
    }

    /// Host core capacity.
    pub closed spec fn core_capacity(self) -> u64 {
        self.cores
    }

    /// Host memory capacity.
    pub closed spec fn memory_capacity(self) -> u64 {
        self.memory
    }

    /// Cores reserved by live containers.
    pub closed spec fn cores_reserved(self) -> u64 {
        self.cores_reserved
    }

    /// Memory reserved by live containers.
    pub closed spec fn memory_reserved(self) -> u64 {
        self.memory_reserved
    }

    /// The invariant: ids are positions, the reserved totals are exactly the
    /// live sums, and they stay within capacity. The latter is the resource
    /// safety law: at all times, the resources of live containers on a host
    /// sum to at most the host capacity.
    pub open spec fn wf(self) -> bool {
        &&& forall|i: int|
            0 <= i < self.containers().len() ==> (#[trigger] self.containers()[i]).id == i
        &&& self.cores_reserved() == live_cores(self.containers(), self.containers().len() as int)
        &&& self.memory_reserved() == live_memory(
            self.containers(),
            self.containers().len() as int,
        )
        &&& self.cores_reserved() <= self.core_capacity()
        &&& self.memory_reserved() <= self.memory_capacity()
    }

    /// Creates a manager for a host with the given capacity.
    pub fn new(cores: u64, memory: u64) -> (r: ContainerManager)
        ensures
            r.wf(),
            r.containers().len() == 0,
            r.core_capacity() == cores,
            r.memory_capacity() == memory,
            r.cores_reserved() == 0,
            r.memory_reserved() == 0,
    {
        ContainerManager {
            cores,
            memory,
            cores_reserved: 0,
            memory_reserved: 0,
            containers: Vec::new(),
        }
    }

    /// Free cores: capacity minus live reservations.
    pub fn free_cores(&self) -> (r: u64)
        requires
            self.wf(),
        ensures
            r == self.core_capacity() - self.cores_reserved(),
    {
        self.cores - self.cores_reserved
    }

    /// Free memory: capacity minus live reservations.
    pub fn free_memory(&self) -> (r: u64)
        requires
            self.wf(),
        ensures
            r == self.memory_capacity() - self.memory_reserved(),
    {
        self.memory - self.memory_reserved
    }

    /// Returns the container with the given id, if any.
    pub fn get_container(&self, id: usize) -> (r: Option<&Container>)
        requires
            self.wf(),
        ensures
            match r {
                Some(c) => id < self.containers().len() && *c == self.containers()[id as int],
                None => id >= self.containers().len(),
            },
    {
        if id < self.containers.len() {
            Some(&self.containers[id])
        } else {
            None
        }
    }

    /// Attempts to allocate a new deploying container for the application.
    /// Succeeds exactly when the host has enough free cores and memory; the
    /// new container reserves them and will take `app.deployment_time` to
    /// deploy.
    pub fn try_deploy(&mut self, app: &Application, time: u64) -> (r: Option<(usize, u64)>)
        requires
            old(self).wf(),
        ensures
            final(self).wf(),
            final(self).core_capacity() == old(self).core_capacity(),
            final(self).memory_capacity() == old(self).memory_capacity(),
            ({
                let fits = app.cores <= old(self).core_capacity() - old(self).cores_reserved()
                    && app.memory <= old(self).memory_capacity() - old(self).memory_reserved();
                if fits {
                    &&& r == Some((old(self).containers().len() as usize, app.deployment_time))
                    &&& deploys(*old(self), *final(self), *app, time)
                } else {
                    &&& r is None
                    &&& *final(self) == *old(self)
                }
            }),
    {
        if app.cores <= self.cores - self.cores_reserved && app.memory <= self.memory
            - self.memory_reserved {
            let id = self.containers.len();
            let ghost pre = self.containers@;
            let c = Container {
                id,
                app_id: app.id,
                cores: app.cores,
                memory: app.memory,
                deployment_time: app.deployment_time,
                last_change: time,
                status: ContainerStatus::Deploying,
                invocations: Vec::new(),
            };
            let ghost cg = c;
            self.containers.push(c);
            self.cores_reserved = self.cores_reserved + app.cores;
            self.memory_reserved = self.memory_reserved + app.memory;
            proof {
                lemma_live_sums_push(pre, cg, pre.len() as int);
                assert(self.containers@ == pre.push(cg));
                assert(live_cores(self.containers@, self.containers@.len() as int) == live_cores(
                    pre,
                    pre.len() as int,
                ) + cg.cores);
                assert(live_memory(self.containers@, self.containers@.len() as int) == live_memory(
                    pre,
                    pre.len() as int,
                ) + cg.memory);
                assert forall|i: int|
                    0 <= i < self.containers@.len() implies (#[trigger] self.containers@[i]).id
                    == i by {
                    if i < pre.len() {
                        assert(self.containers@[i] == pre[i]);
                        assert(old(self).containers()[i].id == i);
                    } else {
                        assert(self.containers@[i] == cg);
                    }
                }
            }
            Some((id, app.deployment_time))
        } else {
            None
        }
    }

    /// Attaches an invocation to a deploying container: it will start
    /// running that invocation when deployment completes.
    pub fn reserve_container(&mut self, id: usize, invocation_id: usize)
        requires
            old(self).wf(),
            id < old(self).containers().len(),
            old(self).containers()[id as int].status is Deploying,
        ensures
            final(self).wf(),
            reserves(*old(self), *final(self), id, invocation_id),
    {
        let ghost pre = self.containers@;
        let c = container_at_mut(&mut self.containers, id);
        c.invocations.push(invocation_id);
        proof {
            let cg = self.containers@[id as int];
            assert(self.containers@ == pre.update(id as int, cg));
            lemma_live_sums_update(pre, id as int, cg, pre.len() as int);
            assert forall|i: int|
                0 <= i < self.containers@.len() implies (#[trigger] self.containers@[i]).id
                == i by {
                if i != id {
                    assert(self.containers@[i] == pre[i]);
                }
                assert(old(self).containers()[i].id == i);
            }
        }
    }

    /// Puts an idle container to work on an invocation at the given time.
    pub fn start_running(&mut self, id: usize, invocation_id: usize, time: u64)
        requires
            old(self).wf(),
            id < old(self).containers().len(),
            old(self).containers()[id as int].status is Idle,
        ensures
            final(self).wf(),
            starts_running(*old(self), *final(self), id, invocation_id, time),
    {
        let ghost pre = self.containers@;
        let c = container_at_mut(&mut self.containers, id);
        c.status = ContainerStatus::Running;
        c.last_change = time;
        c.invocations.push(invocation_id);
        proof {
            let cg = self.containers@[id as int];
            assert(self.containers@ == pre.update(id as int, cg));
            lemma_live_sums_update(pre, id as int, cg, pre.len() as int);
            assert forall|i: int|
                0 <= i < self.containers@.len() implies (#[trigger] self.containers@[i]).id
                == i by {
                if i != id {
                    assert(self.containers@[i] == pre[i]);
                }
                assert(old(self).containers()[i].id == i);
            }
        }
    }

    /// Completes a deployment: the container starts running its reserved
    /// invocations. Deployment cannot complete before `deployment_time` has
    /// elapsed since the container was created: that is the deploy lower
    /// bound law.
    pub fn finish_deploy(&mut self, id: usize, time: u64)
        requires
            old(self).wf(),
            id < old(self).containers().len(),
            old(self).containers()[id as int].status is Deploying,
            time >= old(self).containers()[id as int].last_change + old(self).containers()[id as int].deployment_time,
        ensures
            final(self).wf(),
            final(self).core_capacity() == old(self).core_capacity(),
            final(self).memory_capacity() == old(self).memory_capacity(),
            final(self).cores_reserved() == old(self).cores_reserved(),
            final(self).memory_reserved() == old(self).memory_reserved(),
            final(self).containers().len() == old(self).containers().len(),
            forall|i: int|
                0 <= i < old(self).containers().len() && i != id ==> #[trigger] final(self).containers()[i] == old(self).containers()[i],
            ({
                let c = final(self).containers()[id as int];
                let o = old(self).containers()[id as int];
                &&& c.status == if o.invocations@.len() > 0 {
                    ContainerStatus::Running
                } else {
                    ContainerStatus::Idle
                }
                &&& c.last_change == time
                &&& c.invocations == o.invocations
                &&& c.id == o.id
                &&& c.app_id == o.app_id
                &&& c.cores == o.cores
                &&& c.memory == o.memory
                &&& c.deployment_time == o.deployment_time
            }),
    {
        let ghost pre = self.containers@;
        let c = container_at_mut(&mut self.containers, id);
        c.status = if c.invocations.len() > 0 {
            ContainerStatus::Running
        } else {
            ContainerStatus::Idle
        };
        c.last_change = time;
        proof {
            let cg = self.containers@[id as int];
            assert(self.containers@ == pre.update(id as int, cg));
            lemma_live_sums_update(pre, id as int, cg, pre.len() as int);
            assert forall|i: int|
                0 <= i < self.containers@.len() implies (#[trigger] self.containers@[i]).id
                == i by {
                if i != id {
                    assert(self.containers@[i] == pre[i]);
                }
                assert(old(self).containers()[i].id == i);
            }
        }
    }

    /// Ids of the application's usable containers (idle, or also deploying
    /// when `include_deploying` holds, with room under the concurrency
    /// limit), in increasing id order.
    pub fn get_possible_containers(&self, app: &Application, include_deploying: bool) -> (r: Vec<
        usize,
    >)
        requires
            self.wf(),
        ensures
            forall|k: int|
                0 <= k < r@.len() ==> (#[trigger] r@[k]) < self.containers().len()
                    && is_candidate(self.containers()[r@[k] as int], *app, include_deploying),
            forall|i: int|
                0 <= i < self.containers().len() && is_candidate(
                    #[trigger] self.containers()[i],
                    *app,
                    include_deploying,
                ) ==> r@.contains(i as usize),
            forall|k1: int, k2: int| 0 <= k1 < k2 < r@.len() ==> r@[k1] < r@[k2],
    {
        let n = self.containers.len();
        let mut out: Vec<usize> = Vec::new();
        let mut i: usize = 0;
        while i < n
            invariant
                self.wf(),
                n == self.containers().len(),
                0 <= i <= n,
                forall|k: int|
                    0 <= k < out@.len() ==> (#[trigger] out@[k]) < i && is_candidate(
                        self.containers()[out@[k] as int],
                        *app,
                        include_deploying,
                    ),
                forall|j: int|
                    0 <= j < i && is_candidate(
                        #[trigger] self.containers()[j],
                        *app,
                        include_deploying,
                    ) ==> out@.contains(j as usize),
                forall|k1: int, k2: int| 0 <= k1 < k2 < out@.len() ==> out@[k1] < out@[k2],
            decreases n - i,
        {
            let c = &self.containers[i];
            let take = c.app_id == app.id && c.invocations.len() < app.concurrent_invocations && (
            matches!(c.status, ContainerStatus::Idle) || (include_deploying && matches!(
                c.status,
                ContainerStatus::Deploying,
            )));
            let ghost pre_out = out@;
            if take {
                out.push(i);
            }
            proof {
                if take {
                    assert forall|j: int|
                        0 <= j < i + 1 && is_candidate(
                            #[trigger] self.containers()[j],
                            *app,
                            include_deploying,
                        ) implies out@.contains(j as usize) by {
                        if j < i {
                            assert(pre_out.contains(j as usize));
                            let k = choose|k: int|
                                0 <= k < pre_out.len() && pre_out[k] == j as usize;
                            assert(out@[k] == j as usize);
                        } else {
                            assert(out@[pre_out.len() as int] == i);
                        }
                    }
                } else {
                    assert(!is_candidate(self.containers()[i as int], *app, include_deploying));
                }
            }
            i += 1;
        }
        out
    }

    /// Finishes one invocation on a running container: the invocation id is
    /// removed; a container left empty becomes idle at the given time.
    pub fn end_invocation(&mut self, id: usize, invocation_id: usize, time: u64)
        requires
            old(self).wf(),
            id < old(self).containers().len(),
            old(self).containers()[id as int].status is Running,
            old(self).containers()[id as int].invocations@.contains(invocation_id),
        ensures
            final(self).wf(),
            final(self).core_capacity() == old(self).core_capacity(),
            final(self).memory_capacity() == old(self).memory_capacity(),
            final(self).cores_reserved() == old(self).cores_reserved(),
            final(self).memory_reserved() == old(self).memory_reserved(),
            final(self).containers().len() == old(self).containers().len(),
            forall|i: int|
                0 <= i < old(self).containers().len() && i != id ==> #[trigger] final(self).containers()[i] == old(self).containers()[i],
            ({
                let c = final(self).containers()[id as int];
                let o = old(self).containers()[id as int];
                &&& exists|k: int|
                    0 <= k < o.invocations@.len() && o.invocations@[k] == invocation_id
                        && c.invocations@ == o.invocations@.remove(k)
                &&& c.invocations@.len() == o.invocations@.len() - 1
                &&& c.status == if o.invocations@.len() == 1 {
                    ContainerStatus::Idle
                } else {
                    ContainerStatus::Running
                }
                &&& (o.invocations@.len() == 1 ==> c.last_change == time)
                &&& (o.invocations@.len() != 1 ==> c.last_change == o.last_change)
                &&& c.id == o.id
                &&& c.app_id == o.app_id
                &&& c.cores == o.cores
                &&& c.memory == o.memory
                &&& c.deployment_time == o.deployment_time
            }),
    {
        let ghost pre = self.containers@;
        let c = container_at_mut(&mut self.containers, id);
        let m = c.invocations.len();
        let mut k: usize = 0;
        while k < m && c.invocations[k] != invocation_id
            invariant
                *c == old(self).containers()[id as int],
                m == c.invocations@.len(),
                0 <= k <= m,
                exists|j: int| 0 <= j < m && c.invocations@[j] == invocation_id,
                forall|j: int| 0 <= j < k ==> c.invocations@[j] != invocation_id,
            decreases m - k,
        {
            k += 1;
        }
        proof {
            if k >= m {
                let j = choose|j: int| 0 <= j < m && c.invocations@[j] == invocation_id;
                assert(false);
            }
            assert(c.invocations@[k as int] == invocation_id);
        }
        let ghost pre_inv = c.invocations@;
        c.invocations.remove(k);
        proof {
            assert(pre_inv[k as int] == invocation_id && c.invocations@ == pre_inv.remove(
                k as int,
            ));
        }
        if c.invocations.len() == 0 {
            c.status = ContainerStatus::Idle;
            c.last_change = time;
        }
        proof {
            let cg = self.containers@[id as int];
            assert(self.containers@ == pre.update(id as int, cg));
            lemma_live_sums_update(pre, id as int, cg, pre.len() as int);
            assert forall|i: int|
                0 <= i < self.containers@.len() implies (#[trigger] self.containers@[i]).id
                == i by {
                if i != id {
                    assert(self.containers@[i] == pre[i]);
                }
                assert(old(self).containers()[i].id == i);
            }
        }
    }
}

/// The manager allocated a fresh deploying container for `app` at `time`:
/// one container was appended with the application's resources reserved;
/// everything else is unchanged.
pub open spec fn deploys(
    pre: ContainerManager,
    post: ContainerManager,
    app: Application,
    time: u64,
) -> bool {
    &&& post.core_capacity() == pre.core_capacity()
    &&& post.memory_capacity() == pre.memory_capacity()
    &&& post.containers().len() == pre.containers().len() + 1
    &&& forall|i: int|
        0 <= i < pre.containers().len() ==> #[trigger] post.containers()[i] == pre.containers()[i]
    &&& ({
        let c = post.containers()[pre.containers().len() as int];
        &&& c.id == pre.containers().len()
        &&& c.app_id == app.id
        &&& c.cores == app.cores
        &&& c.memory == app.memory
        &&& c.deployment_time == app.deployment_time
        &&& c.last_change == time
        &&& c.status is Deploying
        &&& c.invocations@ == Seq::<usize>::empty()
    })
    &&& post.cores_reserved() == pre.cores_reserved() + app.cores
    &&& post.memory_reserved() == pre.memory_reserved() + app.memory
}

/// Container `id` gained the reserved invocation; nothing else changed.
pub open spec fn reserves(
    pre: ContainerManager,
    post: ContainerManager,
    id: usize,
    invocation_id: usize,
) -> bool {
    &&& post.core_capacity() == pre.core_capacity()
    &&& post.memory_capacity() == pre.memory_capacity()
    &&& post.cores_reserved() == pre.cores_reserved()
    &&& post.memory_reserved() == pre.memory_reserved()
    &&& id < pre.containers().len()
    &&& post.containers().len() == pre.containers().len()
    &&& forall|i: int|
        0 <= i < pre.containers().len() && i != id ==> #[trigger] post.containers()[i]
            == pre.containers()[i]
    &&& ({
        let c = post.containers()[id as int];
        let o = pre.containers()[id as int];
        &&& c.invocations@ == o.invocations@.push(invocation_id)
        &&& c.status == o.status
        &&& c.last_change == o.last_change
        &&& c.id == o.id
        &&& c.app_id == o.app_id
        &&& c.cores == o.cores
        &&& c.memory == o.memory
        &&& c.deployment_time == o.deployment_time
    })
}

/// Container `id` started running the invocation at `time`; nothing else
/// changed.
pub open spec fn starts_running(
    pre: ContainerManager,
    post: ContainerManager,
    id: usize,
    invocation_id: usize,
    time: u64,
) -> bool {
    &&& post.core_capacity() == pre.core_capacity()
    &&& post.memory_capacity() == pre.memory_capacity()
    &&& post.cores_reserved() == pre.cores_reserved()
    &&& post.memory_reserved() == pre.memory_reserved()
    &&& id < pre.containers().len()
    &&& post.containers().len() == pre.containers().len()
    &&& forall|i: int|
        0 <= i < pre.containers().len() && i != id ==> #[trigger] post.containers()[i]
            == pre.containers()[i]
    &&& ({
        let c = post.containers()[id as int];
        let o = pre.containers()[id as int];
        &&& c.invocations@ == o.invocations@.push(invocation_id)
        &&& c.status is Running
        &&& c.last_change == time
        &&& c.id == o.id
        &&& c.app_id == o.app_id
        &&& c.cores == o.cores
        &&& c.memory == o.memory
        &&& c.deployment_time == o.deployment_time
    })
}

/// Whether a container can serve the application now or soon: it belongs
/// to the application, has room under the concurrency limit, and is idle or
/// (when allowed) still deploying.
pub open spec fn is_candidate(c: Container, app: Application, include_deploying: bool) -> bool {
    c.app_id == app.id && c.invocations@.len() < app.concurrent_invocations && (c.status is Idle
        || (include_deploying && c.status is Deploying))
}

/// Mutable access to one container, leaving the others as they were.
fn container_at_mut(cs: &mut Vec<Container>, i: usize) -> (r: &mut Container)
    requires
        i < old(cs)@.len(),
    ensures
        *r == old(cs)@[i as int],
        final(cs)@ == old(cs)@.update(i as int, *final(r)),
{
    &mut cs[i]
}

} // verus!
