//! Aggregated simulation statistics, keyed by (application, function).
//!
//! Sums saturate at the integer maximum instead of overflowing.

use vstd::prelude::*;

verus! {

/// Adds with saturation at the maximum.
pub open spec fn spec_sat_add(a: u64, b: u64) -> u64 {
    if a + b <= u64::MAX {
        (a + b) as u64
    } else {
        u64::MAX
    }
}

/// Multiplies with saturation at the maximum.
pub open spec fn spec_sat_mul(a: u64, b: u64) -> u64 {
    if a * b <= u64::MAX {
        (a * b) as u64
    } else {
        u64::MAX
    }
}

/// Adds with saturation at the maximum.
pub fn sat_add(a: u64, b: u64) -> (r: u64)
    ensures
        r == spec_sat_add(a, b),
{
    if a <= u64::MAX - b {
        a + b
    } else {
        u64::MAX
    }
}

/// Multiplies with saturation at the maximum.
pub fn sat_mul(a: u64, b: u64) -> (r: u64)
    ensures
        r == spec_sat_mul(a, b),
{
    if b == 0 {
        proof {
            assert(b == 0 ==> a * b == 0) by (nonlinear_arith);
        }
        return 0;
    }
    if a <= u64::MAX / b {
        proof {
            assert(a <= u64::MAX / b && b > 0 ==> a * b <= u64::MAX) by (nonlinear_arith);
        }
        a * b
    } else {
        proof {
            assert(a > u64::MAX / b && b > 0 ==> a * b > u64::MAX) by (nonlinear_arith);
        }
        u64::MAX
    }
}

/// One queueing-time sample was folded into the (app, func) rollup:
/// its sums grew by `duration` and one count, saturating; a missing rollup
/// was created. Everything else is unchanged.
pub open spec fn bumps_queueing(
    pre: Stats,
    post: Stats,
    app_id: usize,
    func_id: usize,
    duration: u64,
) -> bool {
    &&& post.wasted_cores() == pre.wasted_cores()
    &&& post.wasted_memory() == pre.wasted_memory()
    &&& exists|i: int|
        0 <= i < post.entries().len() && {
            let e = #[trigger] post.entries()[i];
            &&& e.app_id == app_id
            &&& e.func_id == func_id
            &&& if i < pre.entries().len() {
                let o = pre.entries()[i];
                &&& o.app_id == app_id
                &&& o.func_id == func_id
                &&& e == (FuncStats {
                    queueing_time_sum: spec_sat_add(o.queueing_time_sum, duration),
                    queueing_count: spec_sat_add(o.queueing_count, 1),
                    ..o
                })
                &&& post.entries() == pre.entries().update(i, e)
            } else {
                &&& pre.entries().len() == i
                &&& e.queueing_time_sum == duration && e.queueing_count == 1 && e.cold_start_sum
                    == 0 && e.cold_start_count == 0
                &&& post.entries() == pre.entries().push(e)
            }
        }
}

/// One activation-latency sample was folded into the (app, func) rollup.
pub open spec fn bumps_cold_start(
    pre: Stats,
    post: Stats,
    app_id: usize,
    func_id: usize,
    latency: u64,
) -> bool {
    &&& post.wasted_cores() == pre.wasted_cores()
    &&& post.wasted_memory() == pre.wasted_memory()
    &&& exists|i: int|
        0 <= i < post.entries().len() && {
            let e = #[trigger] post.entries()[i];
            &&& e.app_id == app_id
            &&& e.func_id == func_id
            &&& if i < pre.entries().len() {
                let o = pre.entries()[i];
                &&& o.app_id == app_id
                &&& o.func_id == func_id
                &&& e == (FuncStats {
                    cold_start_sum: spec_sat_add(o.cold_start_sum, latency),
                    cold_start_count: spec_sat_add(o.cold_start_count, 1),
                    ..o
                })
                &&& post.entries() == pre.entries().update(i, e)
            } else {
                &&& pre.entries().len() == i
                &&& e.cold_start_sum == latency && e.cold_start_count == 1 && e.queueing_time_sum
                    == 0 && e.queueing_count == 0
                &&& post.entries() == pre.entries().push(e)
            }
        }
}

/// Wasted idle resources were accounted: `duration` ticks of `cores` and
/// `memory`, saturating. The rollups are unchanged.
pub open spec fn bumps_wasted(
    pre: Stats,
    post: Stats,
    duration: u64,
    cores: u64,
    memory: u64,
) -> bool {
    &&& post.entries() == pre.entries()
    &&& post.wasted_cores() == spec_sat_add(pre.wasted_cores(), spec_sat_mul(duration, cores))
    &&& post.wasted_memory() == spec_sat_add(pre.wasted_memory(), spec_sat_mul(duration, memory))
}

/// Accumulated statistics of one (application, function) pair.
#[derive(Clone, Copy, Debug)]
pub struct FuncStats {
    /// The application.
    pub app_id: usize,
    /// The function.
    pub func_id: usize,
    /// Total time spent queued, over all accounted invocations.
    pub queueing_time_sum: u64,
    /// How many queueing-time samples were recorded.
    pub queueing_count: u64,
    /// Total end-to-end activation latency, over all accounted invocations.
    pub cold_start_sum: u64,
    /// How many activation-latency samples were recorded.
    pub cold_start_count: u64,
}

/// Aggregates queueing times, activation latencies, and wasted resources.
#[derive(Clone, Debug)]
pub struct Stats {
    entries: Vec<FuncStats>,
    wasted_core_time: u64,
    wasted_memory_time: u64,
}

impl Stats {
    /// The per-(application, function) rollups.
    pub closed spec fn entries(self) -> Seq<FuncStats> {
        self.entries@
    }

    /// Total core-ticks held by idle containers before reuse or teardown.
    pub closed spec fn wasted_cores(self) -> u64 {
        self.wasted_core_time
    }

    /// Total memory-ticks held by idle containers before reuse or teardown.
    pub closed spec fn wasted_memory(self) -> u64 {
        self.wasted_memory_time
    }

    /// Keys are unique.
    pub open spec fn wf(self) -> bool {
        forall|i: int, j: int|
            0 <= i < j < self.entries().len() ==> !((#[trigger] self.entries()[i]).app_id
                == (#[trigger] self.entries()[j]).app_id && self.entries()[i].func_id
                == self.entries()[j].func_id)
    }

    /// Creates empty statistics.
    pub fn new() -> (r: Stats)
        ensures
            r.wf(),
            r.entries().len() == 0,
            r.wasted_cores() == 0,
            r.wasted_memory() == 0,
    {
        Stats { entries: Vec::new(), wasted_core_time: 0, wasted_memory_time: 0 }
    }

    /// Records that an invocation of (app, func) waited `duration` ticks in
    /// the queue before admission.
    pub fn update_queueing_time(&mut self, app_id: usize, func_id: usize, duration: u64)
        requires
            old(self).wf(),
        ensures
            final(self).wf(),
            bumps_queueing(*old(self), *final(self), app_id, func_id, duration),
    {
        let n = self.entries.len();
        let mut i: usize = 0;
        while i < n
            invariant
                *self == *old(self),
                old(self).wf(),
                n == self.entries().len(),
                0 <= i <= n,
                forall|k: int|
                    0 <= k < i ==> !((#[trigger] self.entries()[k]).app_id == app_id
                        && self.entries()[k].func_id == func_id),
            decreases n - i,
        {
            if self.entries[i].app_id == app_id && self.entries[i].func_id == func_id {
                let e = self.entries[i];
                let updated = FuncStats {
                    queueing_time_sum: sat_add(e.queueing_time_sum, duration),
                    queueing_count: sat_add(e.queueing_count, 1),
                    ..e
                };
                self.entries.set(i, updated);
                proof {
                    assert(final(self).entries()[i as int] == updated);
                }
                return ;
            }
            i += 1;
        }
        let e = FuncStats {
            app_id,
            func_id,
            queueing_time_sum: duration,
            queueing_count: 1,
            cold_start_sum: 0,
            cold_start_count: 0,
        };
        self.entries.push(e);
        proof {
            assert(final(self).entries()[n as int] == e);
        }
    }

    /// Records the end-to-end activation latency of one admitted invocation
    /// of (app, func): queue wait plus any remaining deploy delay.
    pub fn on_cold_start(&mut self, app_id: usize, func_id: usize, latency: u64)
        requires
            old(self).wf(),
        ensures
            final(self).wf(),
            bumps_cold_start(*old(self), *final(self), app_id, func_id, latency),
    {
        let n = self.entries.len();
        let mut i: usize = 0;
        while i < n
            invariant
                *self == *old(self),
                old(self).wf(),
                n == self.entries().len(),
                0 <= i <= n,
                forall|k: int|
                    0 <= k < i ==> !((#[trigger] self.entries()[k]).app_id == app_id
                        && self.entries()[k].func_id == func_id),
            decreases n - i,
        {
            if self.entries[i].app_id == app_id && self.entries[i].func_id == func_id {
                let e = self.entries[i];
                let updated = FuncStats {
                    cold_start_sum: sat_add(e.cold_start_sum, latency),
                    cold_start_count: sat_add(e.cold_start_count, 1),
                    ..e
                };
                self.entries.set(i, updated);
                proof {
                    assert(final(self).entries()[i as int] == updated);
                }
                return ;
            }
            i += 1;
        }
        let e = FuncStats {
            app_id,
            func_id,
            queueing_time_sum: 0,
            queueing_count: 0,
            cold_start_sum: latency,
            cold_start_count: 1,
        };
        self.entries.push(e);
        proof {
            assert(final(self).entries()[n as int] == e);
        }
    }

    /// Records that a container held `cores` and `memory` idle for
    /// `duration` ticks.
    pub fn update_wasted_resources(&mut self, duration: u64, cores: u64, memory: u64)
        requires
            old(self).wf(),
        ensures
            final(self).wf(),
            bumps_wasted(*old(self), *final(self), duration, cores, memory),
    {
        self.wasted_core_time = sat_add(self.wasted_core_time, sat_mul(duration, cores));
        self.wasted_memory_time = sat_add(self.wasted_memory_time, sat_mul(duration, memory));
        proof {
            assert(final(self).entries() == old(self).entries());
        }
    }

    /// The rollup of one (application, function) pair, if any was recorded.
    pub fn get(&self, app_id: usize, func_id: usize) -> (r: Option<&FuncStats>)
        requires
            self.wf(),
        ensures
            match r {
                Some(e) => exists|i: int|
                    0 <= i < self.entries().len() && *e == #[trigger] self.entries()[i]
                        && e.app_id == app_id && e.func_id == func_id,
                None => forall|i: int|
                    0 <= i < self.entries().len() ==> !((#[trigger] self.entries()[i]).app_id
                        == app_id && self.entries()[i].func_id == func_id),
            },
    {
        let n = self.entries.len();
        let mut i: usize = 0;
        while i < n
            invariant
                self.wf(),
                n == self.entries().len(),
                0 <= i <= n,
                forall|k: int|
                    0 <= k < i ==> !((#[trigger] self.entries()[k]).app_id == app_id
                        && self.entries()[k].func_id == func_id),
            decreases n - i,
        {
            if self.entries[i].app_id == app_id && self.entries[i].func_id == func_id {
                return Some(&self.entries[i]);
            }
            i += 1;
        }
        None
    }

    /// Total core-ticks held by idle containers before reuse.
    pub fn wasted_core_time(&self) -> (r: u64)
        ensures
            r == self.wasted_cores(),
    {
        self.wasted_core_time
    }

    /// Total memory-ticks held by idle containers before reuse.
    pub fn wasted_memory_time(&self) -> (r: u64)
        ensures
            r == self.wasted_memory(),
    {
        self.wasted_memory_time
    }
}

} // verus!
