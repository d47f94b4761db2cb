//! Storage model for a disk with fairly shared read and write bandwidth.
//!
//! The disk tracks used space exactly and runs one fair throughput-sharing
//! model per direction. Requests that exceed the capacity or the free space
//! fail immediately; admitted requests become activities whose completion
//! times the models provide, for the surrounding event loop to schedule.
//! Bandwidths and per-activity factors are constant values rather than
//! arbitrary functions: the exact integer time model needs values it can
//! reason about, and constants are what the disk uses.

use crate::ratio::{ratio_wf, spec_ratio_le, Ratio};
use crate::throughput::{
    completion_fits, completion_rel, first_key_index, is_first_key, FairThroughputSharingModel,
    ModelEntry,
};
use vstd::prelude::*;

verus! {

/// One disk operation in flight.
#[derive(Clone, Copy, Debug)]
pub struct DiskActivity {
    /// Request id.
    pub request_id: u64,
    /// The component that issued the request.
    pub requester: u64,
    /// Size of the transfer.
    pub size: u64,
}

/// Capacity and current usage of a storage device.
#[derive(Clone, Copy, Debug, PartialEq, Eq, Structural)]
pub struct StorageInfo {
    /// Total capacity.
    pub capacity: u64,
    /// Bytes in use.
    pub used_space: u64,
    /// Bytes still free.
    pub free_space: u64,
}

/// How the disk answered a request.
#[derive(Clone, Copy, Debug, PartialEq, Eq, Structural)]
pub enum DiskRequest {
    /// The transfer was admitted and is now in flight.
    Admitted,
    /// The transfer is impossible: a read larger than the capacity or a
    /// write larger than the free space. The requester is told immediately.
    Failed,
    /// A time value left the representable range; nothing was admitted.
    OutOfRange,
}

/// Builds a disk from capacity, bandwidths and per-activity factors.
#[derive(Clone, Copy, Debug)]
pub struct DiskBuilder {
    capacity: Option<u64>,
    read_bw: Option<u64>,
    write_bw: Option<u64>,
    read_factor: u64,
    write_factor: u64,
}

impl Default for DiskBuilder {
    /// Same as [`DiskBuilder::new`]: an incomplete builder to be filled.
    fn default() -> (r: DiskBuilder)
        ensures
            r.spec_capacity() is None,
            r.spec_read_bw() is None,
            r.spec_write_bw() is None,
            r.spec_read_factor() == 1,
            r.spec_write_factor() == 1,
    {
        DiskBuilder::new()
    }
}

impl DiskBuilder {
    /// The capacity set so far.
    pub closed spec fn spec_capacity(self) -> Option<u64> {
        self.capacity
    }

    /// The constant read bandwidth set so far.
    pub closed spec fn spec_read_bw(self) -> Option<u64> {
        self.read_bw
    }

    /// The constant write bandwidth set so far.
    pub closed spec fn spec_write_bw(self) -> Option<u64> {
        self.write_bw
    }

    /// The read factor set so far.
    pub closed spec fn spec_read_factor(self) -> u64 {
        self.read_factor
    }

    /// The write factor set so far.
    pub closed spec fn spec_write_factor(self) -> u64 {
        self.write_factor
    }

    /// An empty builder: no capacity, no bandwidths, unit factors.
    pub fn new() -> (r: DiskBuilder)
        ensures
            r.spec_capacity() is None,
            r.spec_read_bw() is None,
            r.spec_write_bw() is None,
            r.spec_read_factor() == 1,
            r.spec_write_factor() == 1,
    {
        DiskBuilder {
            capacity: None,
            read_bw: None,
            write_bw: None,
            read_factor: 1,
            write_factor: 1,
        }
    }

    /// A builder with the given capacity and constant read and write
    /// bandwidths.
    pub fn simple(capacity: u64, read_bw: u64, write_bw: u64) -> (r: DiskBuilder)
        ensures
            r.spec_capacity() == Some(capacity),
            r.spec_read_bw() == Some(read_bw),
            r.spec_write_bw() == Some(write_bw),
            r.spec_read_factor() == 1,
            r.spec_write_factor() == 1,
    {
        DiskBuilder::new().capacity(capacity).constant_read_bw(read_bw).constant_write_bw(write_bw)
    }

    /// Sets the capacity.
    pub fn capacity(self, capacity: u64) -> (r: DiskBuilder)
        ensures
            r.spec_capacity() == Some(capacity),
            r.spec_read_bw() == self.spec_read_bw(),
            r.spec_write_bw() == self.spec_write_bw(),
            r.spec_read_factor() == self.spec_read_factor(),
            r.spec_write_factor() == self.spec_write_factor(),
    {
        DiskBuilder { capacity: Some(capacity), ..self }
    }

    /// Sets a constant read bandwidth.
    pub fn constant_read_bw(self, read_bw: u64) -> (r: DiskBuilder)
        ensures
            r.spec_read_bw() == Some(read_bw),
            r.spec_capacity() == self.spec_capacity(),
            r.spec_write_bw() == self.spec_write_bw(),
            r.spec_read_factor() == self.spec_read_factor(),
            r.spec_write_factor() == self.spec_write_factor(),
    {
        DiskBuilder { read_bw: Some(read_bw), ..self }
    }

    /// Sets a constant write bandwidth.
    pub fn constant_write_bw(self, write_bw: u64) -> (r: DiskBuilder)
        ensures
            r.spec_write_bw() == Some(write_bw),
            r.spec_capacity() == self.spec_capacity(),
            r.spec_read_bw() == self.spec_read_bw(),
            r.spec_read_factor() == self.spec_read_factor(),
            r.spec_write_factor() == self.spec_write_factor(),
    {
        DiskBuilder { write_bw: Some(write_bw), ..self }
    }

    /// Sets the per-activity read factor, a constant work multiplier.
    pub fn read_factor_fn(self, read_factor: u64) -> (r: DiskBuilder)
        ensures
            r.spec_read_factor() == read_factor,
            r.spec_capacity() == self.spec_capacity(),
            r.spec_read_bw() == self.spec_read_bw(),
            r.spec_write_bw() == self.spec_write_bw(),
            r.spec_write_factor() == self.spec_write_factor(),
    {
        DiskBuilder { read_factor, ..self }
    }

    /// Sets the per-activity write factor, a constant work multiplier.
    pub fn write_factor_fn(self, write_factor: u64) -> (r: DiskBuilder)
        ensures
            r.spec_write_factor() == write_factor,
            r.spec_capacity() == self.spec_capacity(),
            r.spec_read_bw() == self.spec_read_bw(),
            r.spec_write_bw() == self.spec_write_bw(),
            r.spec_read_factor() == self.spec_read_factor(),
    {
        DiskBuilder { write_factor, ..self }
    }

    /// Builds the disk. The capacity and both bandwidths must have been
    /// set, the bandwidths and factors positive: a zero bandwidth or factor
    /// has no finite completion time in the exact time model.
    pub fn build(self) -> (r: Disk)
        requires
            self.spec_capacity() is Some,
            self.spec_read_bw() matches Some(b) && b >= 1,
            self.spec_write_bw() matches Some(b) && b >= 1,
            self.spec_read_factor() >= 1,
            self.spec_write_factor() >= 1,
        ensures
            r.wf(),
            Some(r.spec_capacity()) == self.spec_capacity(),
            r.used() == 0,
            Some(r.read_bandwidth()) == self.spec_read_bw(),
            Some(r.write_bandwidth()) == self.spec_write_bw(),
            r.reads().len() == 0,
            r.writes().len() == 0,
            r.next_request_id() == 0,
            r.read_clock().num == 0 && r.read_clock().den == 1,
            r.write_clock().num == 0 && r.write_clock().den == 1,
            r.read_model_spec().work_time().num == 0 && r.read_model_spec().work_time().den == 1,
            r.write_model_spec().work_time().num == 0 && r.write_model_spec().work_time().den == 1,
            r.read_model_spec().factor() == self.spec_read_factor(),
            r.write_model_spec().factor() == self.spec_write_factor(),
    {
        let capacity = match self.capacity {
            Some(c) => c,
            None => 0,
        };
        let read_bw = match self.read_bw {
            Some(b) => b,
            None => 1,
        };
        let write_bw = match self.write_bw {
            Some(b) => b,
            None => 1,
        };
        Disk {
            capacity,
            used: 0,
            read_model: FairThroughputSharingModel::new(read_bw, self.read_factor),
            write_model: FairThroughputSharingModel::new(write_bw, self.write_factor),
            next_request_id: 0,
        }
    }
}

/// A disk with exact space accounting and fairly shared bandwidth.
#[derive(Clone, Debug)]
pub struct Disk {
    capacity: u64,
    used: u64,
    read_model: FairThroughputSharingModel<DiskActivity>,
    write_model: FairThroughputSharingModel<DiskActivity>,
    next_request_id: u64,
}

impl Disk {
    /// Total capacity.
    pub closed spec fn spec_capacity(self) -> u64 {
        self.capacity
    }

    /// Bytes in use.
    pub closed spec fn used(self) -> u64 {
        self.used
    }

    /// The read model's constant bandwidth.
    pub open spec fn read_bandwidth(self) -> u64 {
        self.read_model_spec().throughput()
    }

    /// The write model's constant bandwidth.
    pub open spec fn write_bandwidth(self) -> u64 {
        self.write_model_spec().throughput()
    }

    /// Reads in flight.
    pub open spec fn reads(self) -> Seq<ModelEntry<DiskActivity>> {
        self.read_model_spec().entries()
    }

    /// Writes in flight.
    pub open spec fn writes(self) -> Seq<ModelEntry<DiskActivity>> {
        self.write_model_spec().entries()
    }

    /// The id the next request will get.
    pub closed spec fn next_request_id(self) -> u64 {
        self.next_request_id
    }

    /// The read model's clock.
    pub open spec fn read_clock(self) -> Ratio {
        self.read_model_spec().last_update()
    }

    /// The write model's clock.
    pub open spec fn write_clock(self) -> Ratio {
        self.write_model_spec().last_update()
    }

    /// Space accounting never exceeds the capacity, and the two sharing
    /// models are valid.
    pub open spec fn wf(self) -> bool {
        &&& self.used() <= self.spec_capacity()
        &&& self.read_model_spec().wf()
        &&& self.write_model_spec().wf()
    }

    /// Admits a read of `size` at time `now`. A read larger than the
    /// capacity fails immediately; otherwise it joins the read model with
    /// `size` units of work. Returns the request id and the answer.
    pub fn read(&mut self, size: u64, requester: u64, now: Ratio) -> (r: (u64, DiskRequest))
        requires
            old(self).wf(),
            ratio_wf(now),
            spec_ratio_le(old(self).read_clock(), now),
            size >= 1,
            old(self).next_request_id() < u64::MAX,
        ensures
            final(self).wf(),
            r.0 == old(self).next_request_id(),
            final(self).next_request_id() == old(self).next_request_id() + 1,
            final(self).used() == old(self).used(),
            final(self).spec_capacity() == old(self).spec_capacity(),
            final(self).writes() == old(self).writes(),
            r.1 == DiskRequest::Failed <==> size > old(self).spec_capacity(),
            r.1 == DiskRequest::Admitted <==> size <= old(self).spec_capacity() && old(self).read_model_spec().spec_insert_fits(size, now),
            r.1 != DiskRequest::Admitted ==> final(self).read_model_spec() == old(self).read_model_spec(),
            r.1 == DiskRequest::Admitted ==> {
                &&& final(self).reads().len() == old(self).reads().len() + 1
                &&& final(self).reads().last().item == (DiskActivity {
                    request_id: r.0,
                    requester,
                    size,
                })
                &&& forall|j: int|
                    0 <= j < old(self).reads().len() ==> #[trigger] final(self).reads()[j] == old(self).reads()[j]
                &&& final(self).read_clock() == now
                &&& ({
                    let w = final(self).read_model_spec().work_time();
                    let key = final(self).reads().last().key;
                    &&& key.num == w.num + size * old(self).read_model_spec().factor() * w.den
                    &&& key.den == w.den
                })
            },
    {
        let request_id = self.next_request_id;
        self.next_request_id = self.next_request_id + 1;
        if size > self.capacity {
            (request_id, DiskRequest::Failed)
        } else {
            let ok = self.read_model.insert(
                DiskActivity { request_id, requester, size },
                size,
                now,
            );
            if ok {
                (request_id, DiskRequest::Admitted)
            } else {
                (request_id, DiskRequest::OutOfRange)
            }
        }
    }

    /// Admits a write of `size` at time `now`. A write larger than the free
    /// space fails immediately; otherwise the space is taken and the write
    /// joins the write model with `size` units of work.
    pub fn write(&mut self, size: u64, requester: u64, now: Ratio) -> (r: (u64, DiskRequest))
        requires
            old(self).wf(),
            ratio_wf(now),
            spec_ratio_le(old(self).write_clock(), now),
            size >= 1,
            old(self).next_request_id() < u64::MAX,
        ensures
            final(self).wf(),
            r.0 == old(self).next_request_id(),
            final(self).next_request_id() == old(self).next_request_id() + 1,
            final(self).spec_capacity() == old(self).spec_capacity(),
            final(self).reads() == old(self).reads(),
            r.1 == DiskRequest::Failed <==> size > old(self).spec_capacity() - old(self).used(),
            r.1 == DiskRequest::Admitted <==> size <= old(self).spec_capacity() - old(self).used()
                && old(self).write_model_spec().spec_insert_fits(size, now),
            r.1 != DiskRequest::Admitted ==> final(self).used() == old(self).used() && final(self).write_model_spec() == old(self).write_model_spec(),
            r.1 == DiskRequest::Admitted ==> {
                &&& final(self).used() == old(self).used() + size
                &&& final(self).writes().len() == old(self).writes().len() + 1
                &&& final(self).writes().last().item == (DiskActivity {
                    request_id: r.0,
                    requester,
                    size,
                })
                &&& forall|j: int|
                    0 <= j < old(self).writes().len() ==> #[trigger] final(self).writes()[j] == old(self).writes()[j]
                &&& final(self).write_clock() == now
                &&& ({
                    let w = final(self).write_model_spec().work_time();
                    let key = final(self).writes().last().key;
                    &&& key.num == w.num + size * old(self).write_model_spec().factor() * w.den
                    &&& key.den == w.den
                })
            },
    {
        let request_id = self.next_request_id;
        self.next_request_id = self.next_request_id + 1;
        let available = self.capacity - self.used;
        if available < size {
            (request_id, DiskRequest::Failed)
        } else {
            let ok = self.write_model.insert(
                DiskActivity { request_id, requester, size },
                size,
                now,
            );
            if ok {
                self.used = self.used + size;
                (request_id, DiskRequest::Admitted)
            } else {
                (request_id, DiskRequest::OutOfRange)
            }
        }
    }

    /// Releases `size` bytes. Fails, changing nothing, exactly when more is
    /// released than is used.
    pub fn mark_free(&mut self, size: u64) -> (r: Result<(), String>)
        requires
            old(self).wf(),
        ensures
            final(self).wf(),
            final(self).spec_capacity() == old(self).spec_capacity(),
            final(self).reads() == old(self).reads(),
            final(self).writes() == old(self).writes(),
            r is Ok <==> size <= old(self).used(),
            r is Ok ==> final(self).used() == old(self).used() - size,
            r is Err ==> final(self).used() == old(self).used(),
    {
        if size <= self.used {
            self.used = self.used - size;
            Ok(())
        } else {
            Err(("invalid size").to_owned())
        }
    }

    /// Bytes in use.
    pub fn used_space(&self) -> (r: u64)
        ensures
            r == self.used(),
    {
        self.used
    }

    /// Bytes still free.
    pub fn free_space(&self) -> (r: u64)
        requires
            self.wf(),
        ensures
            r == self.spec_capacity() - self.used(),
    {
        self.capacity - self.used
    }

    /// Total capacity.
    pub fn capacity(&self) -> (r: u64)
        ensures
            r == self.spec_capacity(),
    {
        self.capacity
    }

    /// Capacity, used and free space together. Free space is always
    /// capacity minus used space.
    pub fn info(&self) -> (r: StorageInfo)
        requires
            self.wf(),
        ensures
            r.capacity == self.spec_capacity(),
            r.used_space == self.used(),
            r.free_space == self.spec_capacity() - self.used(),
            r.used_space + r.free_space == r.capacity,
    {
        StorageInfo {
            capacity: self.capacity,
            used_space: self.used,
            free_space: self.capacity - self.used,
        }
    }

    /// The next read completion, if any is projected: the exact completion
    /// time of the earliest-completing read and that activity.
    pub fn peek_read(&self) -> (r: Option<(Ratio, &DiskActivity)>)
        requires
            self.wf(),
        ensures
            r is None ==> self.reads().len() == 0 || !completion_fits(self.read_model_spec()),
            r matches Some(p) ==> {
                let es = self.reads();
                &&& es.len() > 0
                &&& is_first_key(es, first_key_index(es))
                &&& *p.1 == es[first_key_index(es)].item
                &&& completion_rel(
                    self.read_clock(),
                    self.read_model_spec().work_time(),
                    es[first_key_index(es)].key,
                    es.len() as u64,
                    self.read_bandwidth(),
                    p.0,
                )
            },
    {
        self.read_model.peek()
    }

    /// The next write completion, if any is projected: the exact completion
    /// time of the earliest-completing write and that activity.
    pub fn peek_write(&self) -> (r: Option<(Ratio, &DiskActivity)>)
        requires
            self.wf(),
        ensures
            r is None ==> self.writes().len() == 0 || !completion_fits(self.write_model_spec()),
            r matches Some(p) ==> {
                let es = self.writes();
                &&& es.len() > 0
                &&& is_first_key(es, first_key_index(es))
                &&& *p.1 == es[first_key_index(es)].item
                &&& completion_rel(
                    self.write_clock(),
                    self.write_model_spec().work_time(),
                    es[first_key_index(es)].key,
                    es.len() as u64,
                    self.write_bandwidth(),
                    p.0,
                )
            },
    {
        self.write_model.peek()
    }

    /// The read model, for stating projections.
    pub closed spec fn read_model_spec(self) -> FairThroughputSharingModel<DiskActivity> {
        self.read_model
    }

    /// The write model, for stating projections.
    pub closed spec fn write_model_spec(self) -> FairThroughputSharingModel<DiskActivity> {
        self.write_model
    }

    /// Removes and returns the earliest-completing read: its exact
    /// completion time and the activity, for delivery to the requester. The
    /// read counter advances to the completed key and the read clock to the
    /// completion time. Returns nothing exactly when no read is in flight or
    /// the completion time would leave the representable range; the disk is
    /// then unchanged.
    pub fn complete_read(&mut self) -> (r: Option<(Ratio, DiskActivity)>)
        requires
            old(self).wf(),
        ensures
            final(self).wf(),
            final(self).used() == old(self).used(),
            final(self).spec_capacity() == old(self).spec_capacity(),
            final(self).next_request_id() == old(self).next_request_id(),
            final(self).write_model_spec() == old(self).write_model_spec(),
            final(self).read_bandwidth() == old(self).read_bandwidth(),
            r is None ==> final(self).read_model_spec() == old(self).read_model_spec() && (old(self).reads().len() == 0 || !completion_fits(old(self).read_model_spec())),
            r matches Some(p) ==> {
                let es = old(self).reads();
                let k = first_key_index(es);
                &&& es.len() > 0
                &&& is_first_key(es, k)
                &&& p.1 == es[k].item
                &&& completion_rel(
                    old(self).read_clock(),
                    old(self).read_model_spec().work_time(),
                    es[k].key,
                    es.len() as u64,
                    old(self).read_bandwidth(),
                    p.0,
                )
                &&& final(self).reads() == es.remove(k)
                &&& final(self).read_model_spec().work_time() == es[k].key
                &&& final(self).read_clock() == p.0
            },
    {
        self.read_model.pop()
    }

    /// Removes and returns the earliest-completing write, exactly as
    /// `complete_read` does for reads.
    pub fn complete_write(&mut self) -> (r: Option<(Ratio, DiskActivity)>)
        requires
            old(self).wf(),
        ensures
            final(self).wf(),
            final(self).used() == old(self).used(),
            final(self).spec_capacity() == old(self).spec_capacity(),
            final(self).next_request_id() == old(self).next_request_id(),
            final(self).read_model_spec() == old(self).read_model_spec(),
            final(self).write_bandwidth() == old(self).write_bandwidth(),
            r is None ==> final(self).write_model_spec() == old(self).write_model_spec() && (old(self).writes().len() == 0 || !completion_fits(old(self).write_model_spec())),
            r matches Some(p) ==> {
                let es = old(self).writes();
                let k = first_key_index(es);
                &&& es.len() > 0
                &&& is_first_key(es, k)
                &&& p.1 == es[k].item
                &&& completion_rel(
                    old(self).write_clock(),
                    old(self).write_model_spec().work_time(),
                    es[k].key,
                    es.len() as u64,
                    old(self).write_bandwidth(),
                    p.0,
                )
                &&& final(self).writes() == es.remove(k)
                &&& final(self).write_model_spec().work_time() == es[k].key
                &&& final(self).write_clock() == p.0
            },
    {
        self.write_model.pop()
    }
}

/// The disk-accounting law: a successful write of `size` followed by
/// releasing `size` restores the used space, and free space is always the
/// capacity minus the used space (see `Disk::info`). In terms of the
/// contracts: writing takes `used` to `used + size` and `mark_free(size)`
/// takes it back to `used`.
pub proof fn lemma_disk_accounting(used0: u64, used1: u64, used2: u64, size: u64)
    requires
        used1 == used0 + size,
        size <= used1,
        used2 == used1 - size,
    ensures
        used2 == used0,
{
}

} // verus!
