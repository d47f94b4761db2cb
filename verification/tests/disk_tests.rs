use dslab::disk::{DiskBuilder, DiskRequest};
use dslab::ratio::Ratio;
use dslab::throughput::FairThroughputSharingModel;

#[test]
fn test_disk_builder_simple() {
    // the simple builder yields exactly the given capacity and bandwidths
    let disk = DiskBuilder::simple(1000, 100, 50).build();
    assert_eq!(disk.capacity(), 1000);
    assert_eq!(disk.used_space(), 0);
    assert_eq!(disk.free_space(), 1000);
    let info = disk.info();
    assert_eq!(info.capacity, 1000);
    assert_eq!(info.used_space, 0);
    assert_eq!(info.free_space, 1000);
}

#[test]
fn test_disk_accounting() {
    // used space returns to its start after write + mark_free pairs, and
    // used + free == capacity throughout
    let mut disk = DiskBuilder::simple(1000, 100, 50).build();
    let t0 = Ratio::zero();
    let (id1, r1) = disk.write(300, 7, t0);
    assert_eq!(id1, 0);
    assert_eq!(r1, DiskRequest::Admitted);
    assert_eq!(disk.used_space(), 300);
    assert_eq!(disk.free_space(), 700);
    let (_, r2) = disk.write(200, 7, t0);
    assert_eq!(r2, DiskRequest::Admitted);
    assert_eq!(disk.used_space(), 500);
    assert_eq!(disk.used_space() + disk.free_space(), disk.capacity());
    assert!(disk.mark_free(200).is_ok());
    assert!(disk.mark_free(300).is_ok());
    assert_eq!(disk.used_space(), 0);
    // releasing more than is used fails and changes nothing
    assert!(disk.mark_free(1).is_err());
    assert_eq!(disk.used_space(), 0);
}

#[test]
fn test_disk_failures() {
    let mut disk = DiskBuilder::simple(100, 10, 10).build();
    let t0 = Ratio::zero();
    // a read larger than the capacity fails immediately
    let (_, r) = disk.read(101, 1, t0);
    assert_eq!(r, DiskRequest::Failed);
    // a write larger than the free space fails immediately
    let (_, w1) = disk.write(80, 1, t0);
    assert_eq!(w1, DiskRequest::Admitted);
    let (_, w2) = disk.write(30, 1, t0);
    assert_eq!(w2, DiskRequest::Failed);
    assert_eq!(disk.used_space(), 80);
}

#[test]
fn test_single_read_completion_time() {
    // one read of 100 units at bandwidth 10 completes at t = 10
    let mut disk = DiskBuilder::simple(1000, 10, 10).build();
    let t0 = Ratio::zero();
    let (id, r) = disk.read(100, 3, t0);
    assert_eq!(r, DiskRequest::Admitted);
    let (t, activity) = disk.complete_read().unwrap();
    assert_eq!(activity.request_id, id);
    assert_eq!(activity.size, 100);
    // exact rational equality: t == 10
    assert_eq!(t.num as u128 * 1, 10 * t.den as u128);
}

#[test]
fn test_fair_sharing_two_activities() {
    // two equal activities of 2 units at throughput 1, both admitted at
    // t = 0: each drains at rate 1/2, so both complete at t = 4, the
    // earlier-admitted one first
    let mut model: FairThroughputSharingModel<u32> = FairThroughputSharingModel::new(1, 1);
    assert!(model.insert(10, 2, Ratio::zero()));
    assert!(model.insert(20, 2, Ratio::zero()));
    let (t1, first) = model.pop().unwrap();
    assert_eq!(first, 10);
    assert_eq!(t1.num as u128 * 1, 4 * t1.den as u128);
    let (t2, second) = model.pop().unwrap();
    assert_eq!(second, 20);
    assert_eq!(t2.num as u128 * 1, 4 * t2.den as u128);
    assert!(model.pop().is_none());
}

#[test]
fn test_throughput_conservation_interval() {
    // constant throughput 2: three units of work inserted at t = 0 complete
    // at t = 3/2; the work done, 2 * (3/2 - 0), equals the admitted work
    let mut model: FairThroughputSharingModel<u8> = FairThroughputSharingModel::new(2, 1);
    assert!(model.insert(1, 3, Ratio::zero()));
    let (t, _) = model.pop().unwrap();
    // t == 3/2 exactly
    assert_eq!(t.num as u128 * 2, 3 * t.den as u128);
}

#[test]
fn test_insert_overflow_leaves_model_unchanged() {
    // advancing the counter over an enormous interval at high throughput
    // overflows the exact representation: the insert is refused and the
    // model still completes its resident activity as before
    let mut model: FairThroughputSharingModel<u8> = FairThroughputSharingModel::new(3, 1);
    assert!(model.insert(1, 1, Ratio::zero()));
    let far = Ratio { num: u64::MAX, den: 1 };
    assert!(!model.insert(2, 1, far));
    let (t, item) = model.pop().unwrap();
    assert_eq!(item, 1);
    // work 1 at throughput 3 completes at t == 1/3
    assert_eq!(t.num as u128 * 3, 1 * t.den as u128);
    assert!(model.pop().is_none());
}

#[test]
fn test_late_insert_shares_bandwidth() {
    // work 4 at throughput 1; at t = 2 half is done, then a second activity
    // of work 1 joins: rates halve, the short one finishes at t = 4, the
    // long one at t = 5
    let mut model: FairThroughputSharingModel<u8> = FairThroughputSharingModel::new(1, 1);
    assert!(model.insert(1, 4, Ratio::zero()));
    assert!(model.insert(2, 1, Ratio { num: 2, den: 1 }));
    let (t1, first) = model.pop().unwrap();
    assert_eq!(first, 2);
    assert_eq!(t1.num as u128 * 1, 4 * t1.den as u128);
    let (t2, second) = model.pop().unwrap();
    assert_eq!(second, 1);
    assert_eq!(t2.num as u128 * 1, 5 * t2.den as u128);
}
