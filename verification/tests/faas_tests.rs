use dslab::container::{ContainerManager, ContainerStatus};
use dslab::function::FunctionRegistry;
use dslab::invocation::Invocation;
use dslab::invoker::{
    default_invoker_resolver, FIFOInvoker, InvokerDecision, InvokerVariant, NaiveInvoker,
};
use dslab::stats::Stats;

#[test]
fn test_warm_hit() {
    // host with 4 cores / 1024 MB; app needs 1 core / 128 MB, deploys in 5
    let mut fr = FunctionRegistry::new();
    let mut cm = ContainerManager::new(4, 1024);
    let app_id = fr.add_app(1, 128, 5, 1);
    let func_id = fr.add_function(app_id);
    let mut invoker = FIFOInvoker::new();

    let inv1 = Invocation { id: 1, func_id, app_id, arrival_time: 0 };
    let decision = invoker.invoke(&inv1, &fr, &mut cm, 0);
    assert_eq!(decision, InvokerDecision::Cold(0, 5));
    cm.reserve_container(0, 1);
    assert_eq!(cm.get_container(0).unwrap().status, ContainerStatus::Deploying);

    // deployment completes at t = 5; the container runs its invocation
    cm.finish_deploy(0, 5);
    assert_eq!(cm.get_container(0).unwrap().status, ContainerStatus::Running);
    // the invocation ends at t = 7 and the container goes idle
    cm.end_invocation(0, 1, 7);
    assert_eq!(cm.get_container(0).unwrap().status, ContainerStatus::Idle);

    // a later invocation hits the idle container warm, with no delay
    let inv2 = Invocation { id: 2, func_id, app_id, arrival_time: 100 };
    let decision = invoker.invoke(&inv2, &fr, &mut cm, 100);
    assert_eq!(decision, InvokerDecision::Warm(0));
}

#[test]
fn test_queue_resource_freeing() {
    // host with 1 core / 128 MB; the app uses all of it
    let mut fr = FunctionRegistry::new();
    let mut cm = ContainerManager::new(1, 128);
    let mut stats = Stats::new();
    let app_id = fr.add_app(1, 128, 4, 1);
    let func_id = fr.add_function(app_id);
    let mut invoker = FIFOInvoker::new();

    let inv1 = Invocation { id: 1, func_id, app_id, arrival_time: 0 };
    let d1 = invoker.invoke(&inv1, &fr, &mut cm, 0);
    assert_eq!(d1, InvokerDecision::Cold(0, 4));
    cm.reserve_container(0, 1);

    // no slack left: the second invocation is queued
    let inv2 = Invocation { id: 2, func_id, app_id, arrival_time: 1 };
    let d2 = invoker.invoke(&inv2, &fr, &mut cm, 1);
    assert_eq!(d2, InvokerDecision::Queued);
    assert_eq!(invoker.queue_len(), 1);

    // inv1 runs from t = 4 and completes at t = 10, freeing the container
    cm.finish_deploy(0, 4);
    cm.end_invocation(0, 1, 10);
    let dequeued = invoker.dequeue(&fr, &mut cm, &mut stats, 10);
    assert_eq!(dequeued.len(), 1);
    assert_eq!(dequeued[0].id, 2);
    assert_eq!(dequeued[0].container_id, 0);
    assert_eq!(dequeued[0].delay, None);
    assert_eq!(invoker.queue_len(), 0);
}

#[test]
fn test_fifo_head_of_line() {
    // host full; a large invocation is queued first, a small one second:
    // FIFO admits nothing while the head cannot be admitted
    let mut fr = FunctionRegistry::new();
    let mut cm = ContainerManager::new(2, 256);
    let mut stats = Stats::new();
    let app_large = fr.add_app(2, 256, 5, 1);
    let func_large = fr.add_function(app_large);
    let app_small = fr.add_app(1, 128, 5, 1);
    let func_small = fr.add_function(app_small);
    let mut invoker = FIFOInvoker::new();

    // fill the host with two small containers
    let f1 = Invocation { id: 10, func_id: func_small, app_id: app_small, arrival_time: 0 };
    assert_eq!(invoker.invoke(&f1, &fr, &mut cm, 0), InvokerDecision::Cold(0, 5));
    cm.reserve_container(0, 10);
    let f2 = Invocation { id: 11, func_id: func_small, app_id: app_small, arrival_time: 0 };
    assert_eq!(invoker.invoke(&f2, &fr, &mut cm, 0), InvokerDecision::Cold(1, 5));
    cm.reserve_container(1, 11);

    let inv_large = Invocation { id: 1, func_id: func_large, app_id: app_large, arrival_time: 1 };
    let inv_small = Invocation { id: 2, func_id: func_small, app_id: app_small, arrival_time: 2 };
    assert_eq!(invoker.invoke(&inv_large, &fr, &mut cm, 1), InvokerDecision::Queued);
    assert_eq!(invoker.invoke(&inv_small, &fr, &mut cm, 2), InvokerDecision::Queued);

    // one small slot frees up, enough for the small item but not the head
    cm.finish_deploy(0, 5);
    cm.end_invocation(0, 10, 6);
    let dequeued = invoker.dequeue(&fr, &mut cm, &mut stats, 7);
    // even though the small item would fit, FIFO waits for the large head
    assert_eq!(dequeued.len(), 0);
    assert_eq!(invoker.queue_len(), 2);
}

#[test]
fn test_naive_fairness() {
    // same configuration: the naive invoker admits the small item that
    // fits, leaving the large one queued
    let mut fr = FunctionRegistry::new();
    let mut cm = ContainerManager::new(2, 256);
    let mut stats = Stats::new();
    let app_large = fr.add_app(2, 256, 5, 1);
    let func_large = fr.add_function(app_large);
    let app_small = fr.add_app(1, 128, 5, 1);
    let func_small = fr.add_function(app_small);
    let mut invoker = NaiveInvoker::new();

    let f1 = Invocation { id: 10, func_id: func_small, app_id: app_small, arrival_time: 0 };
    assert_eq!(invoker.invoke(&f1, &fr, &mut cm, 0), InvokerDecision::Cold(0, 5));
    cm.reserve_container(0, 10);
    let f2 = Invocation { id: 11, func_id: func_small, app_id: app_small, arrival_time: 0 };
    assert_eq!(invoker.invoke(&f2, &fr, &mut cm, 0), InvokerDecision::Cold(1, 5));
    cm.reserve_container(1, 11);

    let inv_large = Invocation { id: 1, func_id: func_large, app_id: app_large, arrival_time: 1 };
    let inv_small = Invocation { id: 2, func_id: func_small, app_id: app_small, arrival_time: 2 };
    assert_eq!(invoker.invoke(&inv_large, &fr, &mut cm, 1), InvokerDecision::Queued);
    assert_eq!(invoker.invoke(&inv_small, &fr, &mut cm, 2), InvokerDecision::Queued);

    cm.finish_deploy(0, 5);
    cm.end_invocation(0, 10, 6);
    let dequeued = invoker.dequeue(&fr, &mut cm, &mut stats, 7);
    // the large head stays queued; the small one is admitted warm
    assert_eq!(dequeued.len(), 1);
    assert_eq!(dequeued[0].id, 2);
    assert_eq!(dequeued[0].delay, None);
    assert_eq!(invoker.queue_len(), 1);
}

#[test]
fn test_invoker_resolver() {
    let naive = default_invoker_resolver("NaiveInvoker");
    assert!(matches!(naive, InvokerVariant::Naive(_)));
    let fifo = default_invoker_resolver("FIFOInvoker");
    assert!(matches!(fifo, InvokerVariant::Fifo(_)));
}

#[test]
fn test_stats_accounting() {
    let mut stats = Stats::new();
    stats.update_queueing_time(0, 0, 5);
    stats.update_queueing_time(0, 0, 7);
    stats.on_cold_start(0, 0, 9);
    let e = stats.get(0, 0).unwrap();
    assert_eq!(e.queueing_time_sum, 12);
    assert_eq!(e.queueing_count, 2);
    assert_eq!(e.cold_start_sum, 9);
    assert_eq!(e.cold_start_count, 1);
    stats.update_wasted_resources(3, 2, 64);
    assert_eq!(stats.wasted_core_time(), 6);
    assert_eq!(stats.wasted_memory_time(), 192);
}

#[test]
fn test_warm_admission_accounting() {
    // a warm admission from the queue records queueing time, wasted idle
    // resources and the end-to-end activation latency
    let mut fr = FunctionRegistry::new();
    let mut cm = ContainerManager::new(1, 128);
    let mut stats = Stats::new();
    let app_id = fr.add_app(1, 128, 4, 1);
    let func_id = fr.add_function(app_id);
    let mut invoker = FIFOInvoker::new();

    let inv1 = Invocation { id: 1, func_id, app_id, arrival_time: 0 };
    assert_eq!(invoker.invoke(&inv1, &fr, &mut cm, 0), InvokerDecision::Cold(0, 4));
    cm.reserve_container(0, 1);
    let inv2 = Invocation { id: 2, func_id, app_id, arrival_time: 1 };
    assert_eq!(invoker.invoke(&inv2, &fr, &mut cm, 1), InvokerDecision::Queued);

    cm.finish_deploy(0, 4);
    cm.end_invocation(0, 1, 4);  // idle from t = 4
    let dequeued = invoker.dequeue(&fr, &mut cm, &mut stats, 10);
    assert_eq!(dequeued.len(), 1);
    let e = stats.get(app_id, func_id).unwrap();
    // queued from t = 1 to t = 10
    assert_eq!(e.queueing_time_sum, 9);
    // the container sat idle from t = 4 to t = 10 with 1 core / 128 MB
    assert_eq!(stats.wasted_core_time(), 6);
    assert_eq!(stats.wasted_memory_time(), 6 * 128);
    // the activation latency of a warm admission is the queue wait alone
    assert_eq!(e.cold_start_sum, 9);
    assert_eq!(cm.get_container(0).unwrap().status, ContainerStatus::Running);
}
