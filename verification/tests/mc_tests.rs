use dslab::mc_event::McEvent;
use dslab::mc_time::McTime;
use dslab::pending_events::PendingEvents;
use rand::seq::IteratorRandom;

#[test]
fn test_mc_time() {
    let a = McTime::from(0);
    let b = McTime::from(0);
    assert!(b <= a);
    assert!(a <= b);
    assert_eq!(a, b);
}

#[test]
fn test_dependency_resolver_simple() {
    let mut pending_events = PendingEvents::new();
    let mut sequence = Vec::new();
    let mut rev_id = vec![0; 9];
    for node_id in 0..3u64 {
        let times: Vec<u64> = (0..3).collect();
        for event_time in times {
            let event = McEvent::TimerFired {
                proc: node_id.to_string(),
                timer: format!("{}", event_time),
                timer_delay: McTime::from(event_time),
            };
            rev_id[pending_events.push(event)] = event_time * 3 + node_id;
        }
    }
    println!("{:?}", rev_id);
    while let Some(id) = pending_events.available_events().iter().choose(&mut rand::rng()) {
        let id = *id;
        sequence.push(rev_id[id]);
        pending_events.pop(id);
    }
    println!("{:?}", sequence);
    assert_eq!(sequence.len(), 9);
    let mut timers = vec![0, 0, 0];
    for event_id in sequence {
        let time = event_id / 3;
        let node = event_id % 3;
        assert_eq!(timers[node as usize], time);
        timers[node as usize] += 1;
    }
}

#[test]
fn test_dependency_resolver_pop() {
    let mut pending_events = PendingEvents::new();
    let mut sequence = Vec::new();
    let mut rev_id = vec![0; 12];

    for node_id in 0..3u64 {
        let times: Vec<u64> = (0..3).collect();
        for event_time in times {
            let event = McEvent::TimerFired {
                proc: node_id.to_string(),
                timer: format!("{}", event_time),
                timer_delay: McTime::from(1 + event_time),
            };
            rev_id[pending_events.push(event)] = event_time * 3 + node_id;
        }
    }

    // remove 7 events such that every process had at least one timer fired
    for _ in 0..7 {
        let id = *pending_events
            .available_events()
            .iter()
            .choose(&mut rand::rng())
            .unwrap();
        sequence.push(rev_id[id]);
        pending_events.pop(id);
    }

    // a late timer with delay 3 per process is blocked by any remaining
    // timer of the same process and then becomes available
    for node_id in 0..3u64 {
        let event = McEvent::TimerFired {
            proc: node_id.to_string(),
            timer: format!("{}", node_id),
            timer_delay: McTime::from(3),
        };
        rev_id[pending_events.push(event)] = 9 + node_id;
    }
    while let Some(id) = pending_events.available_events().iter().choose(&mut rand::rng()) {
        let id = *id;
        sequence.push(rev_id[id]);
        pending_events.pop(id);
    }
    println!("{:?}", sequence);
    assert_eq!(sequence.len(), 12);
    let mut timers = vec![0, 0, 0];
    for event_id in sequence {
        let time = event_id / 3;
        let node = event_id % 3;
        assert_eq!(timers[node as usize], time);
        timers[node as usize] += 1;
    }
}

#[test]
fn test_directive_preemption() {
    let mut pe = PendingEvents::new();
    let timer_id = pe.push(McEvent::TimerFired {
        proc: "1".to_string(),
        timer: "x".to_string(),
        timer_delay: McTime::from(1),
    });
    let cancel_id = pe.push(McEvent::TimerCancelled { proc: "1".to_string(), timer: "x".to_string() });
    let avail = pe.available_events();
    assert_eq!(avail, vec![cancel_id]);
    assert_eq!(pe.available_events_num(), 1);
    pe.pop(cancel_id);
    let avail = pe.available_events();
    assert_eq!(avail, vec![timer_id]);
}

#[test]
fn test_message_fifo_order() {
    let mut pe = PendingEvents::new();
    let first = pe.push(McEvent::MessageReceived {
        msg: "a".to_string(),
        src: "p".to_string(),
        dest: "q".to_string(),
    });
    let second = pe.push(McEvent::MessageReceived {
        msg: "b".to_string(),
        src: "p".to_string(),
        dest: "q".to_string(),
    });
    let other = pe.push(McEvent::MessageReceived {
        msg: "c".to_string(),
        src: "q".to_string(),
        dest: "p".to_string(),
    });
    // only the heads of the two queues are available
    assert_eq!(pe.available_events(), vec![first, other]);
    pe.pop(first);
    // popping the head unblocks the next message of the same pair
    assert_eq!(pe.available_events(), vec![second, other]);
    let ev = pe.pop(second);
    match ev {
        McEvent::MessageReceived { msg, .. } => assert_eq!(msg, "b"),
        _ => panic!("expected a message"),
    }
}

#[test]
fn test_push_pop_roundtrip() {
    let mut pe = PendingEvents::new();
    let event = McEvent::MessageDropped {
        msg: "payload".to_string(),
        src: "a".to_string(),
        dest: "b".to_string(),
    };
    let id = pe.push(event);
    let back = pe.pop(id);
    match back {
        McEvent::MessageDropped { msg, src, dest } => {
            assert_eq!(msg, "payload");
            assert_eq!(src, "a");
            assert_eq!(dest, "b");
        }
        _ => panic!("expected the dropped message back"),
    }
    assert_eq!(pe.available_events_num(), 0);
}

#[test]
fn test_cancel_timer_removes_pending() {
    let mut pe = PendingEvents::new();
    let id = pe.push(McEvent::TimerFired {
        proc: "p".to_string(),
        timer: "t".to_string(),
        timer_delay: McTime::from(5),
    });
    assert!(pe.get(id).is_some());
    pe.cancel_timer("p".to_string(), "t".to_string());
    assert!(pe.get(id).is_none());
    assert_eq!(pe.available_events_num(), 0);
}

#[test]
fn test_timer_key_overwrite() {
    // a second timer with the same (process, name) key overwrites the index
    // entry: cancelling the key removes the newest timer, not the oldest
    let mut pe = PendingEvents::new();
    let first = pe.push(McEvent::TimerFired {
        proc: "p".to_string(),
        timer: "t".to_string(),
        timer_delay: McTime::from(1),
    });
    let second = pe.push(McEvent::TimerFired {
        proc: "p".to_string(),
        timer: "t".to_string(),
        timer_delay: McTime::from(2),
    });
    pe.cancel_timer("p".to_string(), "t".to_string());
    assert!(pe.get(second).is_none());
    assert!(pe.get(first).is_some());
}

#[test]
fn test_cancel_after_fire_is_noop() {
    // once a timer fired, its index entry is gone: a late cancellation
    // changes nothing
    let mut pe = PendingEvents::new();
    let id = pe.push(McEvent::TimerFired {
        proc: "p".to_string(),
        timer: "t".to_string(),
        timer_delay: McTime::from(1),
    });
    let other = pe.push(McEvent::TimerFired {
        proc: "q".to_string(),
        timer: "u".to_string(),
        timer_delay: McTime::from(1),
    });
    pe.pop(id);
    pe.cancel_timer("p".to_string(), "t".to_string());
    assert!(pe.get(other).is_some());
    assert_eq!(pe.available_events(), vec![other]);
}
