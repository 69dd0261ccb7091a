use utrace_host::bus::EventBus;
use utrace_host::decoder::Occurrence;

fn occ(ts: u64, id: u8) -> Occurrence {
    Occurrence::Point { timestamp: ts, wire_id: id }
}

#[test]
fn every_subscriber_sees_everything_in_order() {
    let mut bus = EventBus::new(8);
    let a = bus.subscribe();
    let b = bus.subscribe();
    bus.publish(occ(1, 1)).unwrap();
    bus.publish(occ(2, 2)).unwrap();
    assert_eq!(bus.recv(a), Some(occ(1, 1)));
    assert_eq!(bus.recv(a), Some(occ(2, 2)));
    assert_eq!(bus.recv(a), None);
    assert_eq!(bus.recv(b), Some(occ(1, 1)));
    assert_eq!(bus.recv(b), Some(occ(2, 2)));
    assert_eq!(bus.recv(b), None);
}

#[test]
fn late_subscriber_misses_earlier_occurrences() {
    let mut bus = EventBus::new(8);
    bus.publish(occ(1, 1)).unwrap();
    let a = bus.subscribe();
    bus.publish(occ(2, 2)).unwrap();
    assert_eq!(bus.recv(a), Some(occ(2, 2)));
    assert_eq!(bus.recv(a), None);
}

#[test]
fn full_bus_with_undrained_subscriber_overflows() {
    let mut bus = EventBus::new(2);
    let slow = bus.subscribe();
    let fast = bus.subscribe();
    bus.publish(occ(1, 1)).unwrap();
    bus.publish(occ(2, 2)).unwrap();
    // the fast subscriber keeps up, the slow one does not
    assert_eq!(bus.recv(fast), Some(occ(1, 1)));
    assert_eq!(bus.recv(fast), Some(occ(2, 2)));

    let err = bus.publish(occ(3, 3)).unwrap_err();
    assert_eq!(err.lagging, slow);
    // the occurrence was delivered to nobody, not even the fast subscriber
    assert_eq!(bus.recv(fast), None);
    // and the bus is unchanged: draining the slow one makes room again
    assert_eq!(bus.recv(slow), Some(occ(1, 1)));
    bus.publish(occ(3, 3)).unwrap();
    assert_eq!(bus.recv(fast), Some(occ(3, 3)));
}

#[test]
fn publish_without_subscribers_succeeds() {
    let mut bus = EventBus::new(1);
    bus.publish(occ(1, 1)).unwrap();
    bus.publish(occ(2, 2)).unwrap();
}
