use sabi::ack::NetworkAck;
use sabi::input::{
    client_input_message, ClientQueuedInputs, ClientReceivedHistory, QueuedInputs,
    ReceivedHistory, INPUT_RETAIN_BUFFER,
};
use sabi::resim::{store_snapshot, ComponentSnapshot, SnapshotBuffer};
use sabi::tick::NetworkTick;

fn keys<I>(q: &QueuedInputs<I>) -> Vec<u64> {
    q.queue.keys()
}

#[test]
fn input_ring_keeps_the_retain_window() {
    let mut ring = QueuedInputs::new();
    for t in 1..=40u64 {
        ring.push(NetworkTick::new(t), t * 10);
        let newest = t;
        let expected: Vec<u64> = (1..=t).filter(|k| newest - k < INPUT_RETAIN_BUFFER).collect();
        assert_eq!(keys(&ring), expected);
    }
    assert_eq!(keys(&ring), (9..=40).collect::<Vec<_>>());
    assert_eq!(ring.get(&NetworkTick::new(9)), Some(&90));
    assert_eq!(ring.get(&NetworkTick::new(8)), None);
}

#[test]
fn input_ring_push_of_an_old_tick_keeps_newest_window() {
    let mut ring = QueuedInputs::new();
    ring.push(NetworkTick::new(100), 'a');
    ring.push(NetworkTick::new(60), 'b');
    assert_eq!(keys(&ring), vec![100]);
    ring.push(NetworkTick::new(69), 'c');
    assert_eq!(keys(&ring), vec![69, 100]);
}

#[test]
fn send_window_is_six_ticks() {
    let mut ring = QueuedInputs::new();
    for t in 0..20u64 {
        ring.push(NetworkTick::new(t), t);
    }
    let message = client_input_message(NetworkTick::new(19), NetworkAck::new(NetworkTick::new(15)), ring);
    assert_eq!(keys(&message.inputs), (14..20).collect::<Vec<_>>());
    assert_eq!(message.tick, NetworkTick::new(19));
}

#[test]
fn late_inputs_are_rejected() {
    let mut q = QueuedInputs::new();
    q.upsert_reject(NetworkTick::new(10), NetworkTick::new(9), 1);
    q.upsert_reject(NetworkTick::new(10), NetworkTick::new(10), 2);
    q.upsert_reject(NetworkTick::new(10), NetworkTick::new(12), 3);
    assert_eq!(keys(&q), vec![10, 12]);
    q.clean_old(NetworkTick::new(11));
    assert_eq!(keys(&q), vec![12]);
}

#[test]
fn server_merges_received_inputs() {
    let mut server = ClientQueuedInputs::new();
    let mut first = QueuedInputs::new();
    first.upsert(NetworkTick::new(5), 'a');
    first.upsert(NetworkTick::new(6), 'b');
    server.upsert(3, first);
    let mut second = QueuedInputs::new();
    second.upsert(NetworkTick::new(6), 'c');
    second.upsert(NetworkTick::new(7), 'd');
    server.upsert(3, second);
    assert_eq!(server.get(3, &NetworkTick::new(5)), Some(&'a'));
    assert_eq!(server.get(3, &NetworkTick::new(6)), Some(&'c'));
    assert_eq!(server.get(3, &NetworkTick::new(7)), Some(&'d'));
    assert_eq!(server.get(4, &NetworkTick::new(7)), None);
    server.clean_old(NetworkTick::new(6));
    assert_eq!(server.get(3, &NetworkTick::new(5)), None);
    assert_eq!(server.get(3, &NetworkTick::new(6)), Some(&'c'));
}

#[test]
fn snapshot_ring_stays_within_32_ticks() {
    let mut ring = SnapshotBuffer::new();
    for t in 0..50u64 {
        let mut snapshot = ComponentSnapshot::new();
        snapshot.insert(1, t as i32);
        ring.push(NetworkTick::new(t), snapshot);
        let ks = ring.snapshots.keys();
        assert!(ks.len() <= 32);
        assert!(ks.iter().all(|k| k + 31 >= t));
    }
    assert_eq!(ring.snapshots.keys(), (18..50).collect::<Vec<_>>());
    assert_eq!(ring.get(&NetworkTick::new(20)).unwrap().get(1), Some(&20));
    assert!(ring.get(&NetworkTick::new(17)).is_none());
}

#[test]
fn store_snapshot_records_each_entity() {
    let mut ring = SnapshotBuffer::new();
    store_snapshot(NetworkTick::new(3), &mut ring, vec![(10, "x"), (11, "y")]);
    let snap = ring.get(&NetworkTick::new(3)).unwrap();
    assert_eq!(snap.get(10), Some(&"x"));
    assert_eq!(snap.get(11), Some(&"y"));
    assert_eq!(snap.get(12), None);
}

#[test]
fn arrival_gaps_are_bounded_and_averaged() {
    let mut h = ReceivedHistory::new();
    h.push(1_000);
    assert!(h.times.is_empty());
    h.push(1_500);
    h.push(2_500);
    assert_eq!(h.times, vec![500, 1_000]);
    assert_eq!(h.mean_gap(), 750);
    for i in 0..100u64 {
        h.push(3_000 + i * 10);
    }
    assert_eq!(h.times.len(), 64);
    assert_eq!(h.mean_gap(), 10);
}

#[test]
fn arrival_history_per_client() {
    let mut all = ClientReceivedHistory::new();
    all.push(1, 100);
    all.push(1, 300);
    all.push(2, 50);
    assert_eq!(all.mean_gap(1), 200);
    assert_eq!(all.mean_gap(2), 0);
    assert_eq!(all.mean_gap(3), 0);
}

#[test]
fn oldest_snapshot_tick() {
    let mut ring: SnapshotBuffer<u8> = SnapshotBuffer::new();
    assert_eq!(ring.oldest(), None);
    ring.push(NetworkTick::new(9), ComponentSnapshot::new());
    ring.push(NetworkTick::new(4), ComponentSnapshot::new());
    assert_eq!(ring.oldest(), Some(NetworkTick::new(4)));
}
