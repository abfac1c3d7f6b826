use sabi::demands::{ReplicateDemands, ReplicateSizeEstimates};
use sabi::interest::{
    baseload_components, component_changes, queue_interests, select_interests, Baseload,
    ClientInterestQueues, ClientUnackedInterests, Interest, InterestQueue, InterestsToSend,
    UnackedInterests,
};
use sabi::replicate::ReplicateId;
use sabi::tick::NetworkTick;

fn interest(entity: u64, kind: u16) -> Interest {
    Interest::new(entity, ReplicateId(kind))
}

fn queued(queues: &ClientInterestQueues, client: u64) -> Vec<Interest> {
    queues.get(client).map(|q| q.as_slice().to_vec()).unwrap_or_default()
}

#[test]
pub fn interest_queue() {
    let mut queue = InterestQueue::new();
    queue.push_back(1i32);
    queue.push_back(2);
    queue.push_back(2);
    queue.push_back(3);

    assert_eq!(queue.len(), 3); // should dedup the 2s

    // should re-order if asked to push to front
    assert_eq!(queue.peek_last(), Some(&3));
    queue.push_front(3);
    assert_eq!(queue.peek_first(), Some(&3));
    assert_eq!(queue.peek_last(), Some(&2));

    assert_eq!(
        queue.iter().cloned().collect::<Vec<_>>().as_slice(),
        &[3, 1, 2]
    );
    assert_eq!(queue.pop_front(), Some(3));
    assert_eq!(
        queue.iter().cloned().collect::<Vec<_>>().as_slice(),
        &[1, 2]
    );

    assert_eq!(queue.pop_front(), Some(1));
    assert_eq!(queue.iter().cloned().collect::<Vec<_>>().as_slice(), &[2]);

    assert_eq!(queue.pop_front(), Some(2));
    let empty_slice: &[i32] = &[];
    assert_eq!(
        queue.iter().cloned().collect::<Vec<_>>().as_slice(),
        empty_slice
    );
    assert_eq!(queue.pop_front(), None);
    assert_eq!(
        queue.iter().cloned().collect::<Vec<_>>().as_slice(),
        empty_slice
    );
}

#[test]
fn push_front_moves_from_the_middle_keeping_order() {
    let mut queue = InterestQueue::new();
    for x in [1u64, 2, 3, 4] {
        queue.push_back(x);
    }
    assert!(queue.push_front(3));
    assert_eq!(queue.as_slice(), &[3, 1, 2, 4]);
    assert!(!queue.push_front(9));
    assert_eq!(queue.as_slice(), &[9, 3, 1, 2, 4]);
}

#[test]
fn queue_set_and_list_agree_after_any_operations() {
    let mut queue = InterestQueue::new();
    let ops: [(u8, u64); 14] = [
        (0, 1), (0, 2), (1, 2), (0, 3), (1, 4), (2, 0), (0, 1), (1, 1),
        (0, 5), (0, 5), (1, 3), (2, 0), (0, 2), (1, 6),
    ];
    for (op, x) in ops {
        match op {
            0 => {
                queue.push_back(x);
            }
            1 => {
                queue.push_front(x);
            }
            _ => {
                queue.pop_front();
            }
        }
        let items = queue.as_slice().to_vec();
        let mut unique = items.clone();
        unique.sort();
        unique.dedup();
        assert_eq!(unique.len(), items.len());
        assert_eq!(queue.len(), items.len());
    }
}

#[test]
fn mtu_bin_packing() {
    let (a, b, c) = (ReplicateId(1), ReplicateId(2), ReplicateId(3));
    let mut estimates = ReplicateSizeEstimates::new();
    estimates.add(a, 600);
    estimates.add(b, 600);
    estimates.add(c, 400);
    let demands = ReplicateDemands::new();
    let mut queue = InterestQueue::new();
    queue.push_back(Interest::new(1, a));
    queue.push_back(Interest::new(1, b));
    queue.push_back(Interest::new(1, c));
    let sent = select_interests(&mut queue, &demands, &estimates, 1500);
    assert_eq!(sent, vec![Interest::new(1, a), Interest::new(1, b)]);
    assert_eq!(queue.as_slice(), &[Interest::new(1, c)]);
    // Next tick C goes first.
    let sent = select_interests(&mut queue, &demands, &estimates, 1500);
    assert_eq!(sent, vec![Interest::new(1, c)]);
    assert!(queue.is_empty());
}

#[test]
fn dependency_group() {
    let (a, b) = (ReplicateId(1), ReplicateId(2));
    let mut estimates = ReplicateSizeEstimates::new();
    estimates.add(a, 500);
    estimates.add(b, 500);
    let mut demands = ReplicateDemands::new();
    demands.require_dependency(a, b);
    let mut queue = InterestQueue::new();
    queue.push_back(Interest::new(1, a));
    for _ in 0..2 {
        let sent = select_interests(&mut queue, &demands, &estimates, 900);
        assert!(sent.is_empty());
        assert_eq!(queue.as_slice(), &[Interest::new(1, a)]);
    }
    // With room for the whole group, both go out together.
    let sent = select_interests(&mut queue, &demands, &estimates, 1000);
    assert_eq!(sent, vec![Interest::new(1, a), Interest::new(1, b)]);
}

#[test]
fn packing_skips_what_does_not_fit_while_slack_remains() {
    let (a, b, c) = (ReplicateId(1), ReplicateId(2), ReplicateId(3));
    let mut estimates = ReplicateSizeEstimates::new();
    estimates.add(a, 1000);
    estimates.add(b, 800);
    estimates.add(c, 300);
    let demands = ReplicateDemands::new();
    let mut queue = InterestQueue::new();
    for k in [a, b, c] {
        queue.push_back(Interest::new(5, k));
    }
    let sent = select_interests(&mut queue, &demands, &estimates, 1500);
    assert_eq!(sent, vec![Interest::new(5, a), Interest::new(5, c)]);
    assert_eq!(queue.as_slice(), &[Interest::new(5, b)]);
}

#[test]
fn packing_stops_when_the_message_is_nearly_full() {
    let (a, b, c) = (ReplicateId(1), ReplicateId(2), ReplicateId(3));
    let mut estimates = ReplicateSizeEstimates::new();
    estimates.add(a, 1480);
    estimates.add(b, 100);
    estimates.add(c, 10);
    let demands = ReplicateDemands::new();
    let mut queue = InterestQueue::new();
    for k in [a, b, c] {
        queue.push_back(Interest::new(5, k));
    }
    let sent = select_interests(&mut queue, &demands, &estimates, 1500);
    // 20 bytes of slack: B does not fit and the walk stops before C.
    assert_eq!(sent, vec![Interest::new(5, a)]);
    assert_eq!(queue.as_slice(), &[Interest::new(5, b), Interest::new(5, c)]);
}

#[test]
fn size_estimate_defaults_to_128() {
    let mut estimates = ReplicateSizeEstimates::new();
    assert_eq!(estimates.get(&ReplicateId(9)), 128);
    estimates.add(ReplicateId(9), 17);
    assert_eq!(estimates.get(&ReplicateId(9)), 17);
}

#[test]
fn group_lists_the_kind_then_its_requirements() {
    let mut demands = ReplicateDemands::new();
    demands.require_together(ReplicateId(1), ReplicateId(2));
    demands.require_dependency(ReplicateId(1), ReplicateId(3));
    assert_eq!(demands.group_of(ReplicateId(1)), vec![ReplicateId(1), ReplicateId(2), ReplicateId(3)]);
    assert_eq!(demands.group_of(ReplicateId(2)), vec![ReplicateId(2), ReplicateId(1)]);
    assert_eq!(demands.group_of(ReplicateId(4)), vec![ReplicateId(4)]);
}

fn ledger_ticks(unacked: &ClientUnackedInterests, client: u64) -> Vec<u64> {
    unacked.clients.get(client).map(|u| u.unacked.keys()).unwrap_or_default()
}

fn ledger_at(unacked: &ClientUnackedInterests, client: u64, tick: u64) -> Vec<Interest> {
    unacked
        .clients
        .get(client)
        .and_then(|u| u.unacked.get(tick).cloned())
        .unwrap_or_default()
}

#[test]
fn baseload_on_connect() {
    let k = ReplicateId(4);
    let client = 9u64;
    let entities = vec![11u64, 12, 13];
    let mut baseload = Baseload::new();
    baseload.mark(client);
    let mut queues = ClientInterestQueues::new();
    baseload_components(&baseload, &mut queues, &entities, k);
    baseload.clear_baseloads();
    assert_eq!(queued(&queues, client).len(), 3);

    let demands = ReplicateDemands::new();
    let estimates = ReplicateSizeEstimates::new();
    let mut to_send = InterestsToSend::new();
    let mut unacked = ClientUnackedInterests::new();
    queue_interests(NetworkTick::new(100), &mut queues, &demands, &estimates, 1500, &mut to_send, &mut unacked);
    assert!(queued(&queues, client).is_empty());
    let sent = to_send.get(client).unwrap().clone();
    assert_eq!(sent, vec![interest(11, 4), interest(12, 4), interest(13, 4)]);
    assert_eq!(ledger_ticks(&unacked, client), vec![100]);
    assert_eq!(ledger_at(&unacked, client, 100).len(), 3);

    // The flag is one-shot: the next sweep adds nothing.
    baseload_components(&baseload, &mut queues, &entities, k);
    assert!(queued(&queues, client).is_empty());
}

#[test]
fn resend() {
    let client = 9u64;
    let mut queues = ClientInterestQueues::new();
    for e in [11u64, 12, 13] {
        queues.push_back(client, interest(e, 4));
    }
    let demands = ReplicateDemands::new();
    let estimates = ReplicateSizeEstimates::new();
    let mut to_send = InterestsToSend::new();
    let mut unacked = ClientUnackedInterests::new();
    queue_interests(NetworkTick::new(100), &mut queues, &demands, &estimates, 1500, &mut to_send, &mut unacked);
    // The message of tick 100 is lost: at tick 101 everything comes back to the front.
    queues.push_back(client, interest(20, 5));
    unacked.resend_unacked(NetworkTick::new(101), &mut queues);
    let q = queued(&queues, client);
    assert_eq!(q.len(), 4);
    let mut front = q[..3].to_vec();
    front.sort_by_key(|i| i.entity);
    assert_eq!(front, vec![interest(11, 4), interest(12, 4), interest(13, 4)]);
    assert_eq!(q[3], interest(20, 5));
    assert!(ledger_ticks(&unacked, client).is_empty());
    queue_interests(NetworkTick::new(101), &mut queues, &demands, &estimates, 1500, &mut to_send, &mut unacked);
    assert_eq!(to_send.get(client).unwrap().len(), 4);
    assert_eq!(ledger_ticks(&unacked, client), vec![101]);
}

#[test]
fn resend_skips_entries_past_the_horizon() {
    let mut ledger = UnackedInterests::new();
    ledger.record(NetworkTick::new(10), vec![interest(1, 1)]);
    ledger.record(NetworkTick::new(50), vec![interest(2, 1), interest(3, 1)]);
    ledger.record(NetworkTick::new(60), vec![interest(4, 1)]);
    let mut queue = InterestQueue::new();
    queue.push_back(interest(9, 9));
    ledger.resend_unacked(NetworkTick::new(60), &mut queue);
    // Oldest tick first, each pushed to the front in turn; tick 10 is past the horizon and
    // is dropped without going back to the queue.
    assert_eq!(
        queue.as_slice(),
        &[interest(4, 1), interest(3, 1), interest(2, 1), interest(9, 9)]
    );
    assert!(ledger.unacked.keys().is_empty());
}

#[test]
fn ack_clears_the_ledger_entry() {
    let mut unacked = ClientUnackedInterests::new();
    unacked.record(3, NetworkTick::new(100), vec![interest(1, 1)]);
    unacked.record(3, NetworkTick::new(100), vec![interest(2, 1)]);
    assert_eq!(ledger_at(&unacked, 3, 100), vec![interest(1, 1), interest(2, 1)]);
    unacked.ack(3, &NetworkTick::new(100));
    assert!(ledger_ticks(&unacked, 3).is_empty());
    unacked.ack(4, &NetworkTick::new(100));
    assert!(unacked.clients.get(4).is_none());
}

#[test]
fn unacknowledged_interest_is_never_lost() {
    let client = 1u64;
    let x = interest(42, 2);
    let mut queues = ClientInterestQueues::new();
    queues.entry(client);
    component_changes(&mut queues, &vec![42], ReplicateId(2));
    let demands = ReplicateDemands::new();
    let mut estimates = ReplicateSizeEstimates::new();
    let mut to_send = InterestsToSend::new();
    let mut unacked = ClientUnackedInterests::new();
    for tick in 100..132u64 {
        // Some ticks have no room at all.
        let max = if tick % 3 == 0 { 10 } else { 1500 };
        estimates.add(ReplicateId(2), 128);
        unacked.resend_unacked(NetworkTick::new(tick), &mut queues);
        queue_interests(NetworkTick::new(tick), &mut queues, &demands, &estimates, max, &mut to_send, &mut unacked);
        let in_queue = queued(&queues, client).contains(&x);
        let in_ledger = ledger_ticks(&unacked, client)
            .into_iter()
            .any(|t| ledger_at(&unacked, client, t).contains(&x));
        assert!(in_queue || in_ledger, "lost at tick {}", tick);
    }
}

#[test]
fn component_changes_reach_every_client_once() {
    let mut queues = ClientInterestQueues::new();
    queues.entry(1);
    queues.entry(2);
    component_changes(&mut queues, &vec![7, 8, 7], ReplicateId(3));
    component_changes(&mut queues, &vec![8], ReplicateId(3));
    for c in [1u64, 2] {
        assert_eq!(queued(&queues, c), vec![interest(7, 3), interest(8, 3)]);
    }
}
