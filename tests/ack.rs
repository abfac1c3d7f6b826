use sabi::ack::{ClientAcks, NetworkAck};
use sabi::tick::NetworkTick;

#[test]
pub fn ack() {
    let ticks = (0..=20u64)
        .map(|num| NetworkTick::new(num))
        .collect::<Vec<_>>();

    let current_tick = NetworkTick::new(21);

    let mut ack = NetworkAck::new(current_tick);
    for tick in ticks {
        ack.ack(&tick);
    }
    println!("{:b}", ack.ack);
}

#[test]
pub fn apply_ack() {
    let ticks = (0..=20u64)
        .map(|num| NetworkTick::new(num))
        .collect::<Vec<_>>();

    let current_tick = NetworkTick::new(21);
    let mut ack = NetworkAck::new(current_tick);

    let other_tick = NetworkTick::new(11);
    let mut other_ack = NetworkAck::new(other_tick);
    for tick in ticks {
        other_ack.ack(&tick);
    }

    ack.apply_ack(&other_ack);
    println!("{:b}", ack.ack);
}

#[test]
pub fn set_base() {
    let ticks = (0..=20u64)
        .map(|num| NetworkTick::new(num))
        .collect::<Vec<_>>();

    let current_tick = NetworkTick::new(21);

    let mut ack = NetworkAck::new(current_tick);
    for tick in &ticks[2..] {
        ack.ack(&tick);
    }

    let unacked = ack.set_base(NetworkTick::new(35));
    assert_eq!(unacked.as_slice(), &ticks[..2]);
    let unacked = ack.set_base(NetworkTick::new(65));

    let extended_unacked = (21..=32)
        .map(|num| NetworkTick::new(num))
        .collect::<Vec<_>>();
    assert_eq!(unacked.as_slice(), extended_unacked.as_slice());
}

#[test]
fn ack_marks_bits_of_the_window() {
    let mut ack = NetworkAck::new(NetworkTick::new(21));
    for t in 0..=20u64 {
        ack.ack(&NetworkTick::new(t));
    }
    // Ticks 0..=20 are bits 20..=0.
    assert_eq!(ack.ack, 0b1_1111_1111_1111_1111_1111);
    assert_eq!(ack.base(), NetworkTick::new(21));
}

#[test]
fn ack_round_trip_marks_exactly_the_window() {
    let b = 100u64;
    for t in 0..=120u64 {
        let mut ack = NetworkAck::new(NetworkTick::new(b));
        ack.ack(&NetworkTick::new(t));
        let in_window = t < b && b - 1 - t < 32;
        assert_eq!(ack.acked(&NetworkTick::new(t)), in_window, "tick {}", t);
    }
}

#[test]
fn ack_ignores_ticks_outside_the_window() {
    let mut ack = NetworkAck::new(NetworkTick::new(40));
    ack.ack(&NetworkTick::new(40));
    ack.ack(&NetworkTick::new(7));
    assert_eq!(ack.ack, 0);
    ack.ack(&NetworkTick::new(8));
    assert_eq!(ack.ack, 1 << 31);
}

#[test]
fn apply_ack_shifts_older_acks() {
    let mut ack = NetworkAck::new(NetworkTick::new(21));
    let mut other = NetworkAck::new(NetworkTick::new(11));
    other.ack(&NetworkTick::new(10));
    other.ack(&NetworkTick::new(0));
    ack.apply_ack(&other);
    assert!(ack.acked(&NetworkTick::new(10)));
    assert!(ack.acked(&NetworkTick::new(0)));
    assert!(!ack.acked(&NetworkTick::new(5)));
    assert_eq!(ack.ack, (1 << 10) | (1 << 20));
}

#[test]
fn apply_ack_with_equal_base_merges_bits() {
    let mut ack = NetworkAck::new(NetworkTick::new(50));
    ack.ack(&NetworkTick::new(49));
    let mut other = NetworkAck::new(NetworkTick::new(50));
    other.ack(&NetworkTick::new(48));
    ack.apply_ack(&other);
    assert_eq!(ack.ack, 0b11);
}

#[test]
fn apply_ack_from_newer_base_is_ignored() {
    let mut ack = NetworkAck::new(NetworkTick::new(10));
    let mut other = NetworkAck::new(NetworkTick::new(20));
    other.ack(&NetworkTick::new(9));
    ack.apply_ack(&other);
    assert_eq!(ack.ack, 0);
}

#[test]
fn set_base_reports_each_tick_once_and_never_acked_ones() {
    let mut ack = NetworkAck::new(NetworkTick::new(64));
    for t in (32..64u64).step_by(2) {
        ack.ack(&NetworkTick::new(t));
    }
    let mut reported = Vec::new();
    for base in [70u64, 80, 90, 100] {
        let before = ack;
        let r = ack.set_base(NetworkTick::new(base));
        for t in &r {
            assert!(t.0 < base);
            assert!(!before.acked(t));
        }
        reported.extend(r);
    }
    let mut sorted = reported.clone();
    sorted.sort();
    sorted.dedup();
    assert_eq!(sorted.len(), reported.len());
    // Everything odd from 33 to 67 fell out unacknowledged, in order.
    let expected: Vec<NetworkTick> = (33..64u64).step_by(2).chain(64..68u64).map(NetworkTick::new).collect();
    assert_eq!(reported, expected);
}

#[test]
fn set_base_backwards_reports_nothing() {
    let mut ack = NetworkAck::new(NetworkTick::new(50));
    ack.ack(&NetworkTick::new(45));
    let r = ack.set_base(NetworkTick::new(40));
    assert!(r.is_empty());
    assert_eq!(ack.base(), NetworkTick::new(40));
    assert_eq!(ack.bits(), 1 << 4);
}

#[test]
fn set_base_past_a_whole_window() {
    // The client acks tick 100 with base 101.
    let mut client = NetworkAck::new(NetworkTick::new(101));
    client.ack(&NetworkTick::new(100));
    assert_eq!(client.ack, 1);
    // 33 ticks pass without further acks: the old window and the ticks
    // `[base + 32, new_base)` are reported, tick 100 is not.
    let r = client.set_base(NetworkTick::new(134));
    let expected: Vec<NetworkTick> = (69..=99u64).chain(133..134).map(NetworkTick::new).collect();
    assert_eq!(r, expected);
    assert!(!r.contains(&NetworkTick::new(100)));
    assert_eq!(client.ack, 0);
}

#[test]
fn client_acks_merge_per_client() {
    let mut acks = ClientAcks::new();
    let mut first = NetworkAck::new(NetworkTick::new(30));
    first.ack(&NetworkTick::new(29));
    acks.apply_ack(7, &first);
    assert_eq!(acks.get(7).unwrap().ack, 1);
    let mut second = NetworkAck::new(NetworkTick::new(28));
    second.ack(&NetworkTick::new(20));
    acks.apply_ack(7, &second);
    assert_eq!(acks.get(7).unwrap().ack, 1 | (1 << 9));
    assert!(acks.get(8).is_none());
}
