use sabi::client::ServerEntities;
use sabi::codec::{frame_input, frame_update, open_message, within_ceiling, MESSAGE_CEILING};
use sabi::demands::ReplicateSizeEstimates;
use sabi::error::SabiError;
use sabi::input::InputDeviation;
use sabi::interest::{Interest, InterestsToSend};
use sabi::message_sample::{decimal_string, dict_dir_path, dict_file_path, file_name, sample_dir_path};
use sabi::ordered_map::OrderedMap;
use sabi::protocol::{protocol_id, ClientChannel, ServerChannel};
use sabi::replicate::{ReplicateId, ReplicateTypes};
use sabi::tick::NetworkTick;
use sabi::update::{
    client_frame_buffer, earliest_rewind, server_queue_interest, time_dilation, ClientEntityUpdates,
    ComponentsUpdate, Dilation, EntityUpdate, ServerEntity, UpdateMessage, UpdateMessages,
};

fn message(tick: u64, entity: u64, kind: u16, bytes: &[u8]) -> UpdateMessage {
    let mut entity_update = EntityUpdate::new();
    entity_update.insert(entity, ReplicateId(kind), bytes.to_vec());
    UpdateMessage {
        tick: NetworkTick::new(tick),
        input_deviation: InputDeviation { mean: 0, deviation: 0 },
        entity_update,
        component_despawn: Vec::new(),
        entity_despawn: Vec::new(),
    }
}

#[test]
fn compression_round_trips() {
    let data: Vec<u8> = (0..2000u32).map(|i| (i % 7) as u8).collect();
    let framed = frame_update(&data).unwrap();
    assert_ne!(framed, data);
    assert!(framed.len() < MESSAGE_CEILING);
    assert_eq!(open_message(&framed).unwrap(), data);
    let input = frame_input(&data);
    assert_eq!(open_message(&input).unwrap(), data);
}

#[test]
fn garbage_does_not_open() {
    assert!(open_message(&[1, 2, 3, 4, 5]).is_none());
}

#[test]
fn oversize_update_is_dropped() {
    let mut x: u64 = 0x9E37_79B9_7F4A_7C15;
    let noise: Vec<u8> = (0..8000)
        .map(|_| {
            x ^= x << 13;
            x ^= x >> 7;
            x ^= x << 17;
            (x & 0xff) as u8
        })
        .collect();
    assert!(frame_update(&noise).is_none());
    assert_eq!(within_ceiling(vec![0; 2999]).map(|v| v.len()), Some(2999));
    assert!(within_ceiling(vec![0; 3000]).is_none());
}

#[test]
fn sample_paths() {
    assert_eq!(dict_dir_path(), "./dictionary/");
    assert_eq!(dict_file_path("update"), "./dictionary/update.dict");
    assert_eq!(sample_dir_path("input"), "./messages/input/");
}

#[test]
fn sample_file_name_is_a_decimal_hash() {
    let a = file_name(&[1, 2, 3]);
    let b = file_name(&[1, 2, 4]);
    assert!(a.ends_with(".sample"));
    let digits = &a[..a.len() - ".sample".len()];
    assert!(!digits.is_empty() && digits.chars().all(|c| c.is_ascii_digit()));
    assert_ne!(a, b);
    assert_eq!(a, file_name(&[1, 2, 3]));
}

#[test]
fn decimal_formatting() {
    assert_eq!(decimal_string(0), "0");
    assert_eq!(decimal_string(42069), "42069");
    assert_eq!(decimal_string(u64::MAX), u64::MAX.to_string());
}

#[test]
fn protocol_id_is_stable() {
    assert_eq!(protocol_id(), protocol_id());
    assert_ne!(protocol_id(), 0);
    assert_eq!(ServerChannel::Message.id(), 0);
    assert_eq!(ServerChannel::EntityUpdate.id(), 1);
    assert_eq!(ClientChannel::Input.id(), 0);
}

#[test]
fn error_message() {
    assert_eq!(SabiError::NoSocketAddr.message(), "no socket addr found");
}

#[test]
fn registry_allocates_next_free_id() {
    let mut types = ReplicateTypes::new();
    assert_eq!(types.next_id(), Some(1));
    assert_eq!(types.id_for("Transform".to_string()), Some(ReplicateId(1)));
    assert_eq!(types.id_for("Name".to_string()), Some(ReplicateId(2)));
    assert_eq!(types.id_for("Transform".to_string()), Some(ReplicateId(1)));
    assert_eq!(types.from_id(2), Some("Name".to_string()));
    assert_eq!(types.from_id(3), None);
    assert!(!types.insert("Name".to_string(), 9));
    assert_eq!(types.id_of(&"Name".to_string()), Some(2));
    assert!(types.insert("Max".to_string(), u16::MAX));
    assert_eq!(types.next_id(), None);
    assert_eq!(types.id_for("New".to_string()), None);
}

#[test]
fn identity_map_resolves_spawns_and_cleans() {
    let mut map = ServerEntities::new();
    let e = ServerEntity(5, 1);
    assert!(map.needs_spawn(e));
    assert_eq!(map.spawn_or_get(e, 900), 900);
    assert_eq!(map.spawn_or_get(e, 901), 900);
    assert_eq!(map.get(e), Some(900));
    map.spawn_or_get(ServerEntity(6, 0), 902);
    assert!(map.clean(&vec![900]));
    assert_eq!(map.get(ServerEntity(6, 0)), None);
    assert!(!map.clean(&vec![900]));
    let mut gone = map.disconnect();
    gone.sort();
    assert_eq!(gone, vec![900]);
    assert_eq!(map.get(e), None);
}

#[test]
fn server_entity_stable_id() {
    let e = ServerEntity::from_entity((3u64 << 32) | 17);
    assert_eq!(e, ServerEntity(17, 3));
    assert_eq!(e.stable_id(), (3u64 << 32) | 17);
}

#[test]
fn updates_for_one_tick_merge() {
    let mut messages = UpdateMessages::new();
    messages.push(message(10, 1, 1, &[1]));
    messages.push(message(10, 1, 2, &[2]));
    messages.push(message(10, 2, 1, &[3]));
    messages.push(message(10, 1, 1, &[4]));
    let m = messages.get(&NetworkTick::new(10)).unwrap();
    let c1 = m.entity_update.get(&ServerEntity(1, 0)).unwrap();
    assert_eq!(c1.get(&ReplicateId(1)), Some(&vec![4]));
    assert_eq!(c1.get(&ReplicateId(2)), Some(&vec![2]));
    assert_eq!(m.entity_update.len(), 2);
    assert_eq!(messages.latest(), Some(NetworkTick::new(10)));
}

#[test]
fn old_updates_are_dropped() {
    let mut messages = UpdateMessages::new();
    for t in [1u64, 5, 40, 41] {
        messages.push(message(t, 1, 1, &[t as u8]));
    }
    messages.retain();
    assert!(messages.get(&NetworkTick::new(5)).is_none());
    assert!(messages.get(&NetworkTick::new(40)).is_some());
    assert_eq!(messages.messages.keys(), vec![40, 41]);
}

#[test]
fn components_update_apply_prefers_newer() {
    let mut a = ComponentsUpdate::new();
    a.insert(ReplicateId(1), vec![1]);
    a.insert(ReplicateId(2), vec![2]);
    let mut b = ComponentsUpdate::new();
    b.insert(ReplicateId(2), vec![9]);
    a.apply(b);
    assert_eq!(a.get(&ReplicateId(1)), Some(&vec![1]));
    assert_eq!(a.get(&ReplicateId(2)), Some(&vec![9]));
}

#[test]
fn frame_buffer_and_dilation() {
    let step = 31_250_000u64;
    let fb = client_frame_buffer(step, 100_000_000, 5_000_000);
    assert_eq!(fb, 50_000_000 + 10_000_000 + 93_750_000);
    assert_eq!(time_dilation(NetworkTick::new(110), NetworkTick::new(100), step, fb), Dilation::Decelerate);
    assert_eq!(time_dilation(NetworkTick::new(101), NetworkTick::new(100), step, fb), Dilation::Accelerate);
    assert_eq!(time_dilation(NetworkTick::new(90), NetworkTick::new(100), step, fb), Dilation::Accelerate);
    assert_eq!(time_dilation(NetworkTick::new(102), NetworkTick::new(100), step, 2 * step), Dilation::Hold);
}

#[test]
fn rewind_goes_to_the_oldest_update() {
    let r = earliest_rewind(None, NetworkTick::new(50));
    let r = earliest_rewind(r, NetworkTick::new(47));
    let r = earliest_rewind(r, NetworkTick::new(49));
    assert_eq!(r, Some(NetworkTick::new(47)));
}

#[test]
fn chosen_interests_are_serialized_per_client() {
    let k = ReplicateId(4);
    let mut to_send = InterestsToSend::new();
    to_send.push(1, Interest::new(11, k));
    to_send.push(1, Interest::new(12, ReplicateId(5)));
    to_send.push(2, Interest::new(12, k));
    to_send.push(2, Interest::new(13, k));
    let mut values = OrderedMap::new();
    values.insert(11, vec![1u8, 1]);
    values.insert(12, vec![2u8, 2, 2]);
    let mut estimates = ReplicateSizeEstimates::new();
    let mut updates = ClientEntityUpdates::new();
    server_queue_interest(&mut estimates, &mut updates, &to_send, k, &values);
    let u1 = updates.get(1).unwrap();
    assert_eq!(u1.len(), 1);
    assert_eq!(u1.get(&ServerEntity(11, 0)).unwrap().get(&k), Some(&vec![1, 1]));
    let u2 = updates.get(2).unwrap();
    assert_eq!(u2.len(), 1);
    assert_eq!(u2.get(&ServerEntity(12, 0)).unwrap().get(&k), Some(&vec![2, 2, 2]));
    // 2 bytes then 3 bytes: the estimate moves halfway, to 2.
    assert_eq!(estimates.get(&k), 2);
    updates.clear();
    assert_eq!(updates.get(1).unwrap().len(), 0);
}

#[test]
fn registry_writes_its_table() {
    let mut types = ReplicateTypes::new();
    types.id_for("bevy_transform::Transform".to_string());
    types.id_for("bevy_core::Name".to_string());
    assert_eq!(
        types.to_toml(),
        "[replicate]\n\"bevy_transform::Transform\" = 1\n\"bevy_core::Name\" = 2\n"
    );
    let all = sabi::replicate::Types { replicate: types };
    assert!(all.to_toml().ends_with("= 2\n\n"));
}
