use sabi::input::{server_apply_input, ClientQueuedInputs, Lobby, QueuedInputs};
use sabi::session::{choose_role, on_disconnect, DisconnectAction, PreviousRenetError, Role};
use sabi::tick::NetworkTick;

#[test]
fn repeated_errors_are_reported_once() {
    let mut previous = PreviousRenetError::new();
    assert!(previous.report("timeout".to_string()));
    assert!(!previous.report("timeout".to_string()));
    assert!(previous.report("refused".to_string()));
    assert!(previous.report("timeout".to_string()));
}

#[test]
fn role_from_markers() {
    assert_eq!(choose_role(true, false, true), Some(Role::Client));
    assert_eq!(choose_role(false, true, false), Some(Role::Client));
    assert_eq!(choose_role(false, false, true), Some(Role::Server));
    assert_eq!(choose_role(false, true, true), None);
    assert_eq!(choose_role(false, false, false), None);
}

#[test]
fn disconnect_reactions() {
    assert_eq!(on_disconnect(true, Some(true), false, true), DisconnectAction::Keep);
    assert_eq!(on_disconnect(false, Some(true), false, true), DisconnectAction::DropClient);
    assert_eq!(on_disconnect(false, Some(false), false, true), DisconnectAction::Keep);
    assert_eq!(on_disconnect(false, None, false, true), DisconnectAction::DropTick);
    assert_eq!(on_disconnect(false, None, true, true), DisconnectAction::Keep);
}

#[test]
fn inputs_reach_the_players_that_sent_them() {
    let mut lobby = Lobby::new();
    lobby.players.insert(1, 100);
    lobby.players.insert(2, 200);
    lobby.players.insert(3, 300);
    let mut inputs = ClientQueuedInputs::new();
    let mut q1 = QueuedInputs::new();
    q1.upsert(NetworkTick::new(7), 'a');
    inputs.upsert(1, q1);
    let mut q3 = QueuedInputs::new();
    q3.upsert(NetworkTick::new(7), 'c');
    q3.upsert(NetworkTick::new(8), 'd');
    inputs.upsert(3, q3);
    assert_eq!(server_apply_input(&lobby, &inputs, NetworkTick::new(7)), vec![(1, 100), (3, 300)]);
    assert_eq!(server_apply_input(&lobby, &inputs, NetworkTick::new(8)), vec![(3, 300)]);
    assert!(server_apply_input(&lobby, &inputs, NetworkTick::new(9)).is_empty());
}
