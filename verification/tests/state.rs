use ellidri::config;
use ellidri::state::{casefold, RegistrationState, State, StateError};

fn fresh() -> State {
    State::new(config::State::sample())
}

#[test]
fn test_casefold() {
    assert_eq!(casefold("NickName"), "nickname");
    assert_eq!(casefold("#Chan42"), "#chan42");
    assert_eq!(casefold("already"), "already");
}

#[test]
fn test_peer_joined_and_nickname() {
    let mut s = fresh();
    let a = s.peer_joined("127.0.0.1:1000");
    let b = s.peer_joined("127.0.0.1:1001");
    assert_ne!(a, b);
    assert_eq!(s.set_nickname(a, "Alice"), Ok(()));
    // Nickname uniqueness is case-folded.
    assert_eq!(s.set_nickname(b, "ALICE"), Err(StateError::NicknameInUse));
    assert_eq!(s.set_nickname(b, "bob"), Ok(()));
    // A peer may change the case of its own nickname.
    assert_eq!(s.set_nickname(a, "ALICE"), Ok(()));
    assert_eq!(s.set_nickname(999, "carol"), Err(StateError::UnknownPeer));
}

#[test]
fn test_join_creates_channel_with_default_modes() {
    let mut s = fresh();
    let a = s.peer_joined("addr");
    assert_eq!(s.join(a, "#Hall"), Ok(()));
    assert_eq!(s.channels.len(), 1);
    assert_eq!(s.channels[0].0, "#hall");
    // Sample default mode is "+nt".
    assert!(s.channels[0].1.no_msg_from_outside);
    assert!(s.channels[0].1.topic_restricted);
    // First joiner is operator.
    assert!(s.channels[0].1.members[0].1.operator);
    assert_eq!(s.join(999, "#hall"), Err(StateError::UnknownPeer));
}

#[test]
fn test_part_drops_empty_channel() {
    let mut s = fresh();
    let a = s.peer_joined("addr");
    let b = s.peer_joined("addr2");
    s.join(a, "#c").unwrap();
    s.join(b, "#c").unwrap();
    assert_eq!(s.part(a, "#nope"), Err(StateError::UnknownChannel));
    assert_eq!(s.part(a, "#c"), Ok(()));
    assert_eq!(s.channels.len(), 1);
    assert_eq!(s.part(a, "#c"), Err(StateError::NotOnChannel));
    assert_eq!(s.part(b, "#c"), Ok(()));
    // The channel emptied, so it is gone.
    assert_eq!(s.channels.len(), 0);
}

#[test]
fn test_peer_quit_removes_everywhere() {
    let mut s = fresh();
    let a = s.peer_joined("addr");
    let b = s.peer_joined("addr2");
    s.set_nickname(a, "alice").unwrap();
    s.set_nickname(b, "bob").unwrap();
    s.join(a, "#one").unwrap();
    s.join(b, "#one").unwrap();
    s.join(a, "#two").unwrap();
    s.peer_quit(a);
    assert_eq!(s.peers.len(), 1);
    assert_eq!(s.nicks.len(), 1);
    assert_eq!(s.nicks[0].0, "bob");
    // "#two" emptied and is gone; "#one" kept bob.
    assert_eq!(s.channels.len(), 1);
    assert_eq!(s.channels[0].0, "#one");
    assert_eq!(s.channels[0].1.members.len(), 1);
    assert_eq!(s.channels[0].1.members[0].0, b);
    // Quitting twice changes nothing.
    s.peer_quit(a);
    assert_eq!(s.peers.len(), 1);
}

#[test]
fn test_login_timeout_removes_unregistered_peer() {
    let mut s = fresh();
    let a = s.peer_joined("addr");
    // The timer fires at login_timeout while the peer is still unregistered.
    s.remove_if_unregistered(a);
    assert_eq!(s.peers.len(), 0);
}

#[test]
fn test_login_timeout_spares_registered_peer() {
    let mut s = fresh();
    let a = s.peer_joined("addr");
    s.peers[0].1.status = RegistrationState::Registered;
    s.remove_if_unregistered(a);
    assert_eq!(s.peers.len(), 1);
    assert_eq!(s.peers[0].0, a);
}
