use ellidri::buffers::Buffer;
use ellidri::channel::{Channel, MemberModes, ModeError};
use ellidri::modes::{is_channel_mode_string, simple_channel_query, ChannelChange};

fn operator_member() -> MemberModes {
    MemberModes {
        founder: false,
        protected: false,
        operator: true,
        halfop: true,
        voice: false,
    }
}

fn halfop_member() -> MemberModes {
    MemberModes {
        founder: false,
        protected: false,
        operator: false,
        halfop: true,
        voice: false,
    }
}

fn voice_member() -> MemberModes {
    MemberModes {
        founder: false,
        protected: false,
        operator: false,
        halfop: false,
        voice: true,
    }
}

#[test]
fn test_member_modes_is_at_least() {
    assert!(operator_member().has_voice());
    assert!(operator_member().is_at_least_halfop());
    assert!(operator_member().is_at_least_op());
    assert!(halfop_member().has_voice());
    assert!(halfop_member().is_at_least_halfop());
    assert!(!halfop_member().is_at_least_op());
    assert!(voice_member().has_voice());
    assert!(!voice_member().is_at_least_halfop());
    assert!(!voice_member().is_at_least_op());
}

#[test]
fn test_member_modes_symbols() {
    assert_eq!(operator_member().symbol(), Some('@'));
    assert_eq!(halfop_member().symbol(), Some('%'));
    assert_eq!(voice_member().symbol(), Some('+'));
    assert_eq!(MemberModes::default().symbol(), None);
    let mut out = String::new();
    operator_member().all_symbols(&mut out);
    assert_eq!(&out, "@%");
}

#[test]
fn test_channel_new_parses_simple_modes() {
    let c = Channel::new("+nt");
    assert!(c.no_msg_from_outside);
    assert!(c.topic_restricted);
    assert!(!c.invite_only);
    assert!(!c.moderated);
    assert!(!c.secret);
    let c = Channel::new("+i-i+s");
    assert!(!c.invite_only);
    assert!(c.secret);
}

#[test]
fn test_channel_mode_string() {
    assert!(is_channel_mode_string("+nt"));
    assert!(is_channel_mode_string("-i+mst"));
    assert!(!is_channel_mode_string(""));
    assert!(!is_channel_mode_string("+ntx"));
}

#[test]
fn test_first_joiner_is_operator() {
    let mut c = Channel::new("+nt");
    c.add_member(1);
    c.add_member(2);
    assert!(c.members[0].1.operator);
    assert!(!c.members[1].1.operator);
    // Joining again never overwrites the membership.
    c.add_member(2);
    assert_eq!(c.members.len(), 2);
}

#[test]
fn test_can_talk() {
    let mut c = Channel::new("+n");
    c.add_member(1);
    assert!(c.can_talk(1));
    assert!(!c.can_talk(9));
    let mut m = Channel::new("+m");
    m.add_member(1);
    m.add_member(2);
    assert!(m.can_talk(1)); // first joiner is operator
    assert!(!m.can_talk(2)); // moderated, no voice
}

#[test]
fn test_can_invite() {
    let mut c = Channel::new("+i");
    c.add_member(1);
    c.add_member(2);
    assert!(c.can_invite(1));
    assert!(!c.can_invite(2));
    assert!(!c.can_invite(9));
}

#[test]
fn test_is_banned_and_invited() {
    let mut c = Channel::new("+i");
    let nicks: Vec<(usize, String)> = Vec::new();
    c.apply_mode_change(&ChannelChange::ChangeBan(true, "bad*".into()), 24, &nicks)
        .unwrap();
    assert!(c.is_banned("badguy"));
    assert!(!c.is_banned("goodguy"));
    c.apply_mode_change(
        &ChannelChange::ChangeException(true, "badbut*".into()),
        24,
        &nicks,
    )
    .unwrap();
    assert!(!c.is_banned("badbutnice"));
    assert!(!c.is_invited("someone"));
    c.apply_mode_change(
        &ChannelChange::ChangeInvitation(true, "someone".into()),
        24,
        &nicks,
    )
    .unwrap();
    assert!(c.is_invited("someone"));
}

#[test]
fn test_mode_change_without_privilege() {
    let mut c = Channel::new("+nt");
    c.add_member(1);
    c.add_member(2);
    // Peer 2 has voice only.
    let nicks: Vec<(usize, String)> = vec![(1, "op".to_string()), (2, "v".to_string())];
    c.apply_mode_change(&ChannelChange::ChangeVoice(true, "v".into()), 24, &nicks)
        .unwrap();
    let actor = c.members[1].1;
    let changes = simple_channel_query("+i");
    assert!(!actor.can_change(&changes));
    // The dispatcher refuses the change, so the flag stays off.
    assert!(!c.invite_only);
    // The refusal a peer sees on the wire:
    let reply = Buffer::new()
        .message("ellidri.dev", "482")
        .param("v")
        .param("#c")
        .trailing_param("You're not a channel operator")
        .build();
    assert_eq!(&reply, ":ellidri.dev 482 v #c :You're not a channel operator\r\n");
}

#[test]
fn test_key_set_twice() {
    let mut c = Channel::new("+nt");
    c.add_member(1);
    let nicks: Vec<(usize, String)> = Vec::new();
    assert_eq!(
        c.apply_mode_change(&ChannelChange::Key(true, "secret".into()), 24, &nicks),
        Ok(true)
    );
    let r = c.apply_mode_change(&ChannelChange::Key(true, "other".into()), 24, &nicks);
    assert_eq!(r, Err(ModeError::KeySet));
    assert_eq!(ModeError::KeySet.numeric(), "467");
    assert_eq!(c.key.as_deref(), Some("secret"));
}

#[test]
fn test_key_truncated_to_keylen() {
    let mut c = Channel::new("");
    let nicks: Vec<(usize, String)> = Vec::new();
    c.apply_mode_change(&ChannelChange::Key(true, "longpassword".into()), 4, &nicks)
        .unwrap();
    assert_eq!(c.key.as_deref(), Some("long"));
}

#[test]
fn test_user_limit_parse() {
    let mut c = Channel::new("");
    let nicks: Vec<(usize, String)> = Vec::new();
    assert_eq!(
        c.apply_mode_change(&ChannelChange::UserLimit(Some("42".into())), 24, &nicks),
        Ok(true)
    );
    assert_eq!(c.user_limit, Some(42));
    // A limit that does not parse is silently ignored.
    assert_eq!(
        c.apply_mode_change(&ChannelChange::UserLimit(Some("nope".into())), 24, &nicks),
        Ok(false)
    );
    assert_eq!(c.user_limit, Some(42));
    assert_eq!(
        c.apply_mode_change(&ChannelChange::UserLimit(None), 24, &nicks),
        Ok(true)
    );
    assert_eq!(c.user_limit, None);
    // A leading plus sign is accepted, as a decimal parse.
    assert_eq!(
        c.apply_mode_change(&ChannelChange::UserLimit(Some("+5".into())), 24, &nicks),
        Ok(true)
    );
    assert_eq!(c.user_limit, Some(5));
}

#[test]
fn test_rank_change_unknown_nick() {
    let mut c = Channel::new("");
    c.add_member(1);
    let nicks: Vec<(usize, String)> = vec![(1, "alice".to_string())];
    let r = c.apply_mode_change(&ChannelChange::ChangeOperator(true, "bob".into()), 24, &nicks);
    assert_eq!(r, Err(ModeError::UserNotInChannel));
    assert_eq!(ModeError::UserNotInChannel.numeric(), "441");
}

#[test]
fn test_mode_change_and_inverse() {
    let mut c = Channel::new("");
    let nicks: Vec<(usize, String)> = Vec::new();
    assert_eq!(
        c.apply_mode_change(&ChannelChange::Moderated(true), 24, &nicks),
        Ok(true)
    );
    assert!(c.moderated);
    assert_eq!(
        c.apply_mode_change(&ChannelChange::Moderated(false), 24, &nicks),
        Ok(true)
    );
    assert!(!c.moderated);
    // Re-applying the same value is not an observable change.
    assert_eq!(
        c.apply_mode_change(&ChannelChange::Moderated(false), 24, &nicks),
        Ok(false)
    );
}

#[test]
fn test_modes_rendering() {
    let mut c = Channel::new("+nt");
    let nicks: Vec<(usize, String)> = Vec::new();
    c.apply_mode_change(&ChannelChange::UserLimit(Some("10".into())), 24, &nicks)
        .unwrap();
    c.apply_mode_change(&ChannelChange::Key(true, "pw".into()), 24, &nicks)
        .unwrap();
    let m = Buffer::new().message("srv", "324").param("nick").param("#c");
    let out = c.modes(m, true).end().build();
    assert_eq!(&out, ":srv 324 nick #c +ntlk 10 pw\r\n");
    let m = Buffer::new().message("srv", "324").param("nick").param("#c");
    let out = c.modes(m, false).end().build();
    assert_eq!(&out, ":srv 324 nick #c +ntlk\r\n");
}

#[test]
fn test_list_entry_and_symbol() {
    let mut c = Channel::new("+s");
    c.add_member(1);
    c.add_member(2);
    assert_eq!(c.symbol(), "@");
    assert_eq!(Channel::new("").symbol(), "=");
    let m = Buffer::new().message("srv", "322").param("nick").param("#c");
    let out = c.list_entry(m).build();
    assert_eq!(&out, ":srv 322 nick #c 2 :\r\n");
}

#[test]
fn test_get_queries_are_noops() {
    let mut c = Channel::new("+nt");
    let nicks: Vec<(usize, String)> = Vec::new();
    assert_eq!(c.apply_mode_change(&ChannelChange::GetBans, 24, &nicks), Ok(false));
    assert_eq!(
        c.apply_mode_change(&ChannelChange::GetExceptions, 24, &nicks),
        Ok(false)
    );
    assert_eq!(
        c.apply_mode_change(&ChannelChange::GetInvitations, 24, &nicks),
        Ok(false)
    );
}
