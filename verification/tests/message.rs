use ellidri::buffers::Buffer;
use ellidri::message::Message;

#[test]
fn test_message_framing_round_trip() {
    let line = "@time=2020-01-01T00:00:00Z;+client-only=x :nick!u@h PRIVMSG #c :hello world";
    let msg = Message::parse(line).expect("a line with a command must parse");
    assert_eq!(msg.prefix.as_deref(), Some("nick!u@h"));
    assert_eq!(msg.command, "PRIVMSG");
    assert_eq!(msg.params, ["#c", "hello world"]);
    assert_eq!(msg.tags.len(), 2);
    assert_eq!(msg.tags[0].0, "time");
    assert_eq!(msg.tags[0].1.as_deref(), Some("2020-01-01T00:00:00Z"));
    assert_eq!(msg.tags[1].0, "+client-only");
    assert_eq!(msg.tags[1].1.as_deref(), Some("x"));

    // Rebuild the message and parse it again: the same tag set, prefix,
    // command and parameters come back.
    let mut tb = Buffer::new().tagged_message("");
    for (key, value) in &msg.tags {
        tb = tb.tag(key, value.as_deref());
    }
    let mb = tb
        .prefixed_command(msg.prefix.as_deref().unwrap_or(""), &msg.command)
        .param(&msg.params[0]);
    let rebuilt = mb.trailing_param(&msg.params[1]).build();
    let line2 = rebuilt.strip_suffix("\r\n").unwrap();
    let again = Message::parse(line2).expect("the rebuilt line must parse");
    assert_eq!(again.tags, msg.tags);
    assert_eq!(again.prefix, msg.prefix);
    assert_eq!(again.command, msg.command);
    assert_eq!(again.params, msg.params);
}

#[test]
fn test_parse_plain_command() {
    let msg = Message::parse("PING").unwrap();
    assert!(msg.tags.is_empty());
    assert!(msg.prefix.is_none());
    assert_eq!(msg.command, "PING");
    assert!(msg.params.is_empty());
}

#[test]
fn test_parse_needs_a_command() {
    assert!(Message::parse("").is_none());
    assert!(Message::parse(":prefix.only ").is_none());
    assert!(Message::parse("@tag=1 ").is_none());
}

#[test]
fn test_parse_params_and_trailing() {
    let msg = Message::parse("MODE #c +k :the key").unwrap();
    assert_eq!(msg.command, "MODE");
    assert_eq!(msg.params, ["#c", "+k", "the key"]);
    let msg = Message::parse("JOIN #a #b").unwrap();
    assert_eq!(msg.params, ["#a", "#b"]);
}

#[test]
fn test_parse_unescapes_tag_values() {
    let msg = Message::parse("@msg=a\\sb\\:c\\\\d PING").unwrap();
    assert_eq!(msg.tags[0].0, "msg");
    assert_eq!(msg.tags[0].1.as_deref(), Some("a b;c\\d"));
    let msg = Message::parse("@flag PING").unwrap();
    assert_eq!(msg.tags[0].0, "flag");
    assert_eq!(msg.tags[0].1, None);
}

#[test]
fn test_parse_skips_extra_spaces() {
    let msg = Message::parse("PRIVMSG  #c   :hi").unwrap();
    assert_eq!(msg.params, ["#c", "hi"]);
}
