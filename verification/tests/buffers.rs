use ellidri::buffers::{Buffer, ReplyBuffer};

#[test]
fn test_quit_rendering() {
    let response = Buffer::new();
    let out = response
        .message("nick!user@127.0.0.1", "QUIT")
        .param("")
        .param("  chiao ")
        .end()
        .build();
    assert_eq!(&out, ":nick!user@127.0.0.1 QUIT chiao\r\n");
}

#[test]
fn test_param_whitespace_only_is_dropped() {
    let out = Buffer::new()
        .message("", "PRIVMSG")
        .param("")
        .param("   ")
        .param("\t \r\n")
        .end()
        .build();
    assert_eq!(&out, "PRIVMSG\r\n");
}

#[test]
fn test_trailing_param_always_has_colon() {
    let out = Buffer::new()
        .message("nick!user@127.0.0.1", "QUIT")
        .trailing_param("")
        .build();
    assert_eq!(&out, ":nick!user@127.0.0.1 QUIT :\r\n");
    let out = Buffer::new()
        .message("nick!user@127.0.0.1", "QUIT")
        .trailing_param("long quit message")
        .build();
    assert_eq!(&out, ":nick!user@127.0.0.1 QUIT :long quit message\r\n");
}

#[test]
fn test_fmt_param_is_verbatim() {
    let out = Buffer::new()
        .message("", "PRIVMSG")
        .fmt_param("  #space ")
        .fmt_param("42")
        .end()
        .build();
    assert_eq!(&out, "PRIVMSG   #space  42\r\n");
}

#[test]
fn test_two_messages_accumulate() {
    let buf = Buffer::new();
    let buf = buf
        .message("nick!user@127.0.0.1", "TOPIC")
        .param("#hall")
        .trailing_param("Welcome to new users!");
    let buf = buf
        .message("ellidri.dev", "332")
        .param("nickname")
        .param("#hall")
        .trailing_param("Welcome to new users!");
    assert_eq!(
        &buf.build(),
        ":nick!user@127.0.0.1 TOPIC #hall :Welcome to new users!\r\n\
         :ellidri.dev 332 nickname #hall :Welcome to new users!\r\n"
    );
}

#[test]
fn test_tagged_message_forwards_client_tags_only() {
    let out = Buffer::new()
        .tagged_message("time=2020-01-01T00:00:00Z;+client-only=x;+=bad")
        .prefixed_command("nick!u@h", "PRIVMSG")
        .param("#c")
        .trailing_param("hello")
        .build();
    assert_eq!(&out, "@+client-only=x :nick!u@h PRIVMSG #c :hello\r\n");
}

#[test]
fn test_tag_values_are_escaped() {
    let out = Buffer::new()
        .tagged_message("")
        .tag("msg", Some("a b;c\\d"))
        .prefixed_command("", "PING")
        .end()
        .build();
    assert_eq!(&out, "@msg=a\\sb\\:c\\\\d PING\r\n");
}

#[test]
fn test_empty_tag_list_is_elided() {
    let out = Buffer::new()
        .tagged_message("")
        .prefixed_command("srv", "PONG")
        .end()
        .build();
    assert_eq!(&out, ":srv PONG\r\n");
}

#[test]
fn test_save_tag_len() {
    let mut len: usize = 7;
    let out = Buffer::new()
        .tagged_message("")
        .save_tag_len(&mut len)
        .prefixed_command("", "PING")
        .end()
        .build();
    assert_eq!(len, 0);
    assert_eq!(&out, "PING\r\n");

    let mut len: usize = 0;
    let out = Buffer::new()
        .tagged_message("")
        .tag("label", Some("abc"))
        .save_tag_len(&mut len)
        .prefixed_command("", "PING")
        .end()
        .build();
    // "label=abc" is nine bytes; '@' and the space make eleven.
    assert_eq!(len, 11);
    assert_eq!(&out, "@label=abc PING\r\n");
}

#[test]
fn test_buffer_len_get_clear() {
    let mut buf = Buffer::new();
    assert!(buf.is_empty());
    assert_eq!(buf.len(), 0);
    buf = buf.message("", "PING").end();
    assert!(!buf.is_empty());
    assert_eq!(buf.get(), "PING\r\n");
    assert_eq!(buf.len(), 6);
    buf.reserve(100);
    assert!(buf.capacity() >= 6);
    buf.clear();
    assert!(buf.is_empty());
    let buf2 = Buffer::with_capacity(64);
    assert!(buf2.is_empty());
}

#[test]
fn test_labeled_response_multi_message() {
    let rb = ReplyBuffer::new("ellidri.dev", "nick", "abc");
    let rb = rb.lr_batch_begin();
    let rb = rb
        .reply("353")
        .param("=")
        .param("#c")
        .trailing_param("alice bob carol");
    let rb = rb
        .reply("353")
        .param("=")
        .param("#c")
        .trailing_param("dave");
    let rb = rb.reply("366").param("#c").trailing_param("End of names");
    let rb = rb.lr_end();
    let out = rb.build();
    assert_eq!(
        &out,
        "@label=abc :ellidri.dev BATCH +0 labeled-response\r\n\
         @batch=0 :ellidri.dev 353 nick = #c :alice bob carol\r\n\
         @batch=0 :ellidri.dev 353 nick = #c :dave\r\n\
         @batch=0 :ellidri.dev 366 nick #c :End of names\r\n\
         :ellidri.dev BATCH -0\r\n"
    );
}

#[test]
fn test_labeled_response_single_message_has_no_batch() {
    let rb = ReplyBuffer::new("ellidri.dev", "nick", "xyz");
    let rb = rb.prefixed_message("PONG").param("token").end();
    let rb = rb.lr_end();
    assert_eq!(&rb.build(), "@label=xyz :ellidri.dev PONG token\r\n");
}

#[test]
fn test_labeled_response_empty_group_acks() {
    let rb = ReplyBuffer::new("ellidri.dev", "nick", "lbl");
    let rb = rb.lr_end();
    assert_eq!(&rb.build(), "@label=lbl :ellidri.dev ACK\r\n");
}

#[test]
fn test_unlabeled_lr_end_is_noop() {
    let rb = ReplyBuffer::new("ellidri.dev", "nick", "");
    let rb = rb.prefixed_message("PONG").end();
    let rb = rb.lr_end();
    assert_eq!(&rb.build(), ":ellidri.dev PONG\r\n");
}

#[test]
fn test_batch_begin_end() {
    let rb = ReplyBuffer::new("srv", "n", "");
    let rb = rb.batch_begin("netsplit");
    let rb = rb.prefixed_message("QUIT").trailing_param("gone");
    let rb = rb.batch_end();
    assert_eq!(
        &rb.build(),
        "@batch=0 :srv BATCH +0 netsplit\r\n\
         @batch=0 :srv QUIT :gone\r\n\
         :srv BATCH -0\r\n"
    );
}

#[test]
fn test_set_nick_changes_reply_target() {
    let mut rb = ReplyBuffer::new("srv", "old", "");
    rb.set_nick("new");
    let rb = rb.reply("001").trailing_param("Welcome");
    assert_eq!(&rb.build(), ":srv 001 new :Welcome\r\n");
}
