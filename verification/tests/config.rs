use ellidri::config::{Config, Driver, Error, SaslBackend, State, Url};

#[test]
fn test_state_sample_values() {
    let s = State::sample();
    assert_eq!(s.domain, "ellidri.localdomain");
    assert_eq!(s.default_chan_mode, "+nt");
    assert_eq!(s.motd_file, "/etc/motd");
    assert_eq!(s.keylen, 24);
    assert_eq!(s.nicklen, 32);
    assert_eq!(s.login_timeout, 60000);
    assert!(s.opers.is_empty());
}

#[test]
fn test_state_default_values() {
    let s = State::default();
    assert_eq!(s.default_chan_mode, "+nst");
    assert_eq!(s.org_name, "unspecified");
    assert_eq!(s.login_timeout, 60_000);
}

#[test]
fn test_config_sample_and_validate() {
    let c = Config::sample();
    assert_eq!(c.bindings.len(), 1);
    assert_eq!(c.bindings[0].address, "127.0.0.1:6667");
    assert!(c.bindings[0].tls.is_none());
    assert!(c.validate().is_ok());

    let mut bad = Config::sample();
    bad.state.default_chan_mode = "what".to_string();
    match bad.validate() {
        Err(Error::InvalidModes) => {}
        _ => panic!("an invalid default_chan_mode must be refused"),
    }
}

#[test]
fn test_error_texts() {
    assert_eq!(
        Error::InvalidModes.describe(),
        "'default_chan_mode' must be a mode string (e.g. +nt)"
    );
    assert_eq!(
        Error::InvalidDomain.describe(),
        "'domain' must be a domain name (e.g. irc.com)"
    );
    match Error::s("oops") {
        Error::Content(m) => assert_eq!(m, "oops"),
        _ => panic!("Error::s must wrap a content error"),
    }
    assert_eq!(Error::Io("gone".to_string()).describe(), "gone");
}

#[test]
fn test_sasl_backend() {
    assert_eq!(SaslBackend::default(), SaslBackend::Disabled);
    assert_eq!(SaslBackend::Disabled.text(), "none");
    assert_eq!(SaslBackend::Database.text(), "db");
    let url = Url(Driver::Sqlite, "db.sqlite".to_string());
    assert_eq!(url.0, Driver::Sqlite);
}
