//! Configuration records: the settings the shared state is built from, and
//! their sample and default values.  Reading and writing configuration files
//! is I/O and lives outside the library; the checks on a loaded
//! configuration's content live here.

use crate::modes::{is_channel_mode_string, spec_is_channel_mode_string};
use vstd::prelude::*;
use vstd::string::StringExecFns;

verus! {

/// Why a configuration was rejected.
pub enum Error {
    /// Reading the file failed; the text describes the failure.
    Io(String),
    /// The file's content was rejected; the text describes why.
    Content(String),
    InvalidDomain,
    InvalidModes,
}

impl Error {
    /// Wraps a message as a content error.
    pub fn s(message: &str) -> (r: Error)
        ensures
            (r matches Error::Content(m) && m@ == message@),
    {
        Error::Content(message.to_owned())
    }

    /// A human-readable description of the error.
    pub fn describe(&self) -> (r: String)
        ensures
            (*self matches Error::Io(m) ==> r@ == m@),
            (*self matches Error::Content(m) ==> r@ == m@),
            (*self is InvalidDomain ==> r@ == "'domain' must be a domain name (e.g. irc.com)"@),
            (*self is InvalidModes ==> r@
                == "'default_chan_mode' must be a mode string (e.g. +nt)"@),
    {
        match self {
            Error::Io(m) => m.clone(),
            Error::Content(m) => m.clone(),
            Error::InvalidDomain => "'domain' must be a domain name (e.g. irc.com)".to_owned(),
            Error::InvalidModes => "'default_chan_mode' must be a mode string (e.g. +nt)"
                .to_owned(),
        }
    }
}

/// TLS identity material for a TLS binding, as file paths.
pub struct Tls {
    pub certificate: String,
    pub key: String,
}

/// A listening address (as text, e.g. `127.0.0.1:6667`) with optional TLS
/// settings.
pub struct Binding {
    pub address: String,
    pub tls: Option<Tls>,
}

/// OPER credentials: the operator's name and the hash of their password.
pub struct Oper {
    pub name: String,
    pub password: String,
}

/// Settings for the shared state.
pub struct State {
    pub domain: String,
    pub org_name: String,
    pub org_location: String,
    pub org_mail: String,
    pub default_chan_mode: String,
    pub motd_file: String,
    pub opers: Vec<Oper>,
    pub password: String,
    pub awaylen: usize,
    pub channellen: usize,
    pub keylen: usize,
    pub kicklen: usize,
    pub namelen: usize,
    pub nicklen: usize,
    pub topiclen: usize,
    pub userlen: usize,
    pub login_timeout: u64,
}

/// Relies on gethostname's `gethostname`: the machine's host name, with any
/// ill-formed bytes replaced.
#[verifier::external_body]
fn hostname() -> String {
    String::from(gethostname::gethostname().to_string_lossy())
}

impl State {
    /// A self-contained sample: placeholder organisation, no operators, no
    /// password, the classic length limits, and a one-minute login timeout.
    pub fn sample() -> (r: State)
        ensures
            r.domain@ == "ellidri.localdomain"@,
            r.default_chan_mode@ == "+nt"@,
            r.motd_file@ == "/etc/motd"@,
            r.opers@.len() == 0,
            r.password@.len() == 0,
            r.org_name@ == "--unspecified--"@,
            r.org_location@ == "--unspecified--"@,
            r.org_mail@ == "--unspecified--"@,
            r.awaylen == 300,
            r.channellen == 50,
            r.keylen == 24,
            r.kicklen == 300,
            r.namelen == 64,
            r.nicklen == 32,
            r.topiclen == 300,
            r.userlen == 64,
            r.login_timeout == 60000,
            spec_is_channel_mode_string(r.default_chan_mode@),
    {
        let r = State {
            domain: "ellidri.localdomain".to_owned(),
            org_name: "--unspecified--".to_owned(),
            org_location: "--unspecified--".to_owned(),
            org_mail: "--unspecified--".to_owned(),
            default_chan_mode: "+nt".to_owned(),
            motd_file: "/etc/motd".to_owned(),
            opers: Vec::new(),
            password: String::new(),
            awaylen: 300,
            channellen: 50,
            keylen: 24,
            kicklen: 300,
            namelen: 64,
            nicklen: 32,
            topiclen: 300,
            userlen: 64,
            login_timeout: 60000,
        };
        proof {
            reveal_strlit("+nt");
        }
        r
    }
}

impl Default for State {
    /// The machine's host name as domain, the classic length limits, and the
    /// default channel mode `+nst`.
    fn default() -> (r: State)
        ensures
            r.default_chan_mode@ == "+nst"@,
            r.motd_file@ == "/etc/motd"@,
            r.opers@.len() == 0,
            r.password@.len() == 0,
            r.org_name@ == "unspecified"@,
            r.org_location@ == "unspecified"@,
            r.org_mail@ == "unspecified"@,
            r.awaylen == 300,
            r.channellen == 50,
            r.keylen == 24,
            r.kicklen == 300,
            r.namelen == 64,
            r.nicklen == 32,
            r.topiclen == 300,
            r.userlen == 64,
            r.login_timeout == 60000,
            spec_is_channel_mode_string(r.default_chan_mode@),
    {
        let r = State {
            domain: hostname(),
            org_name: "unspecified".to_owned(),
            org_location: "unspecified".to_owned(),
            org_mail: "unspecified".to_owned(),
            default_chan_mode: "+nst".to_owned(),
            motd_file: "/etc/motd".to_owned(),
            opers: Vec::new(),
            password: String::new(),
            awaylen: 300,
            channellen: 50,
            keylen: 24,
            kicklen: 300,
            namelen: 64,
            nicklen: 32,
            topiclen: 300,
            userlen: 64,
            login_timeout: 60_000,
        };
        proof {
            reveal_strlit("+nst");
        }
        r
    }
}

/// Which SASL backend serves AUTHENTICATE.
#[derive(Clone, Copy, Debug, PartialEq, Eq, Structural)]
pub enum SaslBackend {
    Disabled,
    Database,
}

impl SaslBackend {
    /// The backend's name in configuration files.
    pub fn text(&self) -> (r: &'static str)
        ensures
            (*self is Disabled ==> r@ == "none"@),
            (*self is Database ==> r@ == "db"@),
    {
        match self {
            SaslBackend::Disabled => "none",
            SaslBackend::Database => "db",
        }
    }
}

impl Default for SaslBackend {
    /// SASL is off unless configured.
    fn default() -> (r: Self)
        ensures
            r is Disabled,
    {
        SaslBackend::Disabled
    }
}

/// The database driver behind the SASL database backend.
#[derive(Clone, Copy, Debug, PartialEq, Eq, Structural)]
pub enum Driver {
    Sqlite,
    Postgres,
}

/// A database location: the driver and its connection string.
pub struct Url(pub Driver, pub String);

/// The whole configuration.
pub struct Config {
    pub bindings: Vec<Binding>,
    pub workers: usize,
    pub state: State,
    pub sasl_backend: SaslBackend,
    pub db_url: Option<Url>,
}

impl Config {
    /// A self-contained sample: one plain-text binding on the loopback
    /// address, and the sample state settings.
    pub fn sample() -> (r: Config)
        ensures
            r.bindings@.len() == 1,
            r.bindings@[0].address@ == "127.0.0.1:6667"@,
            r.bindings@[0].tls is None,
            r.workers == 0,
            r.sasl_backend is Disabled,
            r.db_url is None,
            spec_is_channel_mode_string(r.state.default_chan_mode@),
    {
        let mut bindings: Vec<Binding> = Vec::new();
        bindings.push(Binding { address: "127.0.0.1:6667".to_owned(), tls: None });
        Config {
            bindings,
            workers: 0,
            state: State::sample(),
            sasl_backend: SaslBackend::Disabled,
            db_url: None,
        }
    }

    /// The content check a freshly loaded configuration must pass: the
    /// default channel mode must be a mode string.
    pub fn validate(&self) -> (r: Result<(), Error>)
        ensures
            (r is Ok) == spec_is_channel_mode_string(self.state.default_chan_mode@),
    {
        if !is_channel_mode_string(self.state.default_chan_mode.as_str()) {
            return Err(Error::InvalidModes);
        }
        Ok(())
    }
}

} // verus!
