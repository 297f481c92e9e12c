//! Channel mode changes: the tagged union of every change a `MODE` command
//! can ask for, and the parser for simple (parameterless) mode strings such
//! as a configuration's default channel mode.

use vstd::prelude::*;
use vstd::string::StrSliceExecFns;

verus! {

/// One change requested by a channel `MODE` command.
pub enum ChannelChange {
    InviteOnly(bool),
    Moderated(bool),
    NoPrivMsgFromOutside(bool),
    Secret(bool),
    TopicRestricted(bool),
    Key(bool, String),
    UserLimit(Option<String>),
    ChangeBan(bool, String),
    ChangeException(bool, String),
    ChangeInvitation(bool, String),
    ChangeOperator(bool, String),
    ChangeHalfop(bool, String),
    ChangeVoice(bool, String),
    GetBans,
    GetExceptions,
    GetInvitations,
}

/// The letters of the five simple (parameterless) channel modes.
pub open spec fn is_simple_mode_letter(c: char) -> bool {
    c == 'i' || c == 'm' || c == 'n' || c == 's' || c == 't'
}

/// The simple change one mode letter asks for under the current sign, or the
/// letter itself when it names no simple mode.
pub open spec fn spec_simple_change(c: char, value: bool) -> Result<ChannelChange, char> {
    if c == 'i' {
        Ok(ChannelChange::InviteOnly(value))
    } else if c == 'm' {
        Ok(ChannelChange::Moderated(value))
    } else if c == 'n' {
        Ok(ChannelChange::NoPrivMsgFromOutside(value))
    } else if c == 's' {
        Ok(ChannelChange::Secret(value))
    } else if c == 't' {
        Ok(ChannelChange::TopicRestricted(value))
    } else {
        Err(c)
    }
}

/// The changes a simple mode string asks for, reading `+` and `-` as sign
/// switches, starting under the sign `value`.
pub open spec fn spec_simple_query_from(s: Seq<char>, value: bool) -> Seq<
    Result<ChannelChange, char>,
>
    decreases s.len(),
{
    if s.len() == 0 {
        Seq::<Result<ChannelChange, char>>::empty()
    } else if s[0] == '+' {
        spec_simple_query_from(s.drop_first(), true)
    } else if s[0] == '-' {
        spec_simple_query_from(s.drop_first(), false)
    } else {
        seq![spec_simple_change(s[0], value)] + spec_simple_query_from(s.drop_first(), value)
    }
}

/// The changes a simple mode string asks for; the sign defaults to `+`.
pub open spec fn spec_simple_query(s: Seq<char>) -> Seq<Result<ChannelChange, char>> {
    spec_simple_query_from(s, true)
}

/// Parses a simple mode string such as `"+nt"` into its changes; an unknown
/// letter yields an `Err` entry that callers may skip or report.
pub fn simple_channel_query(modes: &str) -> (v: Vec<Result<ChannelChange, char>>)
    ensures
        v@ == spec_simple_query(modes@),
{
    let n = modes.unicode_len();
    let mut v: Vec<Result<ChannelChange, char>> = Vec::new();
    let mut value = true;
    let mut i: usize = 0;
    proof {
        assert(modes@.skip(0) =~= modes@);
        assert(v@ + spec_simple_query_from(modes@, true) =~= spec_simple_query_from(
            modes@,
            true,
        ));
    }
    while i < n
        invariant
            0 <= i <= n,
            n == modes@.len(),
            spec_simple_query(modes@) == v@ + spec_simple_query_from(
                modes@.skip(i as int),
                value,
            ),
        decreases n - i,
    {
        let c = modes.get_char(i);
        proof {
            let sk = modes@.skip(i as int);
            assert(sk[0] == modes@[i as int]);
            assert(sk.drop_first() =~= modes@.skip(i + 1));
        }
        if c == '+' {
            value = true;
        } else if c == '-' {
            value = false;
        } else if c == 'i' {
            v.push(Ok(ChannelChange::InviteOnly(value)));
        } else if c == 'm' {
            v.push(Ok(ChannelChange::Moderated(value)));
        } else if c == 'n' {
            v.push(Ok(ChannelChange::NoPrivMsgFromOutside(value)));
        } else if c == 's' {
            v.push(Ok(ChannelChange::Secret(value)));
        } else if c == 't' {
            v.push(Ok(ChannelChange::TopicRestricted(value)));
        } else {
            v.push(Err(c));
        }
        proof {
            assert(spec_simple_query(modes@) =~= v@ + spec_simple_query_from(
                modes@.skip(i + 1),
                value,
            ));
        }
        i = i + 1;
    }
    proof {
        assert(modes@.skip(n as int) =~= Seq::<char>::empty());
        assert(spec_simple_query(modes@) =~= v@);
    }
    v
}

/// What this library accepts as a channel mode string: non-empty, and every
/// character is a sign or a simple mode letter.
pub open spec fn spec_is_channel_mode_string(s: Seq<char>) -> bool {
    s.len() > 0 && (forall|i: int|
        0 <= i < s.len() ==> s[i] == '+' || s[i] == '-' || is_simple_mode_letter(#[trigger] s[i]))
}

/// Whether `s` is a channel mode string this library accepts.
pub fn is_channel_mode_string(s: &str) -> (b: bool)
    ensures
        b == spec_is_channel_mode_string(s@),
{
    let n = s.unicode_len();
    if n == 0 {
        return false;
    }
    let mut i: usize = 0;
    while i < n
        invariant
            0 <= i <= n,
            n == s@.len(),
            forall|k: int|
                0 <= k < i ==> s@[k] == '+' || s@[k] == '-' || is_simple_mode_letter(
                    #[trigger] s@[k],
                ),
        decreases n - i,
    {
        let c = s.get_char(i);
        if !(c == '+' || c == '-' || c == 'i' || c == 'm' || c == 'n' || c == 's' || c == 't') {
            return false;
        }
        i = i + 1;
    }
    true
}

} // verus!
