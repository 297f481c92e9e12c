//! The channel data model: per-member modes, the channel's flags, key, user
//! limit, topic and mask sets, and the rules for applying one mode change
//! under a given actor's privileges.

use crate::buffers::{crlf, spec_trailing, Buffer, MessageBuffer};
use crate::modes::ChannelChange;
use crate::strings::{dec_spec, parse_usize, parse_usize_spec, to_dec_string};
use crate::util::{no_dups, spec_mask_insert, spec_mask_remove, MaskSet};
use vstd::prelude::*;
use vstd::string::StrSliceExecFns;

verus! {

/// Modes applied to clients on a per-channel basis, in strictly decreasing
/// rank: founder `~`, protected `&`, operator `@`, halfop `%`, voice `+`.
#[derive(Clone, Copy, Debug, PartialEq, Eq, Structural)]
pub struct MemberModes {
    pub founder: bool,
    pub protected: bool,
    pub operator: bool,
    pub halfop: bool,
    pub voice: bool,
}

/// The member record with no rank at all.
pub open spec fn spec_default_member() -> MemberModes {
    MemberModes { founder: false, protected: false, operator: false, halfop: false, voice: false }
}

impl Default for MemberModes {
    /// No rank at all.
    fn default() -> (r: Self)
        ensures
            r == spec_default_member(),
    {
        MemberModes { founder: false, protected: false, operator: false, halfop: false, voice: false }
    }
}

/// The symbols of the enabled ranks, in decreasing order of rank.
pub open spec fn spec_all_symbols(m: MemberModes) -> Seq<char> {
    (if m.founder {
        seq!['~']
    } else {
        Seq::<char>::empty()
    }) + (if m.protected {
        seq!['&']
    } else {
        Seq::<char>::empty()
    }) + (if m.operator {
        seq!['@']
    } else {
        Seq::<char>::empty()
    }) + (if m.halfop {
        seq!['%']
    } else {
        Seq::<char>::empty()
    }) + (if m.voice {
        seq!['+']
    } else {
        Seq::<char>::empty()
    })
}

/// The symbol of the highest enabled rank.
pub open spec fn spec_symbol(m: MemberModes) -> Option<char> {
    if m.founder {
        Some('~')
    } else if m.protected {
        Some('&')
    } else if m.operator {
        Some('@')
    } else if m.halfop {
        Some('%')
    } else if m.voice {
        Some('+')
    } else {
        None
    }
}

impl MemberModes {
    /// Operator or better.
    pub open spec fn spec_is_at_least_op(self) -> bool {
        self.operator || self.founder
    }

    /// Halfop or better.
    pub open spec fn spec_is_at_least_halfop(self) -> bool {
        self.halfop || self.operator || self.founder
    }

    /// Any rank at all.
    pub open spec fn spec_has_voice(self) -> bool {
        self.voice || self.halfop || self.operator || self.protected || self.founder
    }

    /// Pushes all the modes' symbols to the given string, in decreasing order
    /// of rank.
    pub fn all_symbols(self, out: &mut String)
        ensures
            final(out)@ == old(out)@ + spec_all_symbols(self),
    {
        if self.founder {
            out.push('~');
        }
        if self.protected {
            out.push('&');
        }
        if self.operator {
            out.push('@');
        }
        if self.halfop {
            out.push('%');
        }
        if self.voice {
            out.push('+');
        }
        proof {
            assert(out@ =~= old(out)@ + spec_all_symbols(self));
        }
    }

    /// Returns the symbol of the highest enabled rank.
    pub fn symbol(self) -> (r: Option<char>)
        ensures
            r == spec_symbol(self),
    {
        if self.founder {
            Some('~')
        } else if self.protected {
            Some('&')
        } else if self.operator {
            Some('@')
        } else if self.halfop {
            Some('%')
        } else if self.voice {
            Some('+')
        } else {
            None
        }
    }

    pub fn is_at_least_op(self) -> (b: bool)
        ensures
            b == self.spec_is_at_least_op(),
    {
        self.operator || self.founder
    }

    pub fn is_at_least_halfop(self) -> (b: bool)
        ensures
            b == self.spec_is_at_least_halfop(),
    {
        self.halfop || self.operator || self.founder
    }

    pub fn has_voice(self) -> (b: bool)
        ensures
            b == self.spec_has_voice(),
    {
        self.voice || self.halfop || self.operator || self.protected || self.founder
    }

    /// Whether this member may ask for the single change `c`: query forms and
    /// parse errors are always allowed (the latter are dropped later); the
    /// other changes need halfop or operator rank as `spec_can_change_one`
    /// lays down.
    pub open spec fn spec_can_change_one(self, c: Result<ChannelChange, char>) -> bool {
        match c {
            Err(_) => true,
            Ok(ch) => match ch {
                ChannelChange::GetBans => true,
                ChannelChange::GetExceptions => true,
                ChannelChange::GetInvitations => true,
                ChannelChange::Moderated(_) => self.spec_is_at_least_halfop(),
                ChannelChange::TopicRestricted(_) => self.spec_is_at_least_halfop(),
                ChannelChange::UserLimit(_) => self.spec_is_at_least_halfop(),
                ChannelChange::ChangeBan(_, _) => self.spec_is_at_least_halfop(),
                ChannelChange::ChangeException(_, _) => self.spec_is_at_least_halfop(),
                ChannelChange::ChangeInvitation(_, _) => self.spec_is_at_least_halfop(),
                ChannelChange::ChangeVoice(_, _) => self.spec_is_at_least_halfop(),
                ChannelChange::InviteOnly(_) => self.spec_is_at_least_op(),
                ChannelChange::NoPrivMsgFromOutside(_) => self.spec_is_at_least_op(),
                ChannelChange::Secret(_) => self.spec_is_at_least_op(),
                ChannelChange::Key(_, _) => self.spec_is_at_least_op(),
                ChannelChange::ChangeOperator(_, _) => self.spec_is_at_least_op(),
                ChannelChange::ChangeHalfop(_, _) => self.spec_is_at_least_op(),
            },
        }
    }

    /// Whether this member may ask for every change of the query.
    pub open spec fn spec_can_change(self, cs: Seq<Result<ChannelChange, char>>) -> bool {
        forall|i: int| 0 <= i < cs.len() ==> self.spec_can_change_one(#[trigger] cs[i])
    }

    /// Whether this member may ask for every change of the query.
    pub fn can_change(self, changes: &Vec<Result<ChannelChange, char>>) -> (b: bool)
        ensures
            b == self.spec_can_change(changes@),
    {
        let mut i: usize = 0;
        while i < changes.len()
            invariant
                0 <= i <= changes@.len(),
                forall|k: int| 0 <= k < i ==> self.spec_can_change_one(#[trigger] changes@[k]),
            decreases changes@.len() - i,
        {
            let ok = match &changes[i] {
                Err(_) => true,
                Ok(ch) => match ch {
                    ChannelChange::GetBans => true,
                    ChannelChange::GetExceptions => true,
                    ChannelChange::GetInvitations => true,
                    ChannelChange::Moderated(_) => self.is_at_least_halfop(),
                    ChannelChange::TopicRestricted(_) => self.is_at_least_halfop(),
                    ChannelChange::UserLimit(_) => self.is_at_least_halfop(),
                    ChannelChange::ChangeBan(_, _) => self.is_at_least_halfop(),
                    ChannelChange::ChangeException(_, _) => self.is_at_least_halfop(),
                    ChannelChange::ChangeInvitation(_, _) => self.is_at_least_halfop(),
                    ChannelChange::ChangeVoice(_, _) => self.is_at_least_halfop(),
                    ChannelChange::InviteOnly(_) => self.is_at_least_op(),
                    ChannelChange::NoPrivMsgFromOutside(_) => self.is_at_least_op(),
                    ChannelChange::Secret(_) => self.is_at_least_op(),
                    ChannelChange::Key(_, _) => self.is_at_least_op(),
                    ChannelChange::ChangeOperator(_, _) => self.is_at_least_op(),
                    ChannelChange::ChangeHalfop(_, _) => self.is_at_least_op(),
                },
            };
            if !ok {
                return false;
            }
            i = i + 1;
        }
        true
    }
}

/// A channel topic: its text, who set it, and when.
pub struct Topic {
    pub content: String,
    pub who: String,
    pub time: u64,
}

/// The abstract value of a `Channel`.
#[verifier::ext_equal]
pub struct ChannelView {
    pub members: Seq<(usize, MemberModes)>,
    pub topic: Option<(Seq<char>, Seq<char>, u64)>,
    pub user_limit: Option<usize>,
    pub key: Option<Seq<char>>,
    pub ban_mask: Seq<Seq<char>>,
    pub exception_mask: Seq<Seq<char>>,
    pub invex_mask: Seq<Seq<char>>,
    pub invite_only: bool,
    pub moderated: bool,
    pub no_msg_from_outside: bool,
    pub secret: bool,
    pub topic_restricted: bool,
}

/// Channel data: the member table, the topic, the key and user limit, the
/// three mask sets, and the five simple flags.
pub struct Channel {
    /// Channel members by peer id, with their channel mode, in join order.
    pub members: Vec<(usize, MemberModes)>,
    /// The topic.
    pub topic: Option<Topic>,
    pub user_limit: Option<usize>,
    pub key: Option<String>,
    pub ban_mask: MaskSet,
    pub exception_mask: MaskSet,
    pub invex_mask: MaskSet,
    pub invite_only: bool,
    pub moderated: bool,
    pub no_msg_from_outside: bool,
    pub secret: bool,
    pub topic_restricted: bool,
}

impl View for Channel {
    type V = ChannelView;

    open spec fn view(&self) -> ChannelView {
        ChannelView {
            members: self.members@,
            topic: (match self.topic {
                Some(ref t) => Some((t.content@, t.who@, t.time)),
                None => None,
            }),
            user_limit: self.user_limit,
            key: (match self.key {
                Some(ref k) => Some(k@),
                None => None,
            }),
            ban_mask: self.ban_mask@,
            exception_mask: self.exception_mask@,
            invex_mask: self.invex_mask@,
            invite_only: self.invite_only,
            moderated: self.moderated,
            no_msg_from_outside: self.no_msg_from_outside,
            secret: self.secret,
            topic_restricted: self.topic_restricted,
        }
    }
}

/// The position of the member with the given id, or -1: ids are unique under
/// `Channel::wf`, so this is the member's one position.
pub open spec fn find_member_idx(ms: Seq<(usize, MemberModes)>, id: usize) -> int
    decreases ms.len(),
{
    if ms.len() == 0 {
        -1
    } else if ms[0].0 == id {
        0
    } else {
        let r = find_member_idx(ms.drop_first(), id);
        if r < 0 {
            -1
        } else {
            r + 1
        }
    }
}

/// Whether the member table has an entry for `id`.
pub open spec fn has_member(ms: Seq<(usize, MemberModes)>, id: usize) -> bool {
    find_member_idx(ms, id) >= 0
}

/// The modes of the member `id`.
pub open spec fn member_at(ms: Seq<(usize, MemberModes)>, id: usize) -> MemberModes {
    ms[find_member_idx(ms, id)].1
}

pub proof fn lemma_find_member(ms: Seq<(usize, MemberModes)>, id: usize)
    ensures
        find_member_idx(ms, id) >= 0 ==> 0 <= find_member_idx(ms, id) < ms.len() && ms[
            find_member_idx(ms, id)
        ].0 == id,
        find_member_idx(ms, id) < 0 ==> (forall|k: int| 0 <= k < ms.len() ==> (#[trigger] ms[k]).0 != id),
        forall|k: int| 0 <= k < find_member_idx(ms, id) ==> (#[trigger] ms[k]).0 != id,
    decreases ms.len(),
{
    if ms.len() > 0 && ms[0].0 != id {
        lemma_find_member(ms.drop_first(), id);
        assert(forall|k: int|
            1 <= k < ms.len() ==> (#[trigger] ms[k]) == ms.drop_first()[k - 1]);
    }
}

pub proof fn lemma_find_member_at(ms: Seq<(usize, MemberModes)>, id: usize, i: int)
    requires
        0 <= i < ms.len(),
        ms[i].0 == id,
        forall|k: int| 0 <= k < i ==> (#[trigger] ms[k]).0 != id,
    ensures
        find_member_idx(ms, id) == i,
    decreases ms.len(),
{
    if i > 0 {
        lemma_find_member_at(ms.drop_first(), id, i - 1);
    }
}

/// The id owning the first entry of the nickname table whose nick is `n`.
pub open spec fn find_nick(nicks: Seq<(usize, Seq<char>)>, n: Seq<char>) -> Option<usize>
    decreases nicks.len(),
{
    if nicks.len() == 0 {
        None
    } else if nicks[0].1 == n {
        Some(nicks[0].0)
    } else {
        find_nick(nicks.drop_first(), n)
    }
}

/// The abstract value of a nickname table.
pub open spec fn nicks_view(ns: Seq<(usize, String)>) -> Seq<(usize, Seq<char>)> {
    Seq::new(ns.len(), |i: int| (ns[i].0, ns[i].1@))
}

pub proof fn lemma_find_nick_at(ns: Seq<(usize, Seq<char>)>, n: Seq<char>, i: int)
    requires
        0 <= i < ns.len(),
        ns[i].1 == n,
        forall|k: int| 0 <= k < i ==> (#[trigger] ns[k]).1 != n,
    ensures
        find_nick(ns, n) == Some(ns[i].0),
    decreases ns.len(),
{
    if i > 0 {
        lemma_find_nick_at(ns.drop_first(), n, i - 1);
    }
}

pub proof fn lemma_find_nick_none(ns: Seq<(usize, Seq<char>)>, n: Seq<char>)
    requires
        forall|k: int| 0 <= k < ns.len() ==> (#[trigger] ns[k]).1 != n,
    ensures
        find_nick(ns, n) is None,
    decreases ns.len(),
{
    if ns.len() > 0 {
        lemma_find_nick_none(ns.drop_first(), n);
    }
}

/// Why a mode change was refused.
#[derive(Clone, Copy, Debug, PartialEq, Eq, Structural)]
pub enum ModeError {
    /// A key was already set (numeric 467).
    KeySet,
    /// The named user is not in the channel (numeric 441).
    UserNotInChannel,
}

impl ModeError {
    /// The three-digit numeric of this error.
    pub fn numeric(&self) -> (r: &'static str)
        ensures
            *self is KeySet ==> r@ == "467"@,
            *self is UserNotInChannel ==> r@ == "441"@,
    {
        match self {
            ModeError::KeySet => "467",
            ModeError::UserNotInChannel => "441",
        }
    }
}

/// The five simple flags, as one record for folding a mode string.
#[derive(Clone, Copy, Debug, PartialEq, Eq, Structural)]
pub struct SimpleFlags {
    pub invite_only: bool,
    pub moderated: bool,
    pub no_msg_from_outside: bool,
    pub secret: bool,
    pub topic_restricted: bool,
}

/// All five flags off.
pub open spec fn spec_no_flags() -> SimpleFlags {
    SimpleFlags {
        invite_only: false,
        moderated: false,
        no_msg_from_outside: false,
        secret: false,
        topic_restricted: false,
    }
}

/// Folds the simple changes of a query over a flag record, ignoring
/// everything that is not a simple flag change.
pub open spec fn fold_simple(cs: Seq<Result<ChannelChange, char>>, f: SimpleFlags) -> SimpleFlags
    decreases cs.len(),
{
    if cs.len() == 0 {
        f
    } else {
        let f1 = match cs[0] {
            Ok(ChannelChange::InviteOnly(v)) => SimpleFlags { invite_only: v, ..f },
            Ok(ChannelChange::Moderated(v)) => SimpleFlags { moderated: v, ..f },
            Ok(ChannelChange::NoPrivMsgFromOutside(v)) => SimpleFlags {
                no_msg_from_outside: v,
                ..f
            },
            Ok(ChannelChange::Secret(v)) => SimpleFlags { secret: v, ..f },
            Ok(ChannelChange::TopicRestricted(v)) => SimpleFlags { topic_restricted: v, ..f },
            _ => f,
        };
        fold_simple(cs.drop_first(), f1)
    }
}

/// What one mode change does to a channel: the changed channel, and `Ok`
/// with whether anything observable changed, or the error refusing it.
pub open spec fn spec_apply(
    pre: ChannelView,
    change: ChannelChange,
    keylen: usize,
    nicks: Seq<(usize, Seq<char>)>,
) -> (ChannelView, Result<bool, ModeError>) {
    match change {
        ChannelChange::InviteOnly(v) => (
            ChannelView { invite_only: v, ..pre },
            Ok(pre.invite_only != v),
        ),
        ChannelChange::Moderated(v) => (ChannelView { moderated: v, ..pre }, Ok(pre.moderated != v)),
        ChannelChange::NoPrivMsgFromOutside(v) => (
            ChannelView { no_msg_from_outside: v, ..pre },
            Ok(pre.no_msg_from_outside != v),
        ),
        ChannelChange::Secret(v) => (ChannelView { secret: v, ..pre }, Ok(pre.secret != v)),
        ChannelChange::TopicRestricted(v) => (
            ChannelView { topic_restricted: v, ..pre },
            Ok(pre.topic_restricted != v),
        ),
        ChannelChange::Key(v, k) => {
            if v {
                if pre.key is Some {
                    (pre, Err(ModeError::KeySet))
                } else {
                    let cut = if keylen < k@.len() {
                        keylen as int
                    } else {
                        k@.len() as int
                    };
                    (ChannelView { key: Some(k@.take(cut)), ..pre }, Ok(true))
                }
            } else {
                if pre.key is Some {
                    (ChannelView { key: None, ..pre }, Ok(true))
                } else {
                    (pre, Ok(false))
                }
            }
        },
        ChannelChange::UserLimit(opt) => match opt {
            Some(sv) => match parse_usize_spec(sv@) {
                Some(l) => (
                    ChannelView { user_limit: Some(l), ..pre },
                    Ok(pre.user_limit != Some(l)),
                ),
                None => (pre, Ok(false)),
            },
            None => (ChannelView { user_limit: None, ..pre }, Ok(pre.user_limit is Some)),
        },
        ChannelChange::ChangeBan(v, m) => {
            let r = if v {
                spec_mask_insert(pre.ban_mask, m@)
            } else {
                spec_mask_remove(pre.ban_mask, m@)
            };
            (ChannelView { ban_mask: r.0, ..pre }, Ok(r.1))
        },
        ChannelChange::ChangeException(v, m) => {
            let r = if v {
                spec_mask_insert(pre.exception_mask, m@)
            } else {
                spec_mask_remove(pre.exception_mask, m@)
            };
            (ChannelView { exception_mask: r.0, ..pre }, Ok(r.1))
        },
        ChannelChange::ChangeInvitation(v, m) => {
            let r = if v {
                spec_mask_insert(pre.invex_mask, m@)
            } else {
                spec_mask_remove(pre.invex_mask, m@)
            };
            (ChannelView { invex_mask: r.0, ..pre }, Ok(r.1))
        },
        ChannelChange::ChangeOperator(v, n) => match find_nick(nicks, n@) {
            None => (pre, Err(ModeError::UserNotInChannel)),
            Some(id) => {
                let i = find_member_idx(pre.members, id);
                if i < 0 {
                    (pre, Err(ModeError::UserNotInChannel))
                } else {
                    let mm = pre.members[i].1;
                    (
                        ChannelView {
                            members: pre.members.update(i, (id, MemberModes { operator: v, ..mm })),
                            ..pre
                        },
                        Ok(mm.operator != v),
                    )
                }
            },
        },
        ChannelChange::ChangeHalfop(v, n) => match find_nick(nicks, n@) {
            None => (pre, Err(ModeError::UserNotInChannel)),
            Some(id) => {
                let i = find_member_idx(pre.members, id);
                if i < 0 {
                    (pre, Err(ModeError::UserNotInChannel))
                } else {
                    let mm = pre.members[i].1;
                    (
                        ChannelView {
                            members: pre.members.update(i, (id, MemberModes { halfop: v, ..mm })),
                            ..pre
                        },
                        Ok(mm.halfop != v),
                    )
                }
            },
        },
        ChannelChange::ChangeVoice(v, n) => match find_nick(nicks, n@) {
            None => (pre, Err(ModeError::UserNotInChannel)),
            Some(id) => {
                let i = find_member_idx(pre.members, id);
                if i < 0 {
                    (pre, Err(ModeError::UserNotInChannel))
                } else {
                    let mm = pre.members[i].1;
                    (
                        ChannelView {
                            members: pre.members.update(i, (id, MemberModes { voice: v, ..mm })),
                            ..pre
                        },
                        Ok(mm.voice != v),
                    )
                }
            },
        },
        ChannelChange::GetBans => (pre, Ok(false)),
        ChannelChange::GetExceptions => (pre, Ok(false)),
        ChannelChange::GetInvitations => (pre, Ok(false)),
    }
}

/// The canonical `MODE` letters of the enabled flags, `i m n s t l k`.
pub open spec fn spec_mode_string(v: ChannelView) -> Seq<char> {
    seq!['+'] + (if v.invite_only {
        seq!['i']
    } else {
        Seq::<char>::empty()
    }) + (if v.moderated {
        seq!['m']
    } else {
        Seq::<char>::empty()
    }) + (if v.no_msg_from_outside {
        seq!['n']
    } else {
        Seq::<char>::empty()
    }) + (if v.secret {
        seq!['s']
    } else {
        Seq::<char>::empty()
    }) + (if v.topic_restricted {
        seq!['t']
    } else {
        Seq::<char>::empty()
    }) + (if v.user_limit is Some {
        seq!['l']
    } else {
        Seq::<char>::empty()
    }) + (if v.key is Some {
        seq!['k']
    } else {
        Seq::<char>::empty()
    })
}

/// The channel invariant, over the abstract value: member ids are unique,
/// and the mask sets hold no duplicates.
pub open spec fn chan_view_wf(v: ChannelView) -> bool {
    &&& (forall|i: int, j: int|
        0 <= i < j < v.members.len() ==> (#[trigger] v.members[i]).0 != (
        #[trigger] v.members[j]).0)
    &&& no_dups(v.ban_mask)
    &&& no_dups(v.exception_mask)
    &&& no_dups(v.invex_mask)
}

impl Channel {
    /// The channel's invariant: member ids are unique, and the mask sets hold
    /// no duplicates.
    pub open spec fn wf(&self) -> bool {
        chan_view_wf(self@)
    }

    /// Creates a channel with the given simple modes set: all mask sets and
    /// the member table start empty, and each valid flag change of `modes` is
    /// applied in order.
    pub fn new(modes: &str) -> (r: Self)
        ensures
            r.wf(),
            r@.members == Seq::<(usize, MemberModes)>::empty(),
            r@.topic is None,
            r@.user_limit is None,
            r@.key is None,
            r@.ban_mask == Seq::<Seq<char>>::empty(),
            r@.exception_mask == Seq::<Seq<char>>::empty(),
            r@.invex_mask == Seq::<Seq<char>>::empty(),
            ({
                let f = fold_simple(crate::modes::spec_simple_query(modes@), spec_no_flags());
                &&& r@.invite_only == f.invite_only
                &&& r@.moderated == f.moderated
                &&& r@.no_msg_from_outside == f.no_msg_from_outside
                &&& r@.secret == f.secret
                &&& r@.topic_restricted == f.topic_restricted
            }),
    {
        let changes = crate::modes::simple_channel_query(modes);
        let ghost all = changes@;
        let mut f = SimpleFlags {
            invite_only: false,
            moderated: false,
            no_msg_from_outside: false,
            secret: false,
            topic_restricted: false,
        };
        let mut i: usize = 0;
        proof {
            assert(all.skip(0) =~= all);
        }
        while i < changes.len()
            invariant
                0 <= i <= all.len(),
                changes@ == all,
                fold_simple(all, spec_no_flags()) == fold_simple(all.skip(i as int), f),
            decreases all.len() - i,
        {
            proof {
                let sk = all.skip(i as int);
                assert(sk[0] == all[i as int]);
                assert(sk.drop_first() =~= all.skip(i + 1));
            }
            match &changes[i] {
                Ok(ChannelChange::InviteOnly(v)) => {
                    f.invite_only = *v;
                },
                Ok(ChannelChange::Moderated(v)) => {
                    f.moderated = *v;
                },
                Ok(ChannelChange::NoPrivMsgFromOutside(v)) => {
                    f.no_msg_from_outside = *v;
                },
                Ok(ChannelChange::Secret(v)) => {
                    f.secret = *v;
                },
                Ok(ChannelChange::TopicRestricted(v)) => {
                    f.topic_restricted = *v;
                },
                _ => {},
            }
            i = i + 1;
        }
        proof {
            assert(all.skip(all.len() as int) =~= Seq::<Result<ChannelChange, char>>::empty());
        }
        let r = Channel {
            members: Vec::new(),
            topic: None,
            user_limit: None,
            key: None,
            ban_mask: MaskSet::new(),
            exception_mask: MaskSet::new(),
            invex_mask: MaskSet::new(),
            invite_only: f.invite_only,
            moderated: f.moderated,
            no_msg_from_outside: f.no_msg_from_outside,
            secret: f.secret,
            topic_restricted: f.topic_restricted,
        };
        r
    }

    /// The position of the member `id`, when present.
    fn find_member(&self, id: usize) -> (r: Option<usize>)
        ensures
            (match r {
                Some(i) => i as int == find_member_idx(self@.members, id),
                None => find_member_idx(self@.members, id) < 0,
            }),
    {
        let mut i: usize = 0;
        while i < self.members.len()
            invariant
                0 <= i <= self.members@.len(),
                forall|k: int| 0 <= k < i ==> (#[trigger] self.members@[k]).0 != id,
            decreases self.members@.len() - i,
        {
            if self.members[i].0 == id {
                proof {
                    lemma_find_member_at(self@.members, id, i as int);
                }
                return Some(i);
            }
            i = i + 1;
        }
        proof {
            lemma_find_member(self@.members, id);
        }
        None
    }

    /// Adds `id` as a member: the first joiner becomes operator, later ones
    /// join with no rank; an existing membership is never overwritten.
    pub fn add_member(&mut self, id: usize)
        requires
            old(self).wf(),
        ensures
            final(self).wf(),
            has_member(old(self)@.members, id) ==> final(self)@ == old(self)@,
            !has_member(old(self)@.members, id) ==> final(self)@ == (ChannelView {
                members: old(self)@.members.push(
                    (
                        id,
                        if old(self)@.members.len() == 0 {
                            MemberModes {
                                founder: false,
                                protected: false,
                                operator: true,
                                halfop: false,
                                voice: false,
                            }
                        } else {
                            spec_default_member()
                        },
                    ),
                ),
                ..old(self)@
            }),
    {
        proof {
            lemma_find_member(self@.members, id);
        }
        match self.find_member(id) {
            Some(_) => {},
            None => {
                let modes = if self.members.len() == 0 {
                    MemberModes {
                        founder: false,
                        protected: false,
                        operator: true,
                        halfop: false,
                        voice: false,
                    }
                } else {
                    MemberModes::default()
                };
                proof {
                    lemma_find_member(old(self)@.members, id);
                }
                self.members.push((id, modes));
                proof {
                    assert(self@ =~= (ChannelView {
                        members: old(self)@.members.push((id, modes)),
                        ..old(self)@
                    }));
                }
            },
        }
    }

    /// Writes one `LIST` entry: the member count, then the topic (or nothing)
    /// as the trailing parameter.
    pub fn list_entry(&self, msg: MessageBuffer) -> (r: Buffer)
        ensures
            r@ == msg@ + seq![' '] + dec_spec(self@.members.len()) + spec_trailing(
                (match self@.topic {
                    Some(t) => t.0,
                    None => Seq::<char>::empty(),
                }),
            ) + crlf(),
    {
        let ghost m0 = msg@;
        let ds = to_dec_string(self.members.len());
        let m = msg.fmt_param(ds.as_str());
        match &self.topic {
            Some(t) => {
                let r = m.trailing_param(t.content.as_str());
                proof {
                    assert(r@ =~= m0 + seq![' '] + dec_spec(self@.members.len()) + spec_trailing(
                        t.content@,
                    ) + crlf());
                }
                r
            },
            None => {
                let r = m.trailing_param("");
                proof {
                    reveal_strlit("");
                    assert(""@ =~= Seq::<char>::empty());
                    assert(r@ =~= m0 + seq![' '] + dec_spec(self@.members.len()) + spec_trailing(
                        Seq::<char>::empty(),
                    ) + crlf());
                }
                r
            },
        }
    }

    /// Banned: a ban mask matches and neither an exception nor an invitation
    /// mask does.
    pub fn is_banned(&self, nick: &str) -> (b: bool)
        ensures
            b == (crate::util::spec_any_match(self@.ban_mask, nick@)
                && !crate::util::spec_any_match(self@.exception_mask, nick@)
                && !crate::util::spec_any_match(self@.invex_mask, nick@)),
    {
        self.ban_mask.is_match(nick) && !self.exception_mask.is_match(nick)
            && !self.invex_mask.is_match(nick)
    }

    /// Invited: the channel is not invite-only, or an invitation mask matches.
    pub fn is_invited(&self, nick: &str) -> (b: bool)
        ensures
            b == (!self@.invite_only || crate::util::spec_any_match(self@.invex_mask, nick@)),
    {
        !self.invite_only || self.invex_mask.is_match(nick)
    }

    /// Talk permission: a member needs voice when the channel is moderated; a
    /// non-member may talk only into a channel that is neither moderated nor
    /// closed to outside messages.
    pub fn can_talk(&self, id: usize) -> (b: bool)
        ensures
            b == (if has_member(self@.members, id) {
                !self@.moderated || member_at(self@.members, id).spec_has_voice()
            } else {
                !self@.moderated && !self@.no_msg_from_outside
            }),
    {
        proof {
            lemma_find_member(self@.members, id);
        }
        match self.find_member(id) {
            Some(i) => {
                let m = self.members[i].1;
                !self.moderated || m.has_voice()
            },
            None => !self.moderated && !self.no_msg_from_outside,
        }
    }

    /// Invite permission: members only; an invite-only channel asks for
    /// halfop or better.
    pub fn can_invite(&self, id: usize) -> (b: bool)
        ensures
            b == (has_member(self@.members, id) && (!self@.invite_only || member_at(
                self@.members,
                id,
            ).spec_is_at_least_halfop())),
    {
        proof {
            lemma_find_member(self@.members, id);
        }
        match self.find_member(id) {
            Some(i) => {
                let m = self.members[i].1;
                if self.invite_only {
                    m.is_at_least_halfop()
                } else {
                    true
                }
            },
            None => false,
        }
    }

    /// Writes the `MODE` reply: `+` and the canonical flag letters as one
    /// parameter, then, when `full_info` is asked, the user limit and the key
    /// as further parameters.
    #[verifier::rlimit(50)]
    pub fn modes(&self, out: MessageBuffer, full_info: bool) -> (r: MessageBuffer)
        ensures
            r@ == out@ + seq![' '] + spec_mode_string(self@) + (if full_info {
                (match self@.user_limit {
                    Some(l) => seq![' '] + dec_spec(l as nat),
                    None => Seq::<char>::empty(),
                }) + (match self@.key {
                    Some(k) => crate::buffers::spec_param(k),
                    None => Seq::<char>::empty(),
                })
            } else {
                Seq::<char>::empty()
            }),
    {
        let ghost o0 = out@;
        let mut ms = String::new();
        ms.push('+');
        if self.invite_only {
            ms.push('i');
        }
        if self.moderated {
            ms.push('m');
        }
        if self.no_msg_from_outside {
            ms.push('n');
        }
        if self.secret {
            ms.push('s');
        }
        if self.topic_restricted {
            ms.push('t');
        }
        if self.user_limit.is_some() {
            ms.push('l');
        }
        if self.key.is_some() {
            ms.push('k');
        }
        proof {
            assert(ms@ =~= spec_mode_string(self@));
        }
        let mut out = out.raw_param(ms.as_str());
        if full_info {
            match self.user_limit {
                Some(l) => {
                    let ds = to_dec_string(l);
                    out = out.fmt_param(ds.as_str());
                },
                None => {},
            }
            match &self.key {
                Some(k) => {
                    out = out.param(k.as_str());
                },
                None => {},
            }
        }
        proof {
            assert(out@ =~= o0 + seq![' '] + spec_mode_string(self@) + (if full_info {
                (match self@.user_limit {
                    Some(l) => seq![' '] + dec_spec(l as nat),
                    None => Seq::<char>::empty(),
                }) + (match self@.key {
                    Some(k) => crate::buffers::spec_param(k),
                    None => Seq::<char>::empty(),
                })
            } else {
                Seq::<char>::empty()
            }));
        }
        out
    }

    /// The id owning the first entry of the nickname table whose nick is `n`.
    fn lookup_nick(nicks: &Vec<(usize, String)>, n: &String) -> (r: Option<usize>)
        ensures
            r == find_nick(nicks_view(nicks@), n@),
    {
        let ghost nv = nicks_view(nicks@);
        let mut j: usize = 0;
        while j < nicks.len()
            invariant
                0 <= j <= nicks@.len(),
                nv == nicks_view(nicks@),
                nv.len() == nicks@.len(),
                forall|k: int| 0 <= k < j ==> (#[trigger] nv[k]).1 != n@,
            decreases nicks@.len() - j,
        {
            proof {
                assert(nv[j as int] == (nicks@[j as int].0, nicks@[j as int].1@));
            }
            if nicks[j].1 == *n {
                proof {
                    lemma_find_nick_at(nv, n@, j as int);
                }
                return Some(nicks[j].0);
            }
            j = j + 1;
        }
        proof {
            lemma_find_nick_none(nv, n@);
        }
        None
    }

    /// Sets or clears the channel key, truncating a new key to `keylen` code
    /// points; setting over an existing key is refused.
    fn apply_key(
        &mut self,
        v: bool,
        k: &String,
        keylen: usize,
        nicks: &Vec<(usize, String)>,
    ) -> (r: Result<bool, ModeError>)
        requires
            old(self).wf(),
        ensures
            final(self).wf(),
            final(self)@ == spec_apply(
                old(self)@,
                ChannelChange::Key(v, *k),
                keylen,
                nicks_view(nicks@),
            ).0,
            r == spec_apply(old(self)@, ChannelChange::Key(v, *k), keylen, nicks_view(nicks@)).1,
    {
        if v {
            if self.key.is_some() {
                Err(ModeError::KeySet)
            } else {
                let klen = k.unicode_len();
                let cut = if keylen < klen {
                    keylen
                } else {
                    klen
                };
                let t = k.substring_char(0, cut).to_owned();
                self.key = Some(t);
                Ok(true)
            }
        } else {
            if self.key.is_some() {
                self.key = None;
                Ok(true)
            } else {
                Ok(false)
            }
        }
    }

    /// Sets or clears the user limit; a limit that does not parse is ignored.
    fn apply_user_limit(
        &mut self,
        opt: &Option<String>,
        keylen: usize,
        nicks: &Vec<(usize, String)>,
    ) -> (r: Result<bool, ModeError>)
        requires
            old(self).wf(),
        ensures
            final(self).wf(),
            final(self)@ == spec_apply(
                old(self)@,
                ChannelChange::UserLimit(*opt),
                keylen,
                nicks_view(nicks@),
            ).0,
            r == spec_apply(
                old(self)@,
                ChannelChange::UserLimit(*opt),
                keylen,
                nicks_view(nicks@),
            ).1,
    {
        match opt {
            Some(sv) => match parse_usize(sv.as_str()) {
                Some(l) => {
                    let applied = match self.user_limit {
                        Some(cl) => cl != l,
                        None => true,
                    };
                    self.user_limit = Some(l);
                    Ok(applied)
                },
                None => Ok(false),
            },
            None => {
                let applied = self.user_limit.is_some();
                self.user_limit = None;
                Ok(applied)
            },
        }
    }

    /// Grants or removes one of the operator, halfop and voice ranks (chosen
    /// by `which`: 0, 1 or 2) for the member whose nickname is `n`.
    fn apply_rank(
        &mut self,
        which: u8,
        v: bool,
        n: &String,
        keylen: usize,
        nicks: &Vec<(usize, String)>,
    ) -> (r: Result<bool, ModeError>)
        requires
            old(self).wf(),
            which == 0 || which == 1 || which == 2,
        ensures
            final(self).wf(),
            ({
                let change = if which == 0 {
                    ChannelChange::ChangeOperator(v, *n)
                } else if which == 1 {
                    ChannelChange::ChangeHalfop(v, *n)
                } else {
                    ChannelChange::ChangeVoice(v, *n)
                };
                &&& final(self)@ == spec_apply(old(self)@, change, keylen, nicks_view(nicks@)).0
                &&& r == spec_apply(old(self)@, change, keylen, nicks_view(nicks@)).1
            }),
    {
        let ghost pre = old(self)@;
        match Self::lookup_nick(nicks, n) {
            None => Err(ModeError::UserNotInChannel),
            Some(id) => match self.find_member(id) {
                None => Err(ModeError::UserNotInChannel),
                Some(i) => {
                    proof {
                        lemma_find_member(pre.members, id);
                    }
                    let pair = self.members[i];
                    let mut mm = pair.1;
                    let applied: bool;
                    if which == 0 {
                        applied = mm.operator != v;
                        mm.operator = v;
                    } else if which == 1 {
                        applied = mm.halfop != v;
                        mm.halfop = v;
                    } else {
                        applied = mm.voice != v;
                        mm.voice = v;
                    }
                    self.members.set(i, (pair.0, mm));
                    proof {
                        assert forall|a: int, b: int|
                            0 <= a < b < self.members@.len() implies (
                        #[trigger] self.members@[a]).0 != (#[trigger] self.members@[b]).0 by {
                            assert(self.members@[a].0 == pre.members[a].0);
                            assert(self.members@[b].0 == pre.members[b].0);
                        }
                    }
                    Ok(applied)
                },
            },
        }
    }

    /// Applies one mode change, resolving member nicknames through `nicks`
    /// and truncating a new key to `keylen` code points.  Returns whether the
    /// change made an observable difference, or the error refusing it, as
    /// `spec_apply` lays down.
    #[verifier::rlimit(100)]
    #[verifier::spinoff_prover]
    pub fn apply_mode_change(
        &mut self,
        change: &ChannelChange,
        keylen: usize,
        nicks: &Vec<(usize, String)>,
    ) -> (r: Result<bool, ModeError>)
        requires
            old(self).wf(),
        ensures
            final(self).wf(),
            final(self)@ == spec_apply(old(self)@, *change, keylen, nicks_view(nicks@)).0,
            r == spec_apply(old(self)@, *change, keylen, nicks_view(nicks@)).1,
    {
        let ghost pre = old(self)@;
        let ghost nv = nicks_view(nicks@);
        match change {
            ChannelChange::InviteOnly(v) => {
                let applied = self.invite_only != *v;
                self.invite_only = *v;
                Ok(applied)
            },
            ChannelChange::Moderated(v) => {
                let applied = self.moderated != *v;
                self.moderated = *v;
                Ok(applied)
            },
            ChannelChange::NoPrivMsgFromOutside(v) => {
                let applied = self.no_msg_from_outside != *v;
                self.no_msg_from_outside = *v;
                Ok(applied)
            },
            ChannelChange::Secret(v) => {
                let applied = self.secret != *v;
                self.secret = *v;
                Ok(applied)
            },
            ChannelChange::TopicRestricted(v) => {
                let applied = self.topic_restricted != *v;
                self.topic_restricted = *v;
                Ok(applied)
            },
            ChannelChange::Key(v, k) => self.apply_key(*v, k, keylen, nicks),
            ChannelChange::UserLimit(opt) => self.apply_user_limit(opt, keylen, nicks),
            ChannelChange::ChangeBan(v, m) => {
                let applied = if *v {
                    self.ban_mask.insert(m.as_str())
                } else {
                    self.ban_mask.remove(m.as_str())
                };
                Ok(applied)
            },
            ChannelChange::ChangeException(v, m) => {
                let applied = if *v {
                    self.exception_mask.insert(m.as_str())
                } else {
                    self.exception_mask.remove(m.as_str())
                };
                Ok(applied)
            },
            ChannelChange::ChangeInvitation(v, m) => {
                let applied = if *v {
                    self.invex_mask.insert(m.as_str())
                } else {
                    self.invex_mask.remove(m.as_str())
                };
                Ok(applied)
            },
            ChannelChange::ChangeOperator(v, n) => self.apply_rank(0, *v, n, keylen, nicks),
            ChannelChange::ChangeHalfop(v, n) => self.apply_rank(1, *v, n, keylen, nicks),
            ChannelChange::ChangeVoice(v, n) => self.apply_rank(2, *v, n, keylen, nicks),
            ChannelChange::GetBans => Ok(false),
            ChannelChange::GetExceptions => Ok(false),
            ChannelChange::GetInvitations => Ok(false),
        }
    }

    /// Removes the member `id`; returns whether it was present.
    pub fn remove_member(&mut self, id: usize) -> (r: bool)
        requires
            old(self).wf(),
        ensures
            final(self).wf(),
            r == has_member(old(self)@.members, id),
            r ==> final(self)@ == (ChannelView {
                members: old(self)@.members.remove(find_member_idx(old(self)@.members, id)),
                ..old(self)@
            }),
            !r ==> final(self)@ == old(self)@,
    {
        let ghost pre = old(self)@;
        proof {
            lemma_find_member(pre.members, id);
        }
        match self.find_member(id) {
            Some(i) => {
                self.members.remove(i);
                proof {
                    assert forall|a: int, b: int|
                        0 <= a < b < self.members@.len() implies (#[trigger] self.members@[a]).0
                        != (#[trigger] self.members@[b]).0 by {
                        let a0 = if a < i {
                            a
                        } else {
                            a + 1
                        };
                        let b0 = if b < i {
                            b
                        } else {
                            b + 1
                        };
                        assert(self.members@[a] == pre.members[a0]);
                        assert(self.members@[b] == pre.members[b0]);
                    }
                    assert(self@ =~= (ChannelView {
                        members: pre.members.remove(find_member_idx(pre.members, id)),
                        ..pre
                    }));
                }
                true
            },
            None => false,
        }
    }

    /// The channel's `NAMES` symbol: `@` for a secret channel, `=` otherwise.
    pub fn symbol(&self) -> (r: &'static str)
        ensures
            self@.secret ==> r@ == "@"@,
            !self@.secret ==> r@ == "="@,
    {
        if self.secret {
            "@"
        } else {
            "="
        }
    }
}

/// The changes the inverse law covers: the five flags, the three mask edits,
/// and the three rank changes.  Setting a key, clearing it, and the user
/// limit have no inverse in the same shape: undoing them means re-encoding
/// the old key or limit as a fresh parameter.
pub open spec fn invertible_change(change: ChannelChange) -> bool {
    match change {
        ChannelChange::InviteOnly(_) => true,
        ChannelChange::Moderated(_) => true,
        ChannelChange::NoPrivMsgFromOutside(_) => true,
        ChannelChange::Secret(_) => true,
        ChannelChange::TopicRestricted(_) => true,
        ChannelChange::ChangeBan(_, _) => true,
        ChannelChange::ChangeException(_, _) => true,
        ChannelChange::ChangeInvitation(_, _) => true,
        ChannelChange::ChangeOperator(_, _) => true,
        ChannelChange::ChangeHalfop(_, _) => true,
        ChannelChange::ChangeVoice(_, _) => true,
        _ => false,
    }
}

/// The change that undoes `change` on a channel in state `pre`: it writes
/// back the value the channel held before.
pub open spec fn inverse_change(
    change: ChannelChange,
    pre: ChannelView,
    nicks: Seq<(usize, Seq<char>)>,
) -> ChannelChange {
    match change {
        ChannelChange::InviteOnly(_) => ChannelChange::InviteOnly(pre.invite_only),
        ChannelChange::Moderated(_) => ChannelChange::Moderated(pre.moderated),
        ChannelChange::NoPrivMsgFromOutside(_) => ChannelChange::NoPrivMsgFromOutside(
            pre.no_msg_from_outside,
        ),
        ChannelChange::Secret(_) => ChannelChange::Secret(pre.secret),
        ChannelChange::TopicRestricted(_) => ChannelChange::TopicRestricted(pre.topic_restricted),
        ChannelChange::ChangeBan(v, m) => {
            let applied = (if v {
                spec_mask_insert(pre.ban_mask, m@)
            } else {
                spec_mask_remove(pre.ban_mask, m@)
            }).1;
            ChannelChange::ChangeBan(if applied { !v } else { v }, m)
        },
        ChannelChange::ChangeException(v, m) => {
            let applied = (if v {
                spec_mask_insert(pre.exception_mask, m@)
            } else {
                spec_mask_remove(pre.exception_mask, m@)
            }).1;
            ChannelChange::ChangeException(if applied { !v } else { v }, m)
        },
        ChannelChange::ChangeInvitation(v, m) => {
            let applied = (if v {
                spec_mask_insert(pre.invex_mask, m@)
            } else {
                spec_mask_remove(pre.invex_mask, m@)
            }).1;
            ChannelChange::ChangeInvitation(if applied { !v } else { v }, m)
        },
        ChannelChange::ChangeOperator(v, n) => (match find_nick(nicks, n@) {
            Some(id) => {
                let i = find_member_idx(pre.members, id);
                if i >= 0 {
                    ChannelChange::ChangeOperator(pre.members[i].1.operator, n)
                } else {
                    ChannelChange::ChangeOperator(v, n)
                }
            },
            None => ChannelChange::ChangeOperator(v, n),
        }),
        ChannelChange::ChangeHalfop(v, n) => (match find_nick(nicks, n@) {
            Some(id) => {
                let i = find_member_idx(pre.members, id);
                if i >= 0 {
                    ChannelChange::ChangeHalfop(pre.members[i].1.halfop, n)
                } else {
                    ChannelChange::ChangeHalfop(v, n)
                }
            },
            None => ChannelChange::ChangeHalfop(v, n),
        }),
        ChannelChange::ChangeVoice(v, n) => (match find_nick(nicks, n@) {
            Some(id) => {
                let i = find_member_idx(pre.members, id);
                if i >= 0 {
                    ChannelChange::ChangeVoice(pre.members[i].1.voice, n)
                } else {
                    ChannelChange::ChangeVoice(v, n)
                }
            },
            None => ChannelChange::ChangeVoice(v, n),
        }),
        _ => change,
    }
}

/// Observably the same channel: everything equal, with the mask sets
/// compared as multisets, since undoing a removal re-adds the mask at the
/// end of the list.
pub open spec fn same_observable(a: ChannelView, b: ChannelView) -> bool {
    &&& a.members == b.members
    &&& a.topic == b.topic
    &&& a.user_limit == b.user_limit
    &&& a.key == b.key
    &&& a.ban_mask.to_multiset() == b.ban_mask.to_multiset()
    &&& a.exception_mask.to_multiset() == b.exception_mask.to_multiset()
    &&& a.invex_mask.to_multiset() == b.invex_mask.to_multiset()
    &&& a.invite_only == b.invite_only
    &&& a.moderated == b.moderated
    &&& a.no_msg_from_outside == b.no_msg_from_outside
    &&& a.secret == b.secret
    &&& a.topic_restricted == b.topic_restricted
}

/// One mask edit and its inverse leave the mask list with the same members.
proof fn lemma_mask_edit_inverse(v0: Seq<Seq<char>>, add: bool, m: Seq<char>)
    requires
        no_dups(v0),
    ensures
        ({
            let r1 = if add {
                spec_mask_insert(v0, m)
            } else {
                spec_mask_remove(v0, m)
            };
            let inv_add = if r1.1 {
                !add
            } else {
                add
            };
            let r2 = if inv_add {
                spec_mask_insert(r1.0, m)
            } else {
                spec_mask_remove(r1.0, m)
            };
            r2.0.to_multiset() == v0.to_multiset()
        }),
{
    broadcast use vstd::seq_lib::group_to_multiset_ensures;

    if add {
        if !v0.contains(m) {
            let w = v0.push(m);
            assert(w[v0.len() as int] == m);
            assert(w.contains(m));
            let k = w.index_of(m);
            assert(w[k] == m);
            if k < v0.len() {
                assert(v0[k] == m);
                assert(v0.contains(m));
            }
            assert(k == v0.len() as int);
            assert(w.remove(k) =~= v0);
        }
    } else {
        if v0.contains(m) {
            let k = v0.index_of(m);
            assert(v0[k] == m);
            let w = v0.remove(k);
            assert(w.to_multiset() =~= v0.to_multiset().remove(m));
            assert(forall|i: int, j: int|
                0 <= i < v0.len() && 0 <= j < v0.len() && i != j ==> v0[i] != v0[j]) by {
                assert(no_dups(v0));
            }
            v0.lemma_multiset_has_no_duplicates();
            assert(v0.to_multiset().contains(m));
            assert(v0.to_multiset().count(m) == 1);
            assert(w.to_multiset().count(m) == 0);
            assert(!w.to_multiset().contains(m));
            if w.contains(m) {
                assert(w.to_multiset().contains(m));
            }
            assert(!w.contains(m));
            assert(w.push(m).to_multiset() =~= w.to_multiset().insert(m));
            assert(w.to_multiset().insert(m) =~= v0.to_multiset());
        }
    }
}

/// Two member tables with the same ids position for position give the same
/// lookup result.
proof fn lemma_find_same_ids(
    a: Seq<(usize, MemberModes)>,
    b: Seq<(usize, MemberModes)>,
    id: usize,
)
    requires
        a.len() == b.len(),
        forall|k: int| 0 <= k < a.len() ==> (#[trigger] a[k]).0 == (#[trigger] b[k]).0,
    ensures
        find_member_idx(a, id) == find_member_idx(b, id),
    decreases a.len(),
{
    if a.len() > 0 {
        assert(a[0].0 == b[0].0);
        lemma_find_same_ids(a.drop_first(), b.drop_first(), id);
        assert(forall|k: int|
            0 <= k < a.drop_first().len() ==> (#[trigger] a.drop_first()[k]).0 == (
            #[trigger] b.drop_first()[k]).0);
    }
}

/// Applying a mode change that succeeds, then its inverse, returns the
/// channel to its original observable state.  Mask-set entries are compared
/// without order: undoing a removal re-adds the mask at the end.
pub proof fn lemma_mode_change_inverse(
    pre: ChannelView,
    change: ChannelChange,
    keylen: usize,
    nicks: Seq<(usize, Seq<char>)>,
)
    requires
        invertible_change(change),
        no_dups(pre.ban_mask),
        no_dups(pre.exception_mask),
        no_dups(pre.invex_mask),
    ensures
        ({
            let first = spec_apply(pre, change, keylen, nicks);
            let back = spec_apply(first.0, inverse_change(change, pre, nicks), keylen, nicks);
            first.1 is Ok ==> back.1 is Ok && same_observable(back.0, pre)
        }),
{
    broadcast use vstd::seq_lib::group_to_multiset_ensures;

    match change {
        ChannelChange::ChangeBan(v, m) => {
            lemma_mask_edit_inverse(pre.ban_mask, v, m@);
        },
        ChannelChange::ChangeException(v, m) => {
            lemma_mask_edit_inverse(pre.exception_mask, v, m@);
        },
        ChannelChange::ChangeInvitation(v, m) => {
            lemma_mask_edit_inverse(pre.invex_mask, v, m@);
        },
        ChannelChange::ChangeOperator(v, n) => {
            lemma_rank_inverse_op(pre, v, n, keylen, nicks);
        },
        ChannelChange::ChangeHalfop(v, n) => {
            lemma_rank_inverse_halfop(pre, v, n, keylen, nicks);
        },
        ChannelChange::ChangeVoice(v, n) => {
            lemma_rank_inverse_voice(pre, v, n, keylen, nicks);
        },
        _ => {},
    }
}

proof fn lemma_rank_inverse_op(
    pre: ChannelView,
    v: bool,
    n: String,
    keylen: usize,
    nicks: Seq<(usize, Seq<char>)>,
)
    ensures
        ({
            let change = ChannelChange::ChangeOperator(v, n);
            let first = spec_apply(pre, change, keylen, nicks);
            let back = spec_apply(first.0, inverse_change(change, pre, nicks), keylen, nicks);
            first.1 is Ok ==> back.1 is Ok && same_observable(back.0, pre)
        }),
{
    let change = ChannelChange::ChangeOperator(v, n);
    let first = spec_apply(pre, change, keylen, nicks);
    if first.1 is Ok {
        match find_nick(nicks, n@) {
            Some(id) => {
                let i = find_member_idx(pre.members, id);
                if i >= 0 {
                    lemma_find_member(pre.members, id);
                    let mm = pre.members[i].1;
                    let mid = first.0;
                    lemma_find_same_ids(mid.members, pre.members, id);
                    lemma_find_member(mid.members, id);
                    assert(mid.members[i].1 == MemberModes { operator: v, ..mm });
                    let back = spec_apply(mid, inverse_change(change, pre, nicks), keylen, nicks);
                    assert(MemberModes { operator: mm.operator, ..MemberModes { operator: v, ..mm } }
                        == mm);
                    assert(back.0.members =~= pre.members);
                }
            },
            None => {},
        }
    }
}

proof fn lemma_rank_inverse_halfop(
    pre: ChannelView,
    v: bool,
    n: String,
    keylen: usize,
    nicks: Seq<(usize, Seq<char>)>,
)
    ensures
        ({
            let change = ChannelChange::ChangeHalfop(v, n);
            let first = spec_apply(pre, change, keylen, nicks);
            let back = spec_apply(first.0, inverse_change(change, pre, nicks), keylen, nicks);
            first.1 is Ok ==> back.1 is Ok && same_observable(back.0, pre)
        }),
{
    let change = ChannelChange::ChangeHalfop(v, n);
    let first = spec_apply(pre, change, keylen, nicks);
    if first.1 is Ok {
        match find_nick(nicks, n@) {
            Some(id) => {
                let i = find_member_idx(pre.members, id);
                if i >= 0 {
                    lemma_find_member(pre.members, id);
                    let mm = pre.members[i].1;
                    let mid = first.0;
                    lemma_find_same_ids(mid.members, pre.members, id);
                    lemma_find_member(mid.members, id);
                    assert(mid.members[i].1 == MemberModes { halfop: v, ..mm });
                    let back = spec_apply(mid, inverse_change(change, pre, nicks), keylen, nicks);
                    assert(MemberModes { halfop: mm.halfop, ..MemberModes { halfop: v, ..mm } }
                        == mm);
                    assert(back.0.members =~= pre.members);
                }
            },
            None => {},
        }
    }
}

proof fn lemma_rank_inverse_voice(
    pre: ChannelView,
    v: bool,
    n: String,
    keylen: usize,
    nicks: Seq<(usize, Seq<char>)>,
)
    ensures
        ({
            let change = ChannelChange::ChangeVoice(v, n);
            let first = spec_apply(pre, change, keylen, nicks);
            let back = spec_apply(first.0, inverse_change(change, pre, nicks), keylen, nicks);
            first.1 is Ok ==> back.1 is Ok && same_observable(back.0, pre)
        }),
{
    let change = ChannelChange::ChangeVoice(v, n);
    let first = spec_apply(pre, change, keylen, nicks);
    if first.1 is Ok {
        match find_nick(nicks, n@) {
            Some(id) => {
                let i = find_member_idx(pre.members, id);
                if i >= 0 {
                    lemma_find_member(pre.members, id);
                    let mm = pre.members[i].1;
                    let mid = first.0;
                    lemma_find_same_ids(mid.members, pre.members, id);
                    lemma_find_member(mid.members, id);
                    assert(mid.members[i].1 == MemberModes { voice: v, ..mm });
                    let back = spec_apply(mid, inverse_change(change, pre, nicks), keylen, nicks);
                    assert(MemberModes { voice: mm.voice, ..MemberModes { voice: v, ..mm } }
                        == mm);
                    assert(back.0.members =~= pre.members);
                }
            },
            None => {},
        }
    }
}

/// A user-limit change and its undo return the channel to its original
/// observable state: the undo re-encodes the old limit in decimal (or clears
/// when none was set); a limit string that never parsed is undone by itself.
pub proof fn lemma_user_limit_inverse(
    pre: ChannelView,
    sv: String,
    undo: Option<String>,
    keylen: usize,
    nicks: Seq<(usize, Seq<char>)>,
)
    requires
        (match parse_usize_spec(sv@) {
            Some(_) => (match pre.user_limit {
                Some(l) => undo matches Some(u) && u@ == dec_spec(l as nat),
                None => undo is None,
            }),
            None => undo matches Some(u) && u@ == sv@,
        }),
    ensures
        ({
            let first = spec_apply(pre, ChannelChange::UserLimit(Some(sv)), keylen, nicks);
            let back = spec_apply(first.0, ChannelChange::UserLimit(undo), keylen, nicks);
            back.1 is Ok && same_observable(back.0, pre)
        }),
{
    match parse_usize_spec(sv@) {
        Some(_) => {
            match pre.user_limit {
                Some(l) => {
                    crate::strings::lemma_parse_of_dec(l);
                    let first = spec_apply(pre, ChannelChange::UserLimit(Some(sv)), keylen, nicks);
                    let back = spec_apply(first.0, ChannelChange::UserLimit(undo), keylen, nicks);
                    assert(back.0 =~= pre);
                },
                None => {
                    let first = spec_apply(pre, ChannelChange::UserLimit(Some(sv)), keylen, nicks);
                    let back = spec_apply(first.0, ChannelChange::UserLimit(undo), keylen, nicks);
                    assert(back.0 =~= pre);
                },
            }
        },
        None => {
            let first = spec_apply(pre, ChannelChange::UserLimit(Some(sv)), keylen, nicks);
            let back = spec_apply(first.0, ChannelChange::UserLimit(undo), keylen, nicks);
            assert(back.0 =~= pre);
        },
    }
}

/// A key change and its undo return the channel to its original observable
/// state: clearing undoes setting, setting the old key again (it fits
/// `keylen`, having been stored under it) undoes clearing, and a change that
/// applied nothing is undone by itself.
pub proof fn lemma_key_inverse(
    pre: ChannelView,
    v: bool,
    k: String,
    undo_k: String,
    keylen: usize,
    nicks: Seq<(usize, Seq<char>)>,
)
    requires
        !v && pre.key is Some ==> undo_k@ == pre.key->Some_0 && pre.key->Some_0.len()
            <= keylen,
    ensures
        ({
            let first = spec_apply(pre, ChannelChange::Key(v, k), keylen, nicks);
            let inv = if first.1 == Ok::<bool, ModeError>(true) {
                ChannelChange::Key(!v, undo_k)
            } else {
                ChannelChange::Key(v, undo_k)
            };
            let back = spec_apply(first.0, inv, keylen, nicks);
            first.1 is Ok ==> back.1 is Ok && same_observable(back.0, pre)
        }),
{
    let first = spec_apply(pre, ChannelChange::Key(v, k), keylen, nicks);
    if first.1 is Ok {
        if v {
            if pre.key is None {
                let back = spec_apply(first.0, ChannelChange::Key(false, undo_k), keylen, nicks);
                assert(back.0 =~= pre);
            }
        } else {
            if pre.key is Some {
                let k0 = pre.key->Some_0;
                let back = spec_apply(first.0, ChannelChange::Key(true, undo_k), keylen, nicks);
                assert(undo_k@.take(
                    if keylen < undo_k@.len() {
                        keylen as int
                    } else {
                        undo_k@.len() as int
                    },
                ) =~= k0);
                assert(back.0 =~= pre);
            } else {
                let back = spec_apply(first.0, ChannelChange::Key(false, undo_k), keylen, nicks);
                assert(back.0 =~= pre);
            }
        }
    }
}

} // verus!
