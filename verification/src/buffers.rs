//! Wire-format IRC message building.
//!
//! A message has the shape `['@' tags SP] [':' prefix SP] command (SP param)*
//! [SP ':' trailing] CRLF`.  [`Buffer`] accumulates any number of complete
//! messages; [`MessageBuffer`] is a linear builder for the message currently
//! being written, whose finishing calls are the only way back to a [`Buffer`],
//! so the closing CRLF can never be forgotten; [`TagBuffer`] builds the
//! leading tag list; [`ReplyBuffer`] adds per-interaction state: the label of
//! a labeled response and the currently open batch.

use crate::strings::{dec_spec, push_dec, to_dec_string, trim, trim_spec};
use vstd::prelude::*;
use vstd::string::{StringExecFns, StringSliceAdditionalSpecFns};
use vstd::utf8::encode_utf8;

verus! {

/// Reservation hint for one wire message, the classic IRC line limit.
pub const MESSAGE_LENGTH: usize = 512;

/// The two characters that terminate every wire message.
pub open spec fn crlf() -> Seq<char> {
    seq!['\r', '\n']
}

/// The opening of a message: `:prefix SP` when a prefix is given, then the
/// command token.
pub open spec fn spec_message_start(prefix: Seq<char>, command: Seq<char>) -> Seq<char> {
    if prefix.len() == 0 {
        command
    } else {
        seq![':'] + prefix + seq![' '] + command
    }
}

/// What `param` appends: nothing when the parameter trims to whitespace only,
/// else one space and the trimmed text.
pub open spec fn spec_param(p: Seq<char>) -> Seq<char> {
    if trim_spec(p).len() == 0 {
        Seq::<char>::empty()
    } else {
        seq![' '] + trim_spec(p)
    }
}

/// What `trailing_param` appends before the terminator: ` :` and the verbatim
/// text, with the leading `:` present even for empty input.
pub open spec fn spec_trailing(p: Seq<char>) -> Seq<char> {
    seq![' ', ':'] + p
}

/// How one character of a tag value is written on the wire: `;`, space, CR,
/// LF and backslash are written as two-character escapes.
pub open spec fn escape_char(c: char) -> Seq<char> {
    if c == ';' {
        seq!['\\', ':']
    } else if c == ' ' {
        seq!['\\', 's']
    } else if c == '\r' {
        seq!['\\', 'r']
    } else if c == '\n' {
        seq!['\\', 'n']
    } else if c == '\\' {
        seq!['\\', '\\']
    } else {
        seq![c]
    }
}

/// The escape-encoding of a whole tag value.
pub open spec fn escape_spec(s: Seq<char>) -> Seq<char>
    decreases s.len(),
{
    if s.len() == 0 {
        Seq::<char>::empty()
    } else {
        escape_char(s[0]) + escape_spec(s.drop_first())
    }
}

pub proof fn lemma_escape_snoc(s: Seq<char>)
    requires
        s.len() > 0,
    ensures
        escape_spec(s) == escape_spec(s.drop_last()) + escape_char(s.last()),
    decreases s.len(),
{
    if s.len() == 1 {
        assert(s.drop_first() =~= Seq::<char>::empty());
        assert(s.drop_last() =~= Seq::<char>::empty());
        assert(escape_spec(s) =~= escape_spec(s.drop_last()) + escape_char(s.last()));
    } else {
        let df = s.drop_first();
        lemma_escape_snoc(df);
        assert(df.drop_last() =~= s.drop_last().drop_first());
        assert(df.last() == s.last());
        assert(s.drop_last()[0] == s[0]);
        assert(escape_spec(s) == escape_char(s[0]) + (escape_spec(df.drop_last()) + escape_char(
            s.last(),
        )));
        assert(escape_spec(s.drop_last()) == escape_char(s[0]) + escape_spec(
            s.drop_last().drop_first(),
        ));
        assert(escape_spec(s) =~= escape_spec(s.drop_last()) + escape_char(s.last()));
    }
}

/// Appends the escape-encoding of `value` to `buf`.
pub fn write_escaped(buf: &mut String, value: &str)
    ensures
        final(buf)@ == old(buf)@ + escape_spec(value@),
{
    let n = value.unicode_len();
    let mut i: usize = 0;
    while i < n
        invariant
            0 <= i <= n,
            n == value@.len(),
            buf@ == old(buf)@ + escape_spec(value@.take(i as int)),
        decreases n - i,
    {
        let c = value.get_char(i);
        proof {
            let t = value@.take(i + 1);
            lemma_escape_snoc(t);
            assert(t.drop_last() =~= value@.take(i as int));
            assert(t.last() == value@[i as int]);
        }
        if c == ';' {
            buf.push('\\');
            buf.push(':');
        } else if c == ' ' {
            buf.push('\\');
            buf.push('s');
        } else if c == '\r' {
            buf.push('\\');
            buf.push('r');
        } else if c == '\n' {
            buf.push('\\');
            buf.push('n');
        } else if c == '\\' {
            buf.push('\\');
            buf.push('\\');
        } else {
            buf.push(c);
        }
        proof {
            assert(buf@ =~= old(buf)@ + escape_spec(value@.take(i + 1)));
        }
        i = i + 1;
    }
    proof {
        assert(value@.take(n as int) =~= value@);
    }
}

/// The `;`-separated tokens of a raw tag list; splitting the empty string
/// gives one empty token, as `str::split` does.
pub open spec fn split_semi(s: Seq<char>) -> Seq<Seq<char>>
    decreases s.len(),
{
    if s.len() == 0 {
        seq![Seq::<char>::empty()]
    } else if s[0] == ';' {
        seq![Seq::<char>::empty()] + split_semi(s.drop_first())
    } else {
        let rest = split_semi(s.drop_first());
        seq![seq![s[0]] + rest[0]] + rest.drop_first()
    }
}

pub proof fn lemma_split_semi_len(s: Seq<char>)
    ensures
        split_semi(s).len() >= 1,
    decreases s.len(),
{
    if s.len() > 0 {
        lemma_split_semi_len(s.drop_first());
    }
}

pub proof fn lemma_split_semi_snoc(s: Seq<char>, c: char)
    ensures
        c == ';' ==> split_semi(s.push(c)) == split_semi(s).push(Seq::<char>::empty()),
        c != ';' ==> split_semi(s.push(c)) == split_semi(s).update(
            split_semi(s).len() - 1,
            split_semi(s).last().push(c),
        ),
    decreases s.len(),
{
    reveal_with_fuel(split_semi, 3);
    lemma_split_semi_len(s);
    if s.len() == 0 {
        let sc = s.push(c);
        assert(sc[0] == c);
        assert(sc.drop_first() =~= Seq::<char>::empty());
        if c == ';' {
            assert(split_semi(sc) =~= split_semi(s).push(Seq::<char>::empty()));
        } else {
            assert(seq![c] + split_semi(Seq::<char>::empty())[0] =~= seq![c]);
            assert(split_semi(sc) =~= split_semi(s).update(
                split_semi(s).len() - 1,
                split_semi(s).last().push(c),
            ));
        }
    } else {
        let sc = s.push(c);
        assert(sc[0] == s[0]);
        assert(sc.drop_first() =~= s.drop_first().push(c));
        lemma_split_semi_snoc(s.drop_first(), c);
        lemma_split_semi_len(s.drop_first());
        if c == ';' {
            assert(split_semi(sc) =~= split_semi(s).push(Seq::<char>::empty()));
        } else {
            let r = split_semi(s.drop_first());
            let rc = split_semi(s.drop_first().push(c));
            if r.len() == 1 {
                assert(rc == r.update(0, r.last().push(c)));
                assert(rc[0] == r[0].push(c));
            }
            assert(split_semi(sc) =~= split_semi(s).update(
                split_semi(s).len() - 1,
                split_semi(s).last().push(c),
            ));
        }
    }
}

/// A token of a raw tag list that names a client tag: it starts with `+` and
/// is not `+=...`.
pub open spec fn is_client_tag(t: Seq<char>) -> bool {
    t.len() >= 1 && t[0] == '+' && !(t.len() >= 2 && t[1] == '=')
}

/// The client tags of a raw tag list, in order.
pub open spec fn client_tags_spec(tags: Seq<char>) -> Seq<Seq<char>> {
    split_semi(tags).filter(|t: Seq<char>| is_client_tag(t))
}

/// Tokens joined back with `;`.
pub open spec fn join_semi(ts: Seq<Seq<char>>) -> Seq<char>
    decreases ts.len(),
{
    if ts.len() == 0 {
        Seq::<char>::empty()
    } else if ts.len() == 1 {
        ts[0]
    } else {
        ts[0] + seq![';'] + join_semi(ts.drop_first())
    }
}

pub proof fn lemma_join_semi_snoc(ts: Seq<Seq<char>>, t: Seq<char>)
    ensures
        ts.len() == 0 ==> join_semi(ts.push(t)) == t,
        ts.len() > 0 ==> join_semi(ts.push(t)) == join_semi(ts) + seq![';'] + t,
    decreases ts.len(),
{
    if ts.len() == 0 {
        assert(join_semi(ts.push(t)) == ts.push(t)[0]);
        assert(ts.push(t)[0] == t);
    } else if ts.len() == 1 {
        let p = ts.push(t);
        assert(p[0] == ts[0]);
        assert(p.drop_first() =~= seq![t]);
        assert(join_semi(p.drop_first()) == t);
    } else {
        let p = ts.push(t);
        assert(p[0] == ts[0]);
        assert(p.drop_first() =~= ts.drop_first().push(t));
        lemma_join_semi_snoc(ts.drop_first(), t);
        assert(join_semi(ts.push(t)) =~= join_semi(ts) + seq![';'] + t);
    }
}

pub proof fn lemma_join_semi_nonempty(ts: Seq<Seq<char>>)
    requires
        ts.len() > 0,
        ts[0].len() > 0,
    ensures
        join_semi(ts).len() > 0,
{
}

/// Helper to build an IRC message.
///
/// Starts from `Buffer::message`; the finishing calls (`trailing_param` and
/// its variants, or `end`) append the CRLF terminator and give the buffer
/// back.
pub struct MessageBuffer {
    buf: String,
}

impl View for MessageBuffer {
    type V = Seq<char>;

    closed spec fn view(&self) -> Seq<char> {
        self.buf@
    }
}

impl MessageBuffer {
    /// Opens a message at the end of `buf`: `:prefix SP` when `prefix` is
    /// non-empty, then the command token.
    fn with_prefix(buf: String, prefix: &str, command: &str) -> (r: Self)
        ensures
            r@ == buf@ + spec_message_start(prefix@, command@),
    {
        let ghost b0 = buf@;
        let mut buf = buf;
        if !prefix.is_empty() {
            buf.push(':');
            buf.append(prefix);
            buf.push(' ');
        }
        buf.append(command);
        proof {
            assert(buf@ =~= b0 + spec_message_start(prefix@, command@));
        }
        MessageBuffer { buf }
    }

    /// Appends a parameter, trimmed; a parameter that trims to nothing is
    /// dropped silently.
    pub fn param(self, param: &str) -> (r: Self)
        ensures
            r@ == self@ + spec_param(param@),
    {
        let ghost v0 = self@;
        let t = trim(param);
        if t.is_empty() {
            proof {
                assert(v0 + spec_param(param@) =~= v0);
            }
            return self;
        }
        let mut buf = self.buf;
        buf.push(' ');
        buf.append(t);
        proof {
            assert(buf@ =~= v0 + spec_param(param@));
        }
        MessageBuffer { buf }
    }

    /// Appends a parameter verbatim: no trim, and an empty parameter still
    /// appends its separating space.
    pub fn fmt_param(self, param: &str) -> (r: Self)
        ensures
            r@ == self@ + seq![' '] + param@,
    {
        let mut buf = self.buf;
        buf.push(' ');
        buf.append(param);
        MessageBuffer { buf }
    }

    /// Appends a space and the given raw text, verbatim.
    pub fn raw_param(self, raw: &str) -> (r: Self)
        ensures
            r@ == self@ + seq![' '] + raw@,
    {
        let mut buf = self.buf;
        buf.push(' ');
        buf.append(raw);
        MessageBuffer { buf }
    }

    /// Appends the trailing parameter, verbatim behind ` :`, and closes the
    /// message with CRLF.
    pub fn trailing_param(self, param: &str) -> (r: Buffer)
        ensures
            r@ == self@ + spec_trailing(param@) + crlf(),
    {
        let ghost v0 = self@;
        let mut buf = self.buf;
        buf.push(' ');
        buf.push(':');
        buf.append(param);
        buf.push('\r');
        buf.push('\n');
        proof {
            assert(buf@ =~= v0 + spec_trailing(param@) + crlf());
        }
        Buffer { buf }
    }

    /// Appends the trailing parameter from already-formatted text; same
    /// effect as `trailing_param`.
    pub fn fmt_trailing_param(self, param: &str) -> (r: Buffer)
        ensures
            r@ == self@ + spec_trailing(param@) + crlf(),
    {
        self.trailing_param(param)
    }

    /// Appends ` :` and the given raw text, and closes the message with CRLF.
    pub fn raw_trailing_param(self, raw: &str) -> (r: Buffer)
        ensures
            r@ == self@ + spec_trailing(raw@) + crlf(),
    {
        self.trailing_param(raw)
    }

    /// Closes the message without a trailing parameter, appending CRLF.
    pub fn end(self) -> (r: Buffer)
        ensures
            r@ == self@ + crlf(),
    {
        let ghost v0 = self@;
        let mut buf = self.buf;
        buf.push('\r');
        buf.push('\n');
        proof {
            assert(buf@ =~= v0 + crlf());
        }
        Buffer { buf }
    }
}

/// What a finished tag list contributes to the message: nothing when no tag
/// was added, else `@`, the tags, and the separating space.
pub open spec fn spec_with_tags(base: Seq<char>, tags: Seq<char>) -> Seq<char> {
    if tags.len() == 0 {
        base
    } else {
        base + seq!['@'] + tags + seq![' ']
    }
}

/// What `TagBuffer::tag` appends to the tag list.
pub open spec fn spec_tag(
    tags: Seq<char>,
    key: Seq<char>,
    value: Option<Seq<char>>,
) -> Seq<char> {
    let sep: Seq<char> = if tags.len() == 0 {
        Seq::<char>::empty()
    } else {
        seq![';']
    };
    tags + sep + key + (match value {
        Some(v) => seq!['='] + escape_spec(v),
        None => Seq::<char>::empty(),
    })
}

/// Helper to build the tags of an IRC message.
///
/// The `@` opener and the space separating the tags from the rest of the
/// message are only written when at least one tag was added.
pub struct TagBuffer {
    base: String,
    tags: String,
}

impl TagBuffer {
    /// The text accumulated before this message's tags.
    pub closed spec fn base_view(&self) -> Seq<char> {
        self.base@
    }

    /// The tag list written so far, without the `@` opener.
    pub closed spec fn tags_view(&self) -> Seq<char> {
        self.tags@
    }

    /// Starts an empty tag list at the end of `buf`.
    fn new(buf: String) -> (r: Self)
        ensures
            r.base_view() == buf@,
            r.tags_view() == Seq::<char>::empty(),
    {
        let mut buf = buf;
        buf.reserve(MESSAGE_LENGTH);
        TagBuffer { base: buf, tags: String::new() }
    }

    /// Whether the buffer has tags in it or not.
    pub fn is_empty(&self) -> (b: bool)
        ensures
            b == (self.tags_view().len() == 0),
    {
        self.tags.as_str().is_empty()
    }

    /// Adds a new tag with the given `key` and, when present, the
    /// escape-encoded `value`.
    pub fn tag(self, key: &str, value: Option<&str>) -> (r: Self)
        ensures
            r.base_view() == self.base_view(),
            r.tags_view() == spec_tag(
                self.tags_view(),
                key@,
                (match value {
                    Some(v) => Some(v@),
                    None => None,
                }),
            ),
    {
        let ghost t0 = self.tags@;
        let mut tags = self.tags;
        if !tags.as_str().is_empty() {
            tags.push(';');
        }
        tags.append(key);
        match value {
            Some(v) => {
                tags.push('=');
                write_escaped(&mut tags, v);
            },
            None => {},
        }
        proof {
            assert(tags@ =~= spec_tag(
                t0,
                key@,
                (match value {
                    Some(v) => Some(v@),
                    None => None,
                }),
            ));
        }
        TagBuffer { base: self.base, tags }
    }

    /// Adds the already-formatted tag `s`.
    fn raw_tag(self, s: &str) -> (r: Self)
        ensures
            r.base_view() == self.base_view(),
            r.tags_view() == self.tags_view() + (if self.tags_view().len() == 0 {
                Seq::<char>::empty()
            } else {
                seq![';']
            }) + s@,
    {
        let ghost t0 = self.tags@;
        let mut tags = self.tags;
        if !tags.as_str().is_empty() {
            tags.push(';');
        }
        tags.append(s);
        proof {
            assert(tags@ =~= t0 + (if t0.len() == 0 {
                Seq::<char>::empty()
            } else {
                seq![';']
            }) + s@);
        }
        TagBuffer { base: self.base, tags }
    }

    /// Writes into `out` the length in bytes that the finished tag list will
    /// occupy, `@` and separating space included; 0 when no tag was added.
    pub fn save_tag_len(self, out: &mut usize) -> (r: Self)
        ensures
            r.base_view() == self.base_view(),
            r.tags_view() == self.tags_view(),
            self.tags_view().len() == 0 ==> *final(out) == 0,
            self.tags_view().len() > 0 && encode_utf8(self.tags_view()).len() + 2 <= usize::MAX
                ==> *final(out) == encode_utf8(self.tags_view()).len() + 2,
    {
        if self.tags.as_str().is_empty() {
            *out = 0;
        } else {
            let s = self.tags.as_str();
            proof {
                assert(s.spec_bytes() == encode_utf8(self.tags_view()));
            }
            let l = s.len();
            *out = l.wrapping_add(2);
        }
        self
    }

    /// Closes the tag list and starts the message body with the given prefix
    /// and command.
    pub fn prefixed_command(self, prefix: &str, cmd: &str) -> (m: MessageBuffer)
        ensures
            m@ == spec_with_tags(self.base_view(), self.tags_view()) + spec_message_start(
                prefix@,
                cmd@,
            ),
    {
        let ghost b0 = self.base@;
        let ghost t0 = self.tags@;
        let mut buf = self.base;
        if !self.tags.as_str().is_empty() {
            buf.push('@');
            buf.append(self.tags.as_str());
            buf.push(' ');
        }
        proof {
            assert(buf@ =~= spec_with_tags(b0, t0));
        }
        MessageBuffer::with_prefix(buf, prefix, cmd)
    }
}

/// The `;`-separated tokens of `s`, as owned strings.
pub(crate) fn split_semicolons(s: &str) -> (v: Vec<String>)
    ensures
        v.deep_view() == split_semi(s@),
{
    let n = s.unicode_len();
    let mut v: Vec<String> = Vec::new();
    let mut cur = String::new();
    let mut i: usize = 0;
    while i < n
        invariant
            0 <= i <= n,
            n == s@.len(),
            v.deep_view().push(cur@) == split_semi(s@.take(i as int)),
        decreases n - i,
    {
        let c = s.get_char(i);
        proof {
            lemma_split_semi_snoc(s@.take(i as int), s@[i as int]);
            assert(s@.take(i + 1) =~= s@.take(i as int).push(s@[i as int]));
            lemma_split_semi_len(s@.take(i as int));
        }
        if c == ';' {
            v.push(cur);
            cur = String::new();
            proof {
                assert(v.deep_view().push(cur@) =~= split_semi(s@.take(i + 1)));
            }
        } else {
            let ghost c0 = cur@;
            cur.push(c);
            proof {
                assert(cur@ =~= c0.push(s@[i as int]));
                let prev = split_semi(s@.take(i as int));
                assert(prev.last() == c0);
                assert(v.deep_view().push(cur@) =~= prev.update(prev.len() - 1, prev.last().push(
                    s@[i as int],
                )));
            }
        }
        i = i + 1;
    }
    v.push(cur);
    proof {
        assert(s@.take(n as int) =~= s@);
        assert(v.deep_view() =~= split_semi(s@));
    }
    v
}

/// Whether the token `t` names a client tag.
fn is_client_tag_exec(t: &String) -> (b: bool)
    ensures
        b == is_client_tag(t@),
{
    let s = t.as_str();
    let n = s.unicode_len();
    if n == 0 {
        return false;
    }
    if s.get_char(0) != '+' {
        return false;
    }
    if n >= 2 && s.get_char(1) == '=' {
        return false;
    }
    true
}

/// Helper to build strings holding any number of complete IRC messages.
pub struct Buffer {
    buf: String,
}

impl View for Buffer {
    type V = Seq<char>;

    closed spec fn view(&self) -> Seq<char> {
        self.buf@
    }
}

impl Buffer {
    /// Creates an empty `Buffer`.
    pub fn new() -> (r: Self)
        ensures
            r@ == Seq::<char>::empty(),
    {
        Buffer { buf: String::new() }
    }

    /// Creates an empty `Buffer` with at least the given capacity.
    pub fn with_capacity(capacity: usize) -> (r: Self)
        ensures
            r@ == Seq::<char>::empty(),
    {
        Buffer { buf: String::with_capacity(capacity) }
    }

    /// Whether the buffer holds no text.
    pub fn is_empty(&self) -> (b: bool)
        ensures
            b == (self@.len() == 0),
    {
        self.buf.as_str().is_empty()
    }

    /// A reference to the accumulated text.
    pub fn get(&self) -> (r: &str)
        ensures
            r@ == self@,
    {
        self.buf.as_str()
    }

    /// Empties the buffer.
    pub fn clear(&mut self)
        ensures
            final(self)@ == Seq::<char>::empty(),
    {
        self.buf.clear();
    }

    /// The length of the accumulated text, in bytes.
    pub fn len(&self) -> (r: usize)
        ensures
            r == encode_utf8(self@).len() as usize,
    {
        let s = self.buf.as_str();
        proof {
            assert(s.spec_bytes() == encode_utf8(self@));
        }
        s.len()
    }

    /// The capacity of the underlying allocation, in bytes.
    pub fn capacity(&self) -> usize {
        self.buf.capacity()
    }

    /// Reserves room for at least `capacity` more bytes.
    pub fn reserve(&mut self, capacity: usize)
        ensures
            final(self)@ == old(self)@,
    {
        self.buf.reserve(capacity);
    }

    /// Opens a message with the given prefix and command at the end of the
    /// buffer; the returned builder gives the buffer back when the message is
    /// closed.
    pub fn message(self, prefix: &str, command: &str) -> (r: MessageBuffer)
        ensures
            r@ == self@ + spec_message_start(prefix@, command@),
    {
        MessageBuffer::with_prefix(self.buf, prefix, command)
    }

    /// Starts building a message with tags.
    ///
    /// Only the tokens of `client_tags` that name client tags (those starting
    /// with `+`, except `+=...`) are carried over; the server adds every
    /// other tag explicitly through `TagBuffer::tag`.
    pub fn tagged_message(self, client_tags: &str) -> (tb: TagBuffer)
        ensures
            tb.base_view() == self@,
            tb.tags_view() == join_semi(client_tags_spec(client_tags@)),
    {
        let ghost b0 = self@;
        let toks = split_semicolons(client_tags);
        let ghost all = split_semi(client_tags@);
        let ghost pred = |t: Seq<char>| is_client_tag(t);
        let mut tb = TagBuffer::new(self.buf);
        let mut i: usize = 0;
        proof {
            assert(all.take(0) =~= Seq::<Seq<char>>::empty());
            reveal(Seq::filter);
        }
        while i < toks.len()
            invariant
                0 <= i <= toks.len(),
                toks.deep_view() == all,
                pred == (|t: Seq<char>| is_client_tag(t)),
                tb.base_view() == b0,
                tb.tags_view() == join_semi(all.take(i as int).filter(pred)),
            decreases toks.len() - i,
        {
            let t = &toks[i];
            proof {
                assert(toks.deep_view()[i as int] == toks@[i as int].deep_view());
                let pre = all.take(i as int);
                let now = all.take(i + 1);
                assert(now.drop_last() =~= pre);
                assert(now.last() == all[i as int]);
                reveal(Seq::filter);
            }
            if is_client_tag_exec(t) {
                let ghost tags0 = tb.tags_view();
                tb = tb.raw_tag(t.as_str());
                proof {
                    let pre = all.take(i as int);
                    let f = pre.filter(pred);
                    lemma_join_semi_snoc(f, all[i as int]);
                    if f.len() > 0 {
                        pre.lemma_filter_pred(pred, 0);
                        lemma_join_semi_nonempty(f);
                    }
                    reveal(Seq::filter);
                    assert(all.take(i + 1).filter(pred) == f.push(all[i as int]));
                    assert(tb.tags_view() =~= join_semi(all.take(i + 1).filter(pred)));
                }
            } else {
                proof {
                    reveal(Seq::filter);
                    assert(all.take(i + 1).filter(pred) == all.take(i as int).filter(pred));
                }
            }
            i = i + 1;
        }
        proof {
            assert(all.take(toks@.len() as int) =~= all);
        }
        tb
    }

    /// Consumes the `Buffer` and returns the accumulated text.
    pub fn build(self) -> (r: String)
        ensures
            r@ == self@,
    {
        self.buf
    }
}

/// The tag list of one reply message: the forwarded client tags, then the
/// `label` tag when this is the first message of a labeled response, then the
/// `batch` tag when a batch is open.
pub open spec fn spec_reply_tags(
    t0: Seq<char>,
    has_label: bool,
    label: Seq<char>,
    batch: Option<usize>,
) -> Seq<char> {
    let t1 = if has_label {
        spec_tag(t0, "label"@, Some(label))
    } else {
        t0
    };
    match batch {
        Some(b) => spec_tag(t1, "batch"@, Some(dec_spec(b as nat))),
        None => t1,
    }
}

/// The opening of one reply message built without client tags: its tag list,
/// then `:prefix SP command`.
pub open spec fn spec_reply_open(
    has_label: bool,
    label: Seq<char>,
    batch: Option<usize>,
    prefix: Seq<char>,
    cmd: Seq<char>,
) -> Seq<char> {
    spec_with_tags(
        Seq::<char>::empty(),
        spec_reply_tags(Seq::<char>::empty(), has_label, label, batch),
    ) + spec_message_start(prefix, cmd)
}

pub proof fn lemma_client_tags_of_empty()
    ensures
        join_semi(client_tags_spec(""@)) == Seq::<char>::empty(),
{
    reveal_strlit("");
    reveal_with_fuel(split_semi, 2);
    reveal_with_fuel(Seq::filter, 3);
    assert(split_semi(""@) =~= seq![Seq::<char>::empty()]);
    let pred = |t: Seq<char>| is_client_tag(t);
    let sp = seq![Seq::<char>::empty()];
    assert(sp.drop_last() =~= Seq::<Seq<char>>::empty());
    assert(!pred(sp.last()));
    assert(client_tags_spec(""@) =~= Seq::<Seq<char>>::empty());
}

/// Helper that builds a group of reply messages for one peer: it knows the
/// peer's nickname, the server domain, the label of the inbound command when
/// labeled-response is in use, and the currently open batch.
pub struct ReplyBuffer {
    buf: Buffer,
    batch: Option<usize>,
    has_label: bool,
    domain: String,
    nickname: String,
    label: String,
}

/// The in-progress tag stage of one reply message.
pub struct ReplyTagBuffer {
    tb: TagBuffer,
    batch: Option<usize>,
    domain: String,
    nickname: String,
    label: String,
}

/// The in-progress body stage of one reply message; its finishing calls give
/// the `ReplyBuffer` back.
pub struct ReplyMessageBuffer {
    mb: MessageBuffer,
    batch: Option<usize>,
    domain: String,
    nickname: String,
    label: String,
}

impl ReplyBuffer {
    /// The accumulated reply text.
    pub closed spec fn buf_view(&self) -> Seq<char> {
        self.buf@
    }

    /// The id of the innermost open batch.
    pub closed spec fn batch_view(&self) -> Option<usize> {
        self.batch
    }

    /// Whether the label still waits to be attached to the next message.
    pub closed spec fn has_label_view(&self) -> bool {
        self.has_label
    }

    pub closed spec fn domain_view(&self) -> Seq<char> {
        self.domain@
    }

    pub closed spec fn nickname_view(&self) -> Seq<char> {
        self.nickname@
    }

    pub closed spec fn label_view(&self) -> Seq<char> {
        self.label@
    }

    /// All fields but the accumulated text, unchanged between `self` and `r`.
    pub open spec fn same_meta(&self, r: &ReplyBuffer) -> bool {
        r.batch_view() == self.batch_view() && r.has_label_view() == self.has_label_view()
            && r.domain_view() == self.domain_view() && r.nickname_view() == self.nickname_view()
            && r.label_view() == self.label_view()
    }

    /// Room to allocate one more batch id.
    pub open spec fn batch_ok(&self) -> bool {
        match self.batch_view() {
            Some(b) => b < usize::MAX,
            None => true,
        }
    }

    /// An empty reply group for one peer: the label is pending exactly when
    /// one was supplied.
    pub fn new(domain: &str, nickname: &str, label: &str) -> (r: Self)
        ensures
            r.buf_view() == Seq::<char>::empty(),
            r.batch_view() == Option::<usize>::None,
            r.has_label_view() == (label@.len() != 0),
            r.domain_view() == domain@,
            r.nickname_view() == nickname@,
            r.label_view() == label@,
    {
        ReplyBuffer {
            buf: Buffer::new(),
            batch: None,
            has_label: !label.is_empty(),
            domain: domain.to_owned(),
            nickname: nickname.to_owned(),
            label: label.to_owned(),
        }
    }

    /// Whether no reply text was produced yet.
    pub fn is_empty(&self) -> (b: bool)
        ensures
            b == (self.buf_view().len() == 0),
    {
        self.buf.is_empty()
    }

    /// Starts one reply message, forwarding the client tags of `tags` and
    /// attaching the pending label and the open batch id.
    pub fn tagged_message(self, tags: &str) -> (r: ReplyTagBuffer)
        ensures
            r.base_view() == self.buf_view(),
            r.tags_view() == spec_reply_tags(
                join_semi(client_tags_spec(tags@)),
                self.has_label_view(),
                self.label_view(),
                self.batch_view(),
            ),
            r.batch_view() == self.batch_view(),
            r.domain_view() == self.domain_view(),
            r.nickname_view() == self.nickname_view(),
            r.label_view() == self.label_view(),
    {
        let mut tb = self.buf.tagged_message(tags);
        if self.has_label {
            tb = tb.tag("label", Some(self.label.as_str()));
        }
        match self.batch {
            Some(b) => {
                let ds = to_dec_string(b);
                tb = tb.tag("batch", Some(ds.as_str()));
            },
            None => {},
        }
        ReplyTagBuffer {
            tb,
            batch: self.batch,
            domain: self.domain,
            nickname: self.nickname,
            label: self.label,
        }
    }

    /// Starts one reply message without client tags, with the given prefix.
    pub fn message(self, prefix: &str, command: &str) -> (r: ReplyMessageBuffer)
        ensures
            r.msg_view() == self.buf_view() + spec_reply_open(
                self.has_label_view(),
                self.label_view(),
                self.batch_view(),
                prefix@,
                command@,
            ),
            r.batch_view() == self.batch_view(),
            r.domain_view() == self.domain_view(),
            r.nickname_view() == self.nickname_view(),
            r.label_view() == self.label_view(),
    {
        proof {
            lemma_client_tags_of_empty();
        }
        self.tagged_message("").prefixed_command(prefix, command)
    }

    /// Starts one reply message prefixed with the server domain.
    pub fn prefixed_message(self, command: &str) -> (r: ReplyMessageBuffer)
        ensures
            r.msg_view() == self.buf_view() + spec_reply_open(
                self.has_label_view(),
                self.label_view(),
                self.batch_view(),
                self.domain_view(),
                command@,
            ),
            r.batch_view() == self.batch_view(),
            r.domain_view() == self.domain_view(),
            r.nickname_view() == self.nickname_view(),
            r.label_view() == self.label_view(),
    {
        let d = self.domain.clone();
        self.message(d.as_str(), command)
    }

    /// Starts one numeric reply: prefixed with the server domain, first
    /// parameter the peer's nickname.
    pub fn reply(self, r: &str) -> (m: ReplyMessageBuffer)
        ensures
            m.msg_view() == self.buf_view() + spec_reply_open(
                self.has_label_view(),
                self.label_view(),
                self.batch_view(),
                self.domain_view(),
                r@,
            ) + spec_param(self.nickname_view()),
            m.batch_view() == self.batch_view(),
            m.domain_view() == self.domain_view(),
            m.nickname_view() == self.nickname_view(),
            m.label_view() == self.label_view(),
    {
        let n = self.nickname.clone();
        self.prefixed_message(r).param(n.as_str())
    }

    /// Allocates the next batch id and makes it the open batch.
    fn new_batch(&mut self) -> (id: usize)
        requires
            old(self).batch_ok(),
        ensures
            id == (match old(self).batch_view() {
                Some(b) => b + 1,
                None => 0,
            }),
            final(self).batch_view() == Some(id),
            final(self).buf_view() == old(self).buf_view(),
            final(self).has_label_view() == old(self).has_label_view(),
            final(self).domain_view() == old(self).domain_view(),
            final(self).nickname_view() == old(self).nickname_view(),
            final(self).label_view() == old(self).label_view(),
    {
        let next = match self.batch {
            Some(prev) => prev + 1,
            None => 0,
        };
        self.batch = Some(next);
        next
    }

    /// When a label is pending, opens the `labeled-response` batch that will
    /// wrap this group's messages; otherwise does nothing.
    pub fn lr_batch_begin(self) -> (r: Self)
        requires
            self.batch_ok(),
        ensures
            !self.has_label_view() ==> r == self,
            self.has_label_view() ==> {
                let id = (match self.batch_view() {
                    Some(b) => b + 1,
                    None => 0,
                });
                &&& r.buf_view() == self.buf_view() + spec_with_tags(
                    Seq::<char>::empty(),
                    spec_tag(Seq::<char>::empty(), "label"@, Some(self.label_view())),
                ) + spec_message_start(self.domain_view(), "BATCH"@) + seq![' ', '+'] + dec_spec(
                    id as nat,
                ) + spec_param("labeled-response"@) + crlf()
                &&& r.batch_view() == Some(id as usize)
                &&& r.has_label_view() == false
                &&& r.domain_view() == self.domain_view()
                &&& r.nickname_view() == self.nickname_view()
                &&& r.label_view() == self.label_view()
            },
    {
        if !self.has_label {
            return self;
        }
        let mut this = self;
        this.has_label = false;
        let id = this.new_batch();
        let mut pstr = String::new();
        pstr.push('+');
        push_dec(&mut pstr, id);
        proof {
            lemma_client_tags_of_empty();
        }
        let buf = this.buf.tagged_message("").tag("label", Some(this.label.as_str()))
            .prefixed_command(this.domain.as_str(), "BATCH").fmt_param(pstr.as_str()).param(
            "labeled-response",
        ).end();
        proof {
            assert(seq![' '] + (seq!['+'] + dec_spec(id as nat)) =~= seq![' ', '+'] + dec_spec(
                id as nat,
            ));
        }
        ReplyBuffer {
            buf,
            batch: this.batch,
            has_label: false,
            domain: this.domain,
            nickname: this.nickname,
            label: this.label,
        }
    }

    /// Opens a nested batch of the given type; the opening message itself
    /// carries the new batch id.
    pub fn batch_begin(self, name: &str) -> (r: Self)
        requires
            self.batch_ok(),
        ensures
            ({
                let id = (match self.batch_view() {
                    Some(b) => b + 1,
                    None => 0,
                });
                &&& r.buf_view() == self.buf_view() + spec_reply_open(
                    self.has_label_view(),
                    self.label_view(),
                    Some(id as usize),
                    self.domain_view(),
                    "BATCH"@,
                ) + seq![' ', '+'] + dec_spec(id as nat) + spec_param(name@) + crlf()
                &&& r.batch_view() == Some(id as usize)
                &&& r.has_label_view() == false
                &&& r.domain_view() == self.domain_view()
                &&& r.nickname_view() == self.nickname_view()
                &&& r.label_view() == self.label_view()
            }),
    {
        let mut this = self;
        let id = this.new_batch();
        let mut pstr = String::new();
        pstr.push('+');
        push_dec(&mut pstr, id);
        let m = this.prefixed_message("BATCH").fmt_param(pstr.as_str()).param(name);
        let r = m.end();
        proof {
            assert(seq![' '] + (seq!['+'] + dec_spec(id as nat)) =~= seq![' ', '+'] + dec_spec(
                id as nat,
            ));
        }
        r
    }

    /// Closes the innermost open batch, if any.
    pub fn batch_end(self) -> (r: Self)
        ensures
            self.batch_view() is None ==> r == self,
            self.batch_view() matches Some(prev) ==> {
                let nb: Option<usize> = if prev == 0 {
                    None
                } else {
                    Some((prev - 1) as usize)
                };
                &&& r.buf_view() == self.buf_view() + spec_reply_open(
                    self.has_label_view(),
                    self.label_view(),
                    nb,
                    self.domain_view(),
                    "BATCH"@,
                ) + seq![' ', '-'] + dec_spec(prev as nat) + crlf()
                &&& r.batch_view() == nb
                &&& r.has_label_view() == false
                &&& r.domain_view() == self.domain_view()
                &&& r.nickname_view() == self.nickname_view()
                &&& r.label_view() == self.label_view()
            },
    {
        let prev = match self.batch {
            Some(prev) => prev,
            None => { return self; },
        };
        let mut this = self;
        this.batch = if prev == 0 {
            None
        } else {
            Some(prev - 1)
        };
        let mut pstr = String::new();
        pstr.push('-');
        push_dec(&mut pstr, prev);
        let m = this.prefixed_message("BATCH").fmt_param(pstr.as_str());
        let r = m.end();
        proof {
            assert(seq![' '] + (seq!['-'] + dec_spec(prev as nat)) =~= seq![' ', '-'] + dec_spec(
                prev as nat,
            ));
        }
        r
    }

    /// Ends a labeled response: closes the open batch, and when a label was
    /// supplied but no message was produced, emits the `ACK` that completes
    /// the exchange.  A batch nested deeper than the labeled-response wrapper
    /// must already be closed.
    pub fn lr_end(self) -> (r: Self)
        requires
            self.batch_view() is None || self.batch_view() == Some(0usize),
        ensures
            !self.has_label_view() && self.batch_view() is None ==> r == self,
            self.has_label_view() || self.batch_view() is Some ==> {
                let closed = if self.batch_view() == Some(0usize) {
                    self.buf_view() + spec_reply_open(
                        self.has_label_view(),
                        self.label_view(),
                        None,
                        self.domain_view(),
                        "BATCH"@,
                    ) + seq![' ', '-'] + dec_spec(0) + crlf()
                } else {
                    self.buf_view()
                };
                let hl = if self.batch_view() == Some(0usize) {
                    false
                } else {
                    self.has_label_view()
                };
                &&& r.buf_view() == (if closed.len() == 0 {
                    closed + spec_reply_open(
                        hl,
                        self.label_view(),
                        None,
                        self.domain_view(),
                        "ACK"@,
                    ) + crlf()
                } else {
                    closed
                })
                &&& r.batch_view() is None
                &&& r.has_label_view() == false
                &&& r.domain_view() == self.domain_view()
                &&& r.nickname_view() == self.nickname_view()
                &&& r.label_view() == self.label_view()
            },
    {
        if !self.has_label && matches!(self.batch, None) {
            return self;
        }
        let mut this = self;
        if matches!(this.batch, Some(_)) {
            this = this.batch_end();
        }
        if this.buf.is_empty() {
            let m = this.prefixed_message("ACK");
            this = m.end();
        }
        this.has_label = false;
        this
    }

    /// Consumes the group and returns the accumulated text.
    pub fn build(self) -> (r: String)
        ensures
            r@ == self.buf_view(),
    {
        self.buf.build()
    }

    /// Changes the nickname used by `reply`, after a rename.
    pub fn set_nick(&mut self, nickname: &str)
        ensures
            final(self).nickname_view() == nickname@,
            final(self).buf_view() == old(self).buf_view(),
            final(self).batch_view() == old(self).batch_view(),
            final(self).has_label_view() == old(self).has_label_view(),
            final(self).domain_view() == old(self).domain_view(),
            final(self).label_view() == old(self).label_view(),
    {
        self.nickname = nickname.to_owned();
    }
}

impl ReplyTagBuffer {
    pub closed spec fn base_view(&self) -> Seq<char> {
        self.tb.base_view()
    }

    pub closed spec fn tags_view(&self) -> Seq<char> {
        self.tb.tags_view()
    }

    pub closed spec fn batch_view(&self) -> Option<usize> {
        self.batch
    }

    pub closed spec fn domain_view(&self) -> Seq<char> {
        self.domain@
    }

    pub closed spec fn nickname_view(&self) -> Seq<char> {
        self.nickname@
    }

    pub closed spec fn label_view(&self) -> Seq<char> {
        self.label@
    }

    /// Adds a new tag with the given `key` and, when present, the
    /// escape-encoded `value`.
    pub fn tag(self, key: &str, value: Option<&str>) -> (r: Self)
        ensures
            r.base_view() == self.base_view(),
            r.tags_view() == spec_tag(
                self.tags_view(),
                key@,
                (match value {
                    Some(v) => Some(v@),
                    None => None,
                }),
            ),
            r.batch_view() == self.batch_view(),
            r.domain_view() == self.domain_view(),
            r.nickname_view() == self.nickname_view(),
            r.label_view() == self.label_view(),
    {
        ReplyTagBuffer {
            tb: self.tb.tag(key, value),
            batch: self.batch,
            domain: self.domain,
            nickname: self.nickname,
            label: self.label,
        }
    }

    /// Closes the tag list and starts the message body.
    pub fn prefixed_command(self, prefix: &str, cmd: &str) -> (r: ReplyMessageBuffer)
        ensures
            r.msg_view() == spec_with_tags(self.base_view(), self.tags_view())
                + spec_message_start(prefix@, cmd@),
            r.batch_view() == self.batch_view(),
            r.domain_view() == self.domain_view(),
            r.nickname_view() == self.nickname_view(),
            r.label_view() == self.label_view(),
    {
        ReplyMessageBuffer {
            mb: self.tb.prefixed_command(prefix, cmd),
            batch: self.batch,
            domain: self.domain,
            nickname: self.nickname,
            label: self.label,
        }
    }
}

impl ReplyMessageBuffer {
    pub closed spec fn msg_view(&self) -> Seq<char> {
        self.mb@
    }

    pub closed spec fn batch_view(&self) -> Option<usize> {
        self.batch
    }

    pub closed spec fn domain_view(&self) -> Seq<char> {
        self.domain@
    }

    pub closed spec fn nickname_view(&self) -> Seq<char> {
        self.nickname@
    }

    pub closed spec fn label_view(&self) -> Seq<char> {
        self.label@
    }

    /// All metadata unchanged between `self` and `r`.
    pub open spec fn same_meta(&self, r: &ReplyMessageBuffer) -> bool {
        r.batch_view() == self.batch_view() && r.domain_view() == self.domain_view()
            && r.nickname_view() == self.nickname_view() && r.label_view() == self.label_view()
    }

    /// Appends a parameter, trimmed; a parameter that trims to nothing is
    /// dropped silently.
    pub fn param(self, param: &str) -> (r: Self)
        ensures
            r.msg_view() == self.msg_view() + spec_param(param@),
            self.same_meta(&r),
    {
        ReplyMessageBuffer {
            mb: self.mb.param(param),
            batch: self.batch,
            domain: self.domain,
            nickname: self.nickname,
            label: self.label,
        }
    }

    /// Appends a parameter verbatim.
    pub fn fmt_param(self, param: &str) -> (r: Self)
        ensures
            r.msg_view() == self.msg_view() + seq![' '] + param@,
            self.same_meta(&r),
    {
        ReplyMessageBuffer {
            mb: self.mb.fmt_param(param),
            batch: self.batch,
            domain: self.domain,
            nickname: self.nickname,
            label: self.label,
        }
    }

    /// Appends a space and the given raw text, verbatim.
    pub fn raw_param(self, raw: &str) -> (r: Self)
        ensures
            r.msg_view() == self.msg_view() + seq![' '] + raw@,
            self.same_meta(&r),
    {
        ReplyMessageBuffer {
            mb: self.mb.raw_param(raw),
            batch: self.batch,
            domain: self.domain,
            nickname: self.nickname,
            label: self.label,
        }
    }

    /// Appends the trailing parameter and closes the message, giving the
    /// reply group back; the pending label, if any, was consumed when this
    /// message started.
    pub fn trailing_param(self, param: &str) -> (r: ReplyBuffer)
        ensures
            r.buf_view() == self.msg_view() + spec_trailing(param@) + crlf(),
            r.batch_view() == self.batch_view(),
            r.has_label_view() == false,
            r.domain_view() == self.domain_view(),
            r.nickname_view() == self.nickname_view(),
            r.label_view() == self.label_view(),
    {
        ReplyBuffer {
            buf: self.mb.trailing_param(param),
            batch: self.batch,
            has_label: false,
            domain: self.domain,
            nickname: self.nickname,
            label: self.label,
        }
    }

    /// Closes the message without a trailing parameter.
    pub fn end(self) -> (r: ReplyBuffer)
        ensures
            r.buf_view() == self.msg_view() + crlf(),
            r.batch_view() == self.batch_view(),
            r.has_label_view() == false,
            r.domain_view() == self.domain_view(),
            r.nickname_view() == self.nickname_view(),
            r.label_view() == self.label_view(),
    {
        ReplyBuffer {
            buf: self.mb.end(),
            batch: self.batch,
            has_label: false,
            domain: self.domain,
            nickname: self.nickname,
            label: self.label,
        }
    }
}

} // verus!
