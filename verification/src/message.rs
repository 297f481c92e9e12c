//! Wire-format message parsing: one line (without its CRLF terminator) into
//! tags, prefix, command and parameters, with the tag-value escapes undone.

use crate::buffers::split_semi;
use vstd::prelude::*;
use vstd::string::{StrSliceExecFns, StringExecFns};

verus! {

/// The position of the first `c` in `s`, or the length when absent.
pub open spec fn find_idx(s: Seq<char>, c: char) -> int
    decreases s.len(),
{
    if s.len() == 0 {
        0
    } else if s[0] == c {
        0
    } else {
        1 + find_idx(s.drop_first(), c)
    }
}

pub proof fn lemma_find_idx(s: Seq<char>, c: char)
    ensures
        0 <= find_idx(s, c) <= s.len(),
        find_idx(s, c) < s.len() ==> s[find_idx(s, c)] == c,
        forall|k: int| 0 <= k < find_idx(s, c) ==> s[k] != c,
    decreases s.len(),
{
    if s.len() > 0 && s[0] != c {
        lemma_find_idx(s.drop_first(), c);
        assert(forall|k: int| 1 <= k < s.len() ==> s[k] == s.drop_first()[k - 1]);
    }
}

/// `s` without its leading spaces.
pub open spec fn skip_sp(s: Seq<char>) -> Seq<char>
    decreases s.len(),
{
    if s.len() > 0 && s[0] == ' ' {
        skip_sp(s.drop_first())
    } else {
        s
    }
}

pub proof fn lemma_skip_sp(s: Seq<char>)
    ensures
        skip_sp(s).len() <= s.len(),
        skip_sp(s).len() > 0 ==> skip_sp(s)[0] != ' ',
    decreases s.len(),
{
    if s.len() > 0 && s[0] == ' ' {
        lemma_skip_sp(s.drop_first());
    }
}

/// The wire escapes undone: `\:` is `;`, `\s` a space, `\r` CR, `\n` LF,
/// `\\` a backslash; a backslash before any other character is dropped, and
/// one at the end of the value disappears.
pub open spec fn unescape_spec(s: Seq<char>) -> Seq<char>
    decreases s.len(),
{
    if s.len() == 0 {
        Seq::<char>::empty()
    } else if s[0] == '\\' {
        if s.len() == 1 {
            Seq::<char>::empty()
        } else {
            let c = s[1];
            let m = if c == ':' {
                ';'
            } else if c == 's' {
                ' '
            } else if c == 'r' {
                '\r'
            } else if c == 'n' {
                '\n'
            } else {
                c
            };
            seq![m] + unescape_spec(s.skip(2))
        }
    } else {
        seq![s[0]] + unescape_spec(s.drop_first())
    }
}

/// The abstract value of an owned tag list.
pub open spec fn tags_view(ts: Seq<(String, Option<String>)>) -> Seq<
    (Seq<char>, Option<Seq<char>>),
> {
    Seq::new(
        ts.len(),
        |i: int|
            (
                ts[i].0@,
                (match ts[i].1 {
                    Some(v) => Some(v@),
                    None => None,
                }),
            ),
    )
}

/// The abstract value of an owned string list.
pub open spec fn strs_view(v: Seq<String>) -> Seq<Seq<char>> {
    Seq::new(v.len(), |i: int| v[i]@)
}

/// One raw tag token parsed: the key, and the unescaped value when `=` is
/// present.
pub open spec fn spec_tag_of(t: Seq<char>) -> (Seq<char>, Option<Seq<char>>) {
    let i = find_idx(t, '=');
    if i == t.len() {
        (t, None)
    } else {
        (t.take(i), Some(unescape_spec(t.skip(i + 1))))
    }
}

/// Each raw token parsed.
pub open spec fn tags_of_tokens(toks: Seq<Seq<char>>) -> Seq<(Seq<char>, Option<Seq<char>>)> {
    Seq::new(toks.len(), |i: int| spec_tag_of(toks[i]))
}

/// A raw tag list parsed into keys and unescaped values.
pub open spec fn spec_parse_tags(raw: Seq<char>) -> Seq<(Seq<char>, Option<Seq<char>>)> {
    if raw.len() == 0 {
        Seq::<(Seq<char>, Option<Seq<char>>)>::empty()
    } else {
        tags_of_tokens(split_semi(raw))
    }
}

/// The parameter list of the remainder `s` (no leading space): plain
/// parameters until one starts with `:`, which opens the trailing parameter
/// holding the rest of the line verbatim.
pub open spec fn spec_parse_params(s: Seq<char>) -> Seq<Seq<char>>
    decreases s.len(),
{
    if s.len() == 0 {
        Seq::<Seq<char>>::empty()
    } else if s[0] == ':' {
        seq![s.drop_first()]
    } else {
        let i = find_idx(s, ' ');
        let tok = s.take(i);
        let rest = skip_sp(s.skip(i));
        if rest.len() < s.len() {
            seq![tok] + spec_parse_params(rest)
        } else {
            seq![tok]
        }
    }
}

/// The abstract value of a parsed message.
#[verifier::ext_equal]
pub struct MessageView {
    pub tags: Seq<(Seq<char>, Option<Seq<char>>)>,
    pub prefix: Option<Seq<char>>,
    pub command: Seq<char>,
    pub params: Seq<Seq<char>>,
}

/// What parsing one line yields: `Some` exactly when a non-empty command
/// token remains once tags and prefix are taken off the front.
pub open spec fn spec_parse(line: Seq<char>) -> Option<MessageView> {
    let (rawtags, r1): (Seq<char>, Seq<char>) = if line.len() > 0 && line[0] == '@' {
        let t = line.drop_first();
        let i = find_idx(t, ' ');
        (t.take(i), skip_sp(t.skip(i)))
    } else {
        (Seq::<char>::empty(), line)
    };
    let (prefix, r2): (Option<Seq<char>>, Seq<char>) = if r1.len() > 0 && r1[0] == ':' {
        let t = r1.drop_first();
        let i = find_idx(t, ' ');
        (Some(t.take(i)), skip_sp(t.skip(i)))
    } else {
        (None, r1)
    };
    let i = find_idx(r2, ' ');
    let cmd = r2.take(i);
    let rest = skip_sp(r2.skip(i));
    if cmd.len() == 0 {
        None
    } else {
        Some(
            MessageView {
                tags: spec_parse_tags(rawtags),
                prefix,
                command: cmd,
                params: spec_parse_params(rest),
            },
        )
    }
}

/// Undoing the escapes gives the value back: what `write_escaped` writes,
/// parsing reads.
pub proof fn lemma_unescape_escape(s: Seq<char>)
    ensures
        unescape_spec(crate::buffers::escape_spec(s)) == s,
    decreases s.len(),
{
    if s.len() == 0 {
        assert(crate::buffers::escape_spec(s) =~= Seq::<char>::empty());
        assert(unescape_spec(crate::buffers::escape_spec(s)) =~= s);
    } else {
        let c = s[0];
        let ec = crate::buffers::escape_char(c);
        let e = crate::buffers::escape_spec(s);
        lemma_unescape_escape(s.drop_first());
        assert(e == ec + crate::buffers::escape_spec(s.drop_first()));
        if c == ';' || c == ' ' || c == '\r' || c == '\n' || c == '\\' {
            assert(ec.len() == 2 && ec[0] == '\\');
            assert(e[0] == '\\');
            assert(e.len() >= 2);
            assert(e[1] == ec[1]);
            assert(e.skip(2) =~= crate::buffers::escape_spec(s.drop_first()));
            assert(unescape_spec(e) =~= s);
        } else {
            assert(ec =~= seq![c]);
            assert(e[0] == c);
            assert(c != '\\');
            assert(e.drop_first() =~= crate::buffers::escape_spec(s.drop_first()));
            assert(unescape_spec(e) =~= s);
        }
    }
}

/// A token with no space, no leading `:`, and at least one character: what a
/// well-formed command or middle parameter looks like on the wire.
pub open spec fn plain_token(t: Seq<char>) -> bool {
    t.len() > 0 && t[0] != ':' && (forall|i: int| 0 <= i < t.len() ==> t[i] != ' ')
}

/// The wire text after the command: each parameter behind one space, then
/// the trailing parameter behind ` :`.
pub open spec fn render_params(params: Seq<Seq<char>>, trailing: Option<Seq<char>>) -> Seq<char>
    decreases params.len(),
{
    if params.len() == 0 {
        match trailing {
            Some(t) => seq![' ', ':'] + t,
            None => Seq::<char>::empty(),
        }
    } else {
        seq![' '] + params[0] + render_params(params.drop_first(), trailing)
    }
}

/// One whole message as the builder writes it, without the CRLF terminator.
pub open spec fn spec_render(
    prefix: Seq<char>,
    cmd: Seq<char>,
    params: Seq<Seq<char>>,
    trailing: Option<Seq<char>>,
) -> Seq<char> {
    crate::buffers::spec_message_start(prefix, cmd) + render_params(params, trailing)
}

/// The parameter sequence the parse of such a message must yield.
pub open spec fn expected_params(params: Seq<Seq<char>>, trailing: Option<Seq<char>>) -> Seq<
    Seq<char>,
> {
    params + (match trailing {
        Some(t) => seq![t],
        None => Seq::<Seq<char>>::empty(),
    })
}

proof fn lemma_skip_sp_one(x: Seq<char>)
    requires
        x.len() == 0 || x[0] != ' ',
    ensures
        skip_sp(seq![' '] + x) == x,
{
    let s = seq![' '] + x;
    assert(s[0] == ' ');
    assert(s.drop_first() =~= x);
    assert(skip_sp(s) == skip_sp(s.drop_first()));
    if x.len() == 0 {
        assert(skip_sp(x) == x);
    } else {
        assert(x[0] != ' ');
        assert(skip_sp(x) == x);
    }
}

/// Parsing the rendered parameter text gives the parameters back.
proof fn lemma_parse_params_render(params: Seq<Seq<char>>, trailing: Option<Seq<char>>)
    requires
        forall|i: int| 0 <= i < params.len() ==> plain_token(#[trigger] params[i]),
    ensures
        ({
            let r = if params.len() == 0 {
                match trailing {
                    Some(t) => seq![':'] + t,
                    None => Seq::<char>::empty(),
                }
            } else {
                params[0] + render_params(params.drop_first(), trailing)
            };
            spec_parse_params(r) == expected_params(params, trailing)
        }),
    decreases params.len(),
{
    if params.len() == 0 {
        match trailing {
            Some(t) => {
                let r = seq![':'] + t;
                assert(r[0] == ':');
                assert(r.drop_first() =~= t);
                assert(spec_parse_params(r) =~= expected_params(params, trailing));
            },
            None => {
                assert(spec_parse_params(Seq::<char>::empty()) =~= expected_params(
                    params,
                    trailing,
                ));
            },
        }
    } else {
        let p0 = params[0];
        let tail = render_params(params.drop_first(), trailing);
        let r = p0 + tail;
        assert(plain_token(p0));
        assert(r[0] == p0[0]);
        assert(r[0] != ':');
        if params.len() == 1 && trailing is None {
            assert(tail =~= Seq::<char>::empty());
            assert(r =~= p0);
            lemma_find_idx_none(r, ' ');
            assert(r.take(find_idx(r, ' ')) =~= p0);
            assert(r.skip(find_idx(r, ' ')) =~= Seq::<char>::empty());
            assert(skip_sp(Seq::<char>::empty()) =~= Seq::<char>::empty());
            assert(spec_parse_params(Seq::<char>::empty()) =~= Seq::<Seq<char>>::empty());
            assert(spec_parse_params(r) =~= expected_params(params, trailing));
        } else {
            // The tail starts with a space, then the next token or `:`.
            let x = if params.len() > 1 {
                params.drop_first()[0] + render_params(params.drop_first().drop_first(), trailing)
            } else {
                match trailing {
                    Some(t) => seq![':'] + t,
                    None => Seq::<char>::empty(),
                }
            };
            if params.len() > 1 {
                assert(plain_token(params.drop_first()[0]));
                assert(render_params(params.drop_first(), trailing) == seq![' ']
                    + params.drop_first()[0] + render_params(
                    params.drop_first().drop_first(),
                    trailing,
                ));
                assert(tail =~= seq![' '] + x);
                assert(x[0] == params.drop_first()[0][0]);
                assert(x.len() == 0 || x[0] != ' ');
            } else {
                let t = trailing->Some_0;
                assert(tail =~= seq![' '] + x);
                assert(x[0] == ':');
            }
            assert(r =~= p0 + seq![' '] + x);
            assert(r[p0.len() as int] == ' ');
            assert(forall|k: int| 0 <= k < p0.len() ==> r[k] == p0[k] && r[k] != ' ');
            lemma_find_idx_at(r, ' ', p0.len() as int);
            assert(r.take(find_idx(r, ' ')) =~= p0);
            assert(r.skip(find_idx(r, ' ')) =~= seq![' '] + x);
            lemma_skip_sp_one(x);
            lemma_parse_params_render(params.drop_first(), trailing);
            assert(forall|i: int|
                0 <= i < params.drop_first().len() ==> plain_token(
                    #[trigger] params.drop_first()[i],
                ));
            assert(x.len() < r.len());
            assert(spec_parse_params(r) == seq![p0] + spec_parse_params(x));
            assert(spec_parse_params(x) == expected_params(params.drop_first(), trailing));
            assert(spec_parse_params(r) =~= expected_params(params, trailing));
        }
    }
}

/// Parsing a message the builder wrote gives the same prefix, command and
/// parameter sequence back: the tagless round trip.  A whitespace-only
/// parameter cannot appear here: `param` drops it at build time, so it is
/// not a well-formed token.
pub proof fn lemma_build_parse_round_trip(
    prefix: Seq<char>,
    cmd: Seq<char>,
    params: Seq<Seq<char>>,
    trailing: Option<Seq<char>>,
)
    requires
        plain_token(cmd),
        cmd[0] != '@',
        forall|i: int| 0 <= i < prefix.len() ==> prefix[i] != ' ',
        forall|i: int| 0 <= i < params.len() ==> plain_token(#[trigger] params[i]),
    ensures
        spec_parse(spec_render(prefix, cmd, params, trailing)) == Some(
            MessageView {
                tags: Seq::<(Seq<char>, Option<Seq<char>>)>::empty(),
                prefix: (if prefix.len() == 0 {
                    None
                } else {
                    Some(prefix)
                }),
                command: cmd,
                params: expected_params(params, trailing),
            },
        ),
{
    let line = spec_render(prefix, cmd, params, trailing);
    let body = cmd + render_params(params, trailing);
    // After the prefix, the command and its parameters.
    if prefix.len() == 0 {
        assert(line =~= body);
    } else {
        assert(line =~= seq![':'] + prefix + seq![' '] + body);
    }
    assert(body[0] == cmd[0]);
    assert(line[0] != '@');
    // No tags, so the whole line remains.
    let r1 = line;
    let r2: Seq<char> = if prefix.len() == 0 {
        line
    } else {
        assert(line[0] == ':');
        let t = line.drop_first();
        assert(t =~= prefix + seq![' '] + body);
        assert(t[prefix.len() as int] == ' ');
        assert(forall|k: int| 0 <= k < prefix.len() ==> t[k] == prefix[k] && t[k] != ' ');
        lemma_find_idx_at(t, ' ', prefix.len() as int);
        assert(t.take(find_idx(t, ' ')) =~= prefix);
        assert(t.skip(find_idx(t, ' ')) =~= seq![' '] + body);
        lemma_skip_sp_one(body);
        body
    };
    assert(r2 == body);
    // The command token.
    let rp = render_params(params, trailing);
    if params.len() == 0 && trailing is None {
        assert(rp =~= Seq::<char>::empty());
        assert(body =~= cmd);
        lemma_find_idx_none(body, ' ');
        assert(body.take(find_idx(body, ' ')) =~= cmd);
        assert(body.skip(find_idx(body, ' ')) =~= Seq::<char>::empty());
        lemma_parse_params_render(params, trailing);
        assert(spec_parse(line) matches Some(mv) && mv =~= MessageView {
            tags: Seq::<(Seq<char>, Option<Seq<char>>)>::empty(),
            prefix: (if prefix.len() == 0 {
                None
            } else {
                Some(prefix)
            }),
            command: cmd,
            params: expected_params(params, trailing),
        });
    } else {
        let x: Seq<char> = if params.len() > 0 {
            params[0] + render_params(params.drop_first(), trailing)
        } else {
            seq![':'] + trailing->Some_0
        };
        if params.len() > 0 {
            assert(rp =~= seq![' '] + x);
            assert(x[0] == params[0][0]);
            assert(x[0] != ' ');
        } else {
            assert(rp =~= seq![' '] + x);
            assert(x[0] == ':');
        }
        assert(body =~= cmd + seq![' '] + x);
        assert(body[cmd.len() as int] == ' ');
        assert(forall|k: int| 0 <= k < cmd.len() ==> body[k] == cmd[k] && body[k] != ' ');
        lemma_find_idx_at(body, ' ', cmd.len() as int);
        assert(body.take(find_idx(body, ' ')) =~= cmd);
        assert(body.skip(find_idx(body, ' ')) =~= seq![' '] + x);
        lemma_skip_sp_one(x);
        lemma_parse_params_render(params, trailing);
        assert(spec_parse_params(x) == expected_params(params, trailing));
        assert(spec_parse(line) matches Some(mv) && mv =~= MessageView {
            tags: Seq::<(Seq<char>, Option<Seq<char>>)>::empty(),
            prefix: (if prefix.len() == 0 {
                None
            } else {
                Some(prefix)
            }),
            command: cmd,
            params: expected_params(params, trailing),
        });
    }
}

/// A parsed IRC message.
pub struct Message {
    /// The tags, with their values unescaped.
    pub tags: Vec<(String, Option<String>)>,
    /// The prefix naming the originator, when present.
    pub prefix: Option<String>,
    /// The command or numeric token.
    pub command: String,
    /// The parameters, the trailing one last.
    pub params: Vec<String>,
}

impl View for Message {
    type V = MessageView;

    open spec fn view(&self) -> MessageView {
        MessageView {
            tags: tags_view(self.tags@),
            prefix: (match self.prefix {
                Some(ref p) => Some(p@),
                None => None,
            }),
            command: self.command@,
            params: strs_view(self.params@),
        }
    }
}

/// The position of the first `c` at or after `from` in `v`, or the length.
fn find_from(v: &Vec<char>, from: usize, c: char) -> (r: usize)
    requires
        from <= v@.len(),
    ensures
        r as int == from + find_idx(v@.skip(from as int), c),
        from <= r <= v@.len(),
{
    let mut i = from;
    while i < v.len()
        invariant
            from <= i <= v@.len(),
            forall|k: int| from <= k < i ==> v@[k] != c,
        decreases v@.len() - i,
    {
        if v[i] == c {
            proof {
                lemma_find_idx_at(v@.skip(from as int), c, i - from);
            }
            return i;
        }
        i = i + 1;
    }
    proof {
        lemma_find_idx_none(v@.skip(from as int), c);
    }
    v.len()
}

proof fn lemma_find_idx_at(s: Seq<char>, c: char, i: int)
    requires
        0 <= i < s.len(),
        s[i] == c,
        forall|k: int| 0 <= k < i ==> s[k] != c,
    ensures
        find_idx(s, c) == i,
    decreases s.len(),
{
    if i > 0 {
        lemma_find_idx_at(s.drop_first(), c, i - 1);
    }
}

proof fn lemma_find_idx_none(s: Seq<char>, c: char)
    requires
        forall|k: int| 0 <= k < s.len() ==> s[k] != c,
    ensures
        find_idx(s, c) == s.len(),
    decreases s.len(),
{
    if s.len() > 0 {
        lemma_find_idx_none(s.drop_first(), c);
    }
}

/// The position of the first non-space at or after `from`, or the length.
fn skip_spaces(v: &Vec<char>, from: usize) -> (r: usize)
    requires
        from <= v@.len(),
    ensures
        from <= r <= v@.len(),
        v@.skip(r as int) == skip_sp(v@.skip(from as int)),
    decreases v@.len() - from,
{
    if from < v.len() && v[from] == ' ' {
        proof {
            assert(v@.skip(from as int).drop_first() =~= v@.skip(from + 1));
        }
        skip_spaces(v, from + 1)
    } else {
        proof {
            if from < v@.len() {
                assert(v@.skip(from as int)[0] == v@[from as int]);
            }
        }
        from
    }
}

/// The characters of `v` from `a` (inclusive) to `b` (exclusive), as a string.
fn collect_range(v: &Vec<char>, a: usize, b: usize) -> (r: String)
    requires
        a <= b <= v@.len(),
    ensures
        r@ == v@.subrange(a as int, b as int),
{
    let mut out = String::new();
    let mut i = a;
    while i < b
        invariant
            a <= i <= b <= v@.len(),
            out@ == v@.subrange(a as int, i as int),
        decreases b - i,
    {
        out.push(v[i]);
        proof {
            assert(out@ =~= v@.subrange(a as int, i + 1));
        }
        i = i + 1;
    }
    out
}

/// Appends the unescaped form of `v[a..b]` to a fresh string.
fn unescape_range(v: &Vec<char>, a: usize, b: usize) -> (r: String)
    requires
        a <= b <= v@.len(),
    ensures
        r@ == unescape_spec(v@.subrange(a as int, b as int)),
    decreases b - a,
{
    let ghost s = v@.subrange(a as int, b as int);
    if a == b {
        proof {
            assert(s =~= Seq::<char>::empty());
        }
        return String::new();
    }
    proof {
        assert(s[0] == v@[a as int]);
    }
    if v[a] == '\\' {
        if a + 1 == b {
            proof {
                assert(s.len() == 1);
            }
            return String::new();
        }
        proof {
            assert(s[1] == v@[a + 1]);
        }
        let c = v[a + 1];
        let m = if c == ':' {
            ';'
        } else if c == 's' {
            ' '
        } else if c == 'r' {
            '\r'
        } else if c == 'n' {
            '\n'
        } else {
            c
        };
        let mut out = String::new();
        out.push(m);
        let rest = unescape_range(v, a + 2, b);
        out.append(rest.as_str());
        proof {
            assert(s.skip(2) =~= v@.subrange(a + 2, b as int));
            assert(out@ =~= unescape_spec(s));
        }
        out
    } else {
        let mut out = String::new();
        out.push(v[a]);
        let rest = unescape_range(v, a + 1, b);
        out.append(rest.as_str());
        proof {
            assert(s.drop_first() =~= v@.subrange(a + 1, b as int));
            assert(out@ =~= unescape_spec(s));
        }
        out
    }
}

/// One raw tag token parsed: the key, and the unescaped value when `=` is
/// present.
fn tag_of(t: &String) -> (r: (String, Option<String>))
    ensures
        (
            r.0@,
            (match r.1 {
                Some(ref x) => Some(x@),
                None => None,
            }),
        ) == spec_tag_of(t@),
{
    let cs = chars_of(t.as_str());
    let eq = find_from(&cs, 0, '=');
    proof {
        assert(cs@.skip(0) =~= t@);
        lemma_find_idx(t@, '=');
    }
    if eq == cs.len() {
        proof {
            assert(t@.subrange(0, t@.len() as int) =~= t@);
        }
        (collect_range(&cs, 0, cs.len()), None)
    } else {
        proof {
            assert(cs@.subrange(0, eq as int) =~= t@.take(eq as int));
            assert(cs@.subrange(eq + 1, cs@.len() as int) =~= t@.skip(eq + 1));
        }
        (collect_range(&cs, 0, eq), Some(unescape_range(&cs, eq + 1, cs.len())))
    }
}

/// The characters of `s`, as a vector.
fn chars_of(s: &str) -> (v: Vec<char>)
    ensures
        v@ == s@,
{
    let n = s.unicode_len();
    let mut v: Vec<char> = Vec::new();
    let mut i: usize = 0;
    while i < n
        invariant
            0 <= i <= n,
            n == s@.len(),
            v@ == s@.take(i as int),
        decreases n - i,
    {
        v.push(s.get_char(i));
        proof {
            assert(v@ =~= s@.take(i + 1));
        }
        i = i + 1;
    }
    proof {
        assert(s@.take(n as int) =~= s@);
    }
    v
}

/// Parses a raw tag list into keys and unescaped values.
fn parse_tags(raw: &str) -> (r: Vec<(String, Option<String>)>)
    ensures
        tags_view(r@) == spec_parse_tags(raw@),
{
    let mut out: Vec<(String, Option<String>)> = Vec::new();
    if raw.is_empty() {
        proof {
            assert(tags_view(out@) =~= spec_parse_tags(raw@));
        }
        return out;
    }
    let toks = crate::buffers::split_semicolons(raw);
    let ghost tv = toks.deep_view();
    let mut i: usize = 0;
    while i < toks.len()
        invariant
            0 <= i <= toks@.len(),
            toks.deep_view() == tv,
            tv == split_semi(raw@),
            tv.len() == toks@.len(),
            out@.len() == i,
            tags_view(out@) == tags_of_tokens(tv.take(i as int)),
        decreases toks@.len() - i,
    {
        proof {
            assert(toks.deep_view()[i as int] == toks@[i as int].deep_view());
            assert(tv[i as int] == toks@[i as int]@);
        }
        let entry = tag_of(&toks[i]);
        let ghost out0 = out@;
        let ghost e = entry;
        out.push(entry);
        proof {
            assert(out@ == out0.push(e));
            assert forall|k: int| 0 <= k < i + 1 implies tags_view(out@)[k] == tags_of_tokens(
                tv.take(i + 1),
            )[k] by {
                assert(tags_of_tokens(tv.take(i + 1))[k] == spec_tag_of(tv.take(i + 1)[k]));
                assert(tv.take(i + 1)[k] == tv[k]);
                if k < i as int {
                    assert(out@[k] == out0[k]);
                    assert(tags_view(out0)[k] == tags_of_tokens(tv.take(i as int))[k]);
                    assert(tags_of_tokens(tv.take(i as int))[k] == spec_tag_of(
                        tv.take(i as int)[k],
                    ));
                } else {
                    assert(out@[k] == e);
                    assert(tags_view(out@)[k] == (
                        e.0@,
                        (match e.1 {
                            Some(ref x) => Some(x@),
                            None => None,
                        }),
                    ));
                }
            }
            assert(tags_view(out@) =~= tags_of_tokens(tv.take(i + 1)));
        }
        i = i + 1;
    }
    proof {
        assert(tv.take(toks@.len() as int) =~= tv);
        assert(raw@.len() > 0);
    }
    out
}

/// Parses the parameters of the remainder `v[a..]`, which starts on a
/// non-space.
fn parse_params_from(v: &Vec<char>, a: usize) -> (r: Vec<String>)
    requires
        a <= v@.len(),
        v@.skip(a as int).len() > 0 ==> v@.skip(a as int)[0] != ' ',
    ensures
        strs_view(r@) == spec_parse_params(v@.skip(a as int)),
    decreases v@.len() - a,
{
    let ghost s = v@.skip(a as int);
    let mut out: Vec<String> = Vec::new();
    if a == v.len() {
        proof {
            assert(s =~= Seq::<char>::empty());
            assert(strs_view(out@) =~= spec_parse_params(s));
        }
        return out;
    }
    proof {
        assert(s[0] == v@[a as int]);
    }
    if v[a] == ':' {
        let trail = collect_range(v, a + 1, v.len());
        out.push(trail);
        proof {
            assert(s.drop_first() =~= v@.subrange(a + 1, v@.len() as int));
            assert(strs_view(out@) =~= spec_parse_params(s));
        }
        return out;
    }
    let sp = find_from(v, a, ' ');
    proof {
        lemma_find_idx(s, ' ');
        assert(v@.subrange(a as int, sp as int) =~= s.take(find_idx(s, ' ')));
    }
    let tok = collect_range(v, a, sp);
    let next = skip_spaces(v, sp);
    proof {
        assert(v@.skip(sp as int) =~= s.skip(find_idx(s, ' ')));
        lemma_skip_sp(s.skip(find_idx(s, ' ')));
        assert(v@.skip(next as int) == skip_sp(s.skip(find_idx(s, ' '))));
        assert(next > a);
    }
    let mut rest = parse_params_from(v, next);
    out.push(tok);
    let ghost out1 = out@;
    let ghost restu = rest@;
    out.append(&mut rest);
    proof {
        assert(out@ == out1 + restu);
        assert forall|m: int| 0 <= m < out@.len() implies strs_view(out@)[m] == (strs_view(out1)
            + strs_view(restu))[m] by {
            if m < out1.len() {
                assert(out@[m] == out1[m]);
                assert(strs_view(out1)[m] == out1[m]@);
            } else {
                assert(out@[m] == restu[m - out1.len()]);
                assert(strs_view(restu)[m - out1.len()] == restu[m - out1.len()]@);
            }
        }
        assert(strs_view(out@) =~= strs_view(out1) + strs_view(restu));
    }
    proof {
        assert(strs_view(out1) =~= seq![s.take(find_idx(s, ' '))]);
        let srest = skip_sp(s.skip(find_idx(s, ' ')));
        assert(srest.len() < s.len());
        assert(strs_view(restu) == spec_parse_params(srest));
        assert(strs_view(out@) =~= spec_parse_params(s));
    }
    out
}

impl Message {
    /// Parses one line, without its CRLF terminator: `Some` exactly when a
    /// non-empty command token remains once tags and prefix are taken off.
    #[verifier::rlimit(100)]
    #[verifier::spinoff_prover]
    pub fn parse(line: &str) -> (r: Option<Message>)
        ensures
            (match r {
                Some(m) => spec_parse(line@) == Some(m@),
                None => spec_parse(line@) is None,
            }),
    {
        let v = chars_of(line);
        proof {
            assert(v@.skip(0) =~= line@);
        }
        // Tags.
        let mut pos: usize = 0;
        let mut rawtags = String::new();
        if v.len() > 0 && v[0] == '@' {
            let sp = find_from(&v, 1, ' ');
            proof {
                assert(v@.drop_first() =~= v@.skip(1));
                assert(v@.subrange(1, sp as int) =~= v@.skip(1).take(find_idx(v@.skip(1), ' ')));
            }
            rawtags = collect_range(&v, 1, sp);
            pos = skip_spaces(&v, sp);
            proof {
                assert(v@.skip(sp as int) =~= v@.skip(1).skip(find_idx(v@.skip(1), ' ')));
            }
        }
        let ghost r1 = v@.skip(pos as int);
        // Prefix.
        let mut prefix: Option<String> = None;
        if pos < v.len() && v[pos] == ':' {
            let sp = find_from(&v, pos + 1, ' ');
            proof {
                assert(r1.drop_first() =~= v@.skip(pos + 1));
                assert(v@.subrange(pos + 1, sp as int) =~= r1.drop_first().take(
                    find_idx(r1.drop_first(), ' '),
                ));
            }
            prefix = Some(collect_range(&v, pos + 1, sp));
            let npos = skip_spaces(&v, sp);
            proof {
                assert(v@.skip(sp as int) =~= r1.drop_first().skip(
                    find_idx(r1.drop_first(), ' '),
                ));
            }
            pos = npos;
        }
        let ghost r2 = v@.skip(pos as int);
        // Command.
        let sp = find_from(&v, pos, ' ');
        proof {
            assert(v@.subrange(pos as int, sp as int) =~= r2.take(find_idx(r2, ' ')));
        }
        if sp == pos {
            return None;
        }
        let command = collect_range(&v, pos, sp);
        let rest = skip_spaces(&v, sp);
        proof {
            assert(v@.skip(sp as int) =~= r2.skip(find_idx(r2, ' ')));
            lemma_skip_sp(r2.skip(find_idx(r2, ' ')));
        }
        let params = parse_params_from(&v, rest);
        let tags = parse_tags(rawtags.as_str());
        let m = Message { tags, prefix, command, params };
        proof {
            let sp_ = spec_parse(line@);
            assert(sp_ is Some);
            assert(sp_->Some_0.command == m@.command);
            assert(sp_->Some_0.prefix == m@.prefix);
            assert(sp_->Some_0.params == m@.params);
            assert(sp_->Some_0.tags == m@.tags);
            assert(sp_->Some_0 =~= m@);
        }
        Some(m)
    }
}

} // verus!
