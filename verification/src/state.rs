//! The process-wide server state: the peer table, the case-folded nickname
//! index, the channel table, and the lifecycle operations on them.  The
//! table invariants: member ids of every channel exist in the peer table, no
//! channel is empty, and the nickname index is a bijection with the peers
//! whose nickname is set.

use crate::channel::{chan_view_wf, find_member_idx, Channel, ChannelView, MemberModes};
use crate::config;
use vstd::prelude::*;
use vstd::string::StrSliceExecFns;

verus! {

/// ASCII case folding of one character.
pub open spec fn fold_char(c: char) -> char {
    if c == 'A' {
        'a'
    } else if c == 'B' {
        'b'
    } else if c == 'C' {
        'c'
    } else if c == 'D' {
        'd'
    } else if c == 'E' {
        'e'
    } else if c == 'F' {
        'f'
    } else if c == 'G' {
        'g'
    } else if c == 'H' {
        'h'
    } else if c == 'I' {
        'i'
    } else if c == 'J' {
        'j'
    } else if c == 'K' {
        'k'
    } else if c == 'L' {
        'l'
    } else if c == 'M' {
        'm'
    } else if c == 'N' {
        'n'
    } else if c == 'O' {
        'o'
    } else if c == 'P' {
        'p'
    } else if c == 'Q' {
        'q'
    } else if c == 'R' {
        'r'
    } else if c == 'S' {
        's'
    } else if c == 'T' {
        't'
    } else if c == 'U' {
        'u'
    } else if c == 'V' {
        'v'
    } else if c == 'W' {
        'w'
    } else if c == 'X' {
        'x'
    } else if c == 'Y' {
        'y'
    } else if c == 'Z' {
        'z'
    } else {
        c
    }
}

/// ASCII case folding of a nickname or channel name.
pub open spec fn fold_spec(s: Seq<char>) -> Seq<char> {
    Seq::new(s.len(), |i: int| fold_char(s[i]))
}

/// The ASCII case folding of one character.
fn fold_char_exec(c: char) -> (r: char)
    ensures
        r == fold_char(c),
{
    if c == 'A' {
        'a'
    } else if c == 'B' {
        'b'
    } else if c == 'C' {
        'c'
    } else if c == 'D' {
        'd'
    } else if c == 'E' {
        'e'
    } else if c == 'F' {
        'f'
    } else if c == 'G' {
        'g'
    } else if c == 'H' {
        'h'
    } else if c == 'I' {
        'i'
    } else if c == 'J' {
        'j'
    } else if c == 'K' {
        'k'
    } else if c == 'L' {
        'l'
    } else if c == 'M' {
        'm'
    } else if c == 'N' {
        'n'
    } else if c == 'O' {
        'o'
    } else if c == 'P' {
        'p'
    } else if c == 'Q' {
        'q'
    } else if c == 'R' {
        'r'
    } else if c == 'S' {
        's'
    } else if c == 'T' {
        't'
    } else if c == 'U' {
        'u'
    } else if c == 'V' {
        'v'
    } else if c == 'W' {
        'w'
    } else if c == 'X' {
        'x'
    } else if c == 'Y' {
        'y'
    } else if c == 'Z' {
        'z'
    } else {
        c
    }
}

/// The ASCII case folding of a nickname or channel name.
pub fn casefold(s: &str) -> (r: String)
    ensures
        r@ == fold_spec(s@),
{
    let n = s.unicode_len();
    let mut out = String::new();
    let mut i: usize = 0;
    while i < n
        invariant
            0 <= i <= n,
            n == s@.len(),
            out@ == fold_spec(s@).take(i as int),
        decreases n - i,
    {
        out.push(fold_char_exec(s.get_char(i)));
        proof {
            assert(out@ =~= fold_spec(s@).take(i + 1));
        }
        i = i + 1;
    }
    proof {
        assert(fold_spec(s@).take(n as int) =~= fold_spec(s@));
    }
    out
}

/// The position of the first entry with key `k`, or -1.
pub open spec fn assoc_idx<K, V>(s: Seq<(K, V)>, k: K) -> int
    decreases s.len(),
{
    if s.len() == 0 {
        -1int
    } else if s[0].0 == k {
        0
    } else {
        let r = assoc_idx(s.drop_first(), k);
        if r < 0 {
            -1int
        } else {
            r + 1
        }
    }
}

pub proof fn lemma_assoc_props<K, V>(s: Seq<(K, V)>, k: K)
    ensures
        assoc_idx(s, k) >= 0 ==> 0 <= assoc_idx(s, k) < s.len() && s[assoc_idx(s, k)].0 == k,
        assoc_idx(s, k) < 0 ==> (forall|m: int| 0 <= m < s.len() ==> (#[trigger] s[m]).0 != k),
        forall|m: int| 0 <= m < assoc_idx(s, k) ==> (#[trigger] s[m]).0 != k,
    decreases s.len(),
{
    if s.len() > 0 && s[0].0 != k {
        lemma_assoc_props(s.drop_first(), k);
        assert(forall|m: int| 1 <= m < s.len() ==> (#[trigger] s[m]) == s.drop_first()[m - 1]);
    }
}

pub proof fn lemma_assoc_push<K, V>(s: Seq<(K, V)>, k: K, x: (K, V))
    ensures
        assoc_idx(s, k) >= 0 ==> assoc_idx(s.push(x), k) == assoc_idx(s, k),
        assoc_idx(s, k) < 0 && x.0 == k ==> assoc_idx(s.push(x), k) == s.len(),
        assoc_idx(s, k) < 0 && x.0 != k ==> assoc_idx(s.push(x), k) < 0,
        assoc_idx(s.push(x), k) >= 0 ==> s.push(x)[assoc_idx(s.push(x), k)] == (if assoc_idx(
            s,
            k,
        ) >= 0 {
            s[assoc_idx(s, k)]
        } else {
            x
        }),
    decreases s.len(),
{
    lemma_assoc_props(s, k);
    lemma_assoc_props(s.push(x), k);
    if s.len() == 0 {
        assert(s.push(x)[0] == x);
        if x.0 == k {
            lemma_assoc_at(s.push(x), k, 0);
        }
    } else {
        assert(s.push(x)[0] == s[0]);
        assert(s.push(x).drop_first() =~= s.drop_first().push(x));
        lemma_assoc_push(s.drop_first(), k, x);
    }
}

/// Indexing after a removal.
pub proof fn lemma_remove_index<A>(s: Seq<A>, r: int, m: int)
    requires
        0 <= r < s.len(),
        0 <= m < s.len() - 1,
    ensures
        s.remove(r)[m] == (if m < r {
            s[m]
        } else {
            s[m + 1]
        }),
{
    if m < r {
        assert(s.remove(r)[m] == s.subrange(0, r)[m]);
    } else {
        assert(s.remove(r)[m] == s.subrange(r + 1, s.len() as int)[m - r]);
    }
}

/// Lookup depends only on the keys.
pub proof fn lemma_assoc_same_keys<K, V>(a: Seq<(K, V)>, b: Seq<(K, V)>, k: K)
    requires
        a.len() == b.len(),
        forall|i: int| 0 <= i < a.len() ==> (#[trigger] a[i]).0 == (#[trigger] b[i]).0,
    ensures
        assoc_idx(a, k) == assoc_idx(b, k),
    decreases a.len(),
{
    if a.len() > 0 {
        assert(a[0].0 == b[0].0);
        lemma_assoc_same_keys(a.drop_first(), b.drop_first(), k);
        assert(forall|i: int|
            0 <= i < a.drop_first().len() ==> (#[trigger] a.drop_first()[i]).0 == (
            #[trigger] b.drop_first()[i]).0);
    }
}

pub proof fn lemma_assoc_at<K, V>(s: Seq<(K, V)>, k: K, i: int)
    requires
        0 <= i < s.len(),
        s[i].0 == k,
        forall|m: int| 0 <= m < i ==> (#[trigger] s[m]).0 != k,
    ensures
        assoc_idx(s, k) == i,
    decreases s.len(),
{
    if i > 0 {
        lemma_assoc_at(s.drop_first(), k, i - 1);
    }
}

/// Renaming a peer keeps the state invariant: the old index entry leaves, the
/// new one points at the renamed peer, and everything else is untouched.
#[verifier::rlimit(100)]
#[verifier::spinoff_prover]
proof fn lemma_set_nickname_wf(pre: State, post: State, id: usize, nick: Seq<char>, pidx: int)
    requires
        pre.wf(),
        pidx == assoc_idx(pre.pv(), id),
        0 <= pidx < pre.pv().len(),
        assoc_idx(pre.nv(), fold_spec(nick)) < 0 || pre.nv()[assoc_idx(
            pre.nv(),
            fold_spec(nick),
        )].1 == id,
        post.nv() == (match pre.pv()[pidx].1.nickname {
            Some(n0) => pre.nv().remove(assoc_idx(pre.nv(), fold_spec(n0))),
            None => pre.nv(),
        }).push((fold_spec(nick), id)),
        post.pv() == pre.pv().update(
            pidx,
            (id, PeerView { nickname: Some(nick), ..pre.pv()[pidx].1 }),
        ),
        post.cv() == pre.cv(),
        post.next_id == pre.next_id,
    ensures
        post.wf(),
{
    let pv0 = pre.pv();
    let nv0 = pre.nv();
    let f = fold_spec(nick);
    let e = assoc_idx(nv0, f);
    let pvn = post.pv();
    let nvn = post.nv();
    lemma_assoc_props(pv0, id);
    lemma_assoc_props(nv0, f);
    assert(pv0[pidx].0 == id);
    assert(forall|i: int| 0 <= i < pvn.len() ==> (#[trigger] pvn[i]).0 == pv0[i].0);

    // Where the old index entry sat, and the survivors' mapping.
    let had_old = pre.pv()[pidx].1.nickname is Some;
    let r0: int = if had_old {
        assoc_idx(nv0, fold_spec(pv0[pidx].1.nickname->Some_0))
    } else {
        -1
    };
    let nv1 = if had_old {
        nv0.remove(r0)
    } else {
        nv0
    };
    if had_old {
        assert(r0 >= 0 && nv0[r0].1 == id);
        lemma_assoc_props(nv0, fold_spec(pv0[pidx].1.nickname->Some_0));
    }
    // Each surviving entry is an old entry, and none is owned by `id`.
    assert forall|m: int| 0 <= m < nv1.len() implies exists|m0: int|
        0 <= m0 < nv0.len() && m0 != r0 && #[trigger] nv1[m] == nv0[m0] by {
        if had_old {
            let m0 = if m < r0 {
                m
            } else {
                m + 1
            };
            assert(nv1[m] == nv0[m0]);
        } else {
            assert(nv1[m] == nv0[m]);
        }
    }
    assert forall|m: int| 0 <= m < nv1.len() implies (#[trigger] nv1[m]).1 != id by {
        let m0 = choose|m0: int| 0 <= m0 < nv0.len() && m0 != r0 && nv1[m] == nv0[m0];
        if nv0[m0].1 == id {
            if had_old {
                if m0 < r0 {
                    assert(nv0[m0].1 != nv0[r0].1);
                } else {
                    assert(nv0[r0].1 != nv0[m0].1);
                }
            } else {
                // An entry owned by `id` forces a set nickname on the peer.
                assert(assoc_idx(pv0, nv0[m0].1) == pidx);
            }
        }
    }
    assert forall|m: int| 0 <= m < nv1.len() implies (#[trigger] nv1[m]).0 != f by {
        let m0 = choose|m0: int| 0 <= m0 < nv0.len() && m0 != r0 && nv1[m] == nv0[m0];
        if nv0[m0].0 == f {
            lemma_assoc_at_unique(nv0, f, m0);
            assert(e == m0);
            assert(nv0[m0].1 == id);
            assert(nv1[m].1 != id);
        }
    }
    // Uniqueness of keys and owners in the new index.
    assert forall|i: int, j: int| 0 <= i < j < nvn.len() implies (#[trigger] nvn[i]).0 != (
    #[trigger] nvn[j]).0 && nvn[i].1 != nvn[j].1 by {
        if j < nv1.len() {
            let i0 = if had_old && i >= r0 {
                i + 1
            } else {
                i
            };
            let j0 = if had_old && j >= r0 {
                j + 1
            } else {
                j
            };
            assert(nvn[i] == nv0[i0]);
            assert(nvn[j] == nv0[j0]);
        } else {
            assert(nvn[j] == (f, id));
            assert(nvn[i] == nv1[i]);
        }
    }
    // Every index entry points at a peer carrying that folded nickname.
    assert forall|i: int| 0 <= i < nvn.len() implies {
        let p = assoc_idx(pvn, (#[trigger] nvn[i]).1);
        &&& p >= 0
        &&& pvn[p].1.nickname matches Some(n) && fold_spec(n) == nvn[i].0
    } by {
        lemma_assoc_same_keys(pvn, pv0, nvn[i].1);
        if i < nv1.len() {
            let m0 = choose|m0: int| 0 <= m0 < nv0.len() && m0 != r0 && nv1[i] == nv0[m0];
            let o = nv0[m0].1;
            assert(o != id);
            lemma_assoc_props(pv0, o);
            let p = assoc_idx(pv0, o);
            assert(p >= 0);
            if p == pidx {
                assert(pv0[p].0 == o);
            }
            assert(p != pidx);
            assert(pvn[p] == pv0[p]);
        } else {
            assert(nvn[i] == (f, id));
            assert(assoc_idx(pv0, id) == pidx);
            assert(pvn[pidx].1.nickname == Some(nick));
        }
    }
    // Every peer with a nickname has its index entry.
    assert forall|j: int| 0 <= j < pvn.len() implies ((#[trigger] pvn[j]).1.nickname matches Some(
        n,
    ) ==> {
        let i = assoc_idx(nvn, fold_spec(n));
        &&& i >= 0
        &&& nvn[i].1 == pvn[j].0
    }) by {
        if pvn[j].1.nickname is Some {
            let n = pvn[j].1.nickname->Some_0;
            let fk = fold_spec(n);
            lemma_assoc_props(nvn, fk);
            if j == pidx {
                assert(nvn[nv1.len() as int] == (f, id));
                assert(assoc_idx(nvn, f) >= 0);
                let a = assoc_idx(nvn, f);
                assert(nvn[a].0 == f);
                if a != nv1.len() {
                    assert(nvn[a].0 != nvn[nv1.len() as int].0);
                }
                assert(a == nv1.len());
            } else {
                assert(pvn[j] == pv0[j]);
                let i0 = assoc_idx(nv0, fk);
                lemma_assoc_props(nv0, fk);
                assert(i0 >= 0 && nv0[i0].1 == pv0[j].0);
                assert(0 <= i0 < nv0.len());
                assert(pv0[j].0 != id);
                // That entry survives the removal.
                if had_old {
                    assert(i0 != r0);
                }
                let i1 = if had_old && i0 > r0 {
                    i0 - 1
                } else {
                    i0
                };
                if had_old {
                    lemma_remove_index(nv0, r0, i1);
                }
                assert(nv1[i1] == nv0[i0]);
                assert(i1 < nv1.len());
                assert(nvn[i1] == nv1[i1]);
                assert(nvn[i1] == nv0[i0]);
                assert(assoc_idx(nvn, fk) >= 0);
                let a = assoc_idx(nvn, fk);
                assert(nvn[a].0 == fk);
                if a != i1 {
                    if a < i1 {
                        assert(nvn[a].0 != nvn[i1].0);
                    } else {
                        assert(nvn[i1].0 != nvn[a].0);
                    }
                }
                assert(a == i1);
            }
        }
    }
    // Channels are untouched, and their members still exist.
    assert forall|i: int, k: int|
        0 <= i < post.cv().len() && 0 <= k < (#[trigger] post.cv()[i]).1.members.len()
        implies assoc_idx(post.pv(), (#[trigger] post.cv()[i].1.members[k]).0) >= 0 by {
        lemma_assoc_same_keys(pvn, pv0, post.cv()[i].1.members[k].0);
    }
}

/// With unique keys, the entry holding `k` is the one `assoc_idx` finds.
proof fn lemma_assoc_at_unique<K, V>(s: Seq<(K, V)>, k: K, i: int)
    requires
        0 <= i < s.len(),
        s[i].0 == k,
        forall|a: int, b: int| 0 <= a < b < s.len() ==> (#[trigger] s[a]).0 != (#[trigger] s[b]).0,
    ensures
        assoc_idx(s, k) == i,
{
    assert forall|m: int| 0 <= m < i implies (#[trigger] s[m]).0 != k by {
        assert(s[m].0 != s[i].0);
    }
    lemma_assoc_at(s, k, i);
}

/// What quitting does to one channel-table entry: the quitting member leaves,
/// and a channel left empty disappears.
pub open spec fn quit_one(e: (Seq<char>, ChannelView), id: usize) -> Seq<(Seq<char>, ChannelView)> {
    let i = find_member_idx(e.1.members, id);
    let m2 = if i >= 0 {
        e.1.members.remove(i)
    } else {
        e.1.members
    };
    if m2.len() == 0 {
        Seq::<(Seq<char>, ChannelView)>::empty()
    } else {
        seq![(e.0, ChannelView { members: m2, ..e.1 })]
    }
}

/// What quitting does to the whole channel table.
pub open spec fn spec_quit_channels(cv: Seq<(Seq<char>, ChannelView)>, id: usize) -> Seq<
    (Seq<char>, ChannelView),
>
    decreases cv.len(),
{
    if cv.len() == 0 {
        Seq::<(Seq<char>, ChannelView)>::empty()
    } else {
        quit_one(cv[0], id) + spec_quit_channels(cv.drop_first(), id)
    }
}

pub proof fn lemma_quit_concat(a: Seq<(Seq<char>, ChannelView)>, b: Seq<(Seq<char>, ChannelView)>, id: usize)
    ensures
        spec_quit_channels(a + b, id) == spec_quit_channels(a, id) + spec_quit_channels(b, id),
    decreases a.len(),
{
    if a.len() == 0 {
        assert(a + b =~= b);
        assert(spec_quit_channels(a, id) + spec_quit_channels(b, id) =~= spec_quit_channels(
            b,
            id,
        ));
    } else {
        assert((a + b)[0] == a[0]);
        assert((a + b).drop_first() =~= a.drop_first() + b);
        lemma_quit_concat(a.drop_first(), b, id);
        assert(spec_quit_channels(a + b, id) =~= spec_quit_channels(a, id) + spec_quit_channels(
            b,
            id,
        ));
    }
}

/// What survives a quit: every channel keeps its key and loses only the
/// quitting member, no surviving channel is empty or lists the quitter, and
/// every surviving member was a member before.
#[verifier::rlimit(100)]
proof fn lemma_quit_props(cv: Seq<(Seq<char>, ChannelView)>, id: usize)
    requires
        forall|i: int| 0 <= i < cv.len() ==> chan_view_wf((#[trigger] cv[i]).1),
        forall|a: int, b: int|
            0 <= a < b < cv.len() ==> (#[trigger] cv[a]).0 != (#[trigger] cv[b]).0,
    ensures
        ({
            let q = spec_quit_channels(cv, id);
            &&& (forall|a: int, b: int|
                0 <= a < b < q.len() ==> (#[trigger] q[a]).0 != (#[trigger] q[b]).0)
            &&& (forall|i: int| 0 <= i < q.len() ==> chan_view_wf((#[trigger] q[i]).1))
            &&& (forall|i: int| 0 <= i < q.len() ==> (#[trigger] q[i]).1.members.len() > 0)
            &&& (forall|i: int, k: int|
                0 <= i < q.len() && 0 <= k < (#[trigger] q[i]).1.members.len() ==> (
                #[trigger] q[i].1.members[k]).0 != id)
            &&& (forall|i: int, k: int|
                0 <= i < q.len() && 0 <= k < (#[trigger] q[i]).1.members.len() ==> exists|
                    j0: int,
                    k0: int,
                |
                    0 <= j0 < cv.len() && 0 <= k0 < cv[j0].1.members.len() && (
                    #[trigger] q[i].1.members[k]) == cv[j0].1.members[k0])
            &&& (forall|i: int|
                0 <= i < q.len() ==> exists|j0: int|
                    0 <= j0 < cv.len() && (#[trigger] q[i]).0 == cv[j0].0)
        }),
    decreases cv.len(),
{
    if cv.len() > 0 {
        let h = cv[0];
        let qh = quit_one(h, id);
        let rest = cv.drop_first();
        let qr = spec_quit_channels(rest, id);
        let q = spec_quit_channels(cv, id);
        assert(forall|m: int| 0 <= m < rest.len() ==> (#[trigger] rest[m]) == cv[m + 1]);
        lemma_quit_props(rest, id);
        crate::channel::lemma_find_member(h.1.members, id);
        let mi = find_member_idx(h.1.members, id);
        // The head's survivors: ids stay unique, none is the quitter.
        if qh.len() > 0 {
            let m2 = qh[0].1.members;
            assert forall|a: int, b: int| 0 <= a < b < m2.len() implies (#[trigger] m2[a]).0 != (
            #[trigger] m2[b]).0 by {
                if mi >= 0 {
                    lemma_remove_index(h.1.members, mi, a);
                    lemma_remove_index(h.1.members, mi, b);
                }
            }
            assert forall|k: int| 0 <= k < m2.len() implies (#[trigger] m2[k]).0 != id by {
                if mi >= 0 {
                    lemma_remove_index(h.1.members, mi, k);
                    let k0 = if k < mi {
                        k
                    } else {
                        k + 1
                    };
                    if h.1.members[k0].0 == id {
                        if k0 < mi {
                            assert(h.1.members[k0].0 != h.1.members[mi].0);
                        } else {
                            assert(h.1.members[mi].0 != h.1.members[k0].0);
                        }
                    }
                }
            }
            assert forall|k: int| 0 <= k < m2.len() implies exists|j0: int, k0: int|
                0 <= j0 < cv.len() && 0 <= k0 < cv[j0].1.members.len() && (#[trigger] m2[k])
                    == cv[j0].1.members[k0] by {
                if mi >= 0 {
                    lemma_remove_index(h.1.members, mi, k);
                    let k0 = if k < mi {
                        k
                    } else {
                        k + 1
                    };
                    assert(0 <= 0 < cv.len() && 0 <= k0 < cv[0].1.members.len() && m2[k]
                        == cv[0].1.members[k0]);
                } else {
                    assert(0 <= 0 < cv.len() && 0 <= k < cv[0].1.members.len() && m2[k]
                        == cv[0].1.members[k]);
                }
            }
        }
        // Combine head and tail facts over the concatenation.
        assert(q == qh + qr);
        assert forall|i: int| 0 <= i < q.len() implies exists|j0: int|
            0 <= j0 < cv.len() && (#[trigger] q[i]).0 == cv[j0].0 by {
            if i < qh.len() {
                assert(q[i] == qh[0]);
                assert(q[i].0 == cv[0].0);
            } else {
                assert(q[i] == qr[i - qh.len()]);
                let j0 = choose|j0: int|
                    0 <= j0 < rest.len() && qr[i - qh.len()].0 == rest[j0].0;
                assert(q[i].0 == cv[j0 + 1].0);
            }
        }
        assert forall|a: int, b: int| 0 <= a < b < q.len() implies (#[trigger] q[a]).0 != (
        #[trigger] q[b]).0 by {
            if a < qh.len() {
                assert(q[a].0 == cv[0].0);
                assert(q[b] == qr[b - qh.len()]);
                let j0 = choose|j0: int|
                    0 <= j0 < rest.len() && qr[b - qh.len()].0 == rest[j0].0;
                assert(q[b].0 == cv[j0 + 1].0);
                assert(cv[0].0 != cv[j0 + 1].0);
            } else {
                assert(q[a] == qr[a - qh.len()]);
                assert(q[b] == qr[b - qh.len()]);
            }
        }
        assert forall|i: int, k: int|
            0 <= i < q.len() && 0 <= k < (#[trigger] q[i]).1.members.len() implies exists|
                j0: int,
                k0: int,
            |
                0 <= j0 < cv.len() && 0 <= k0 < cv[j0].1.members.len() && (
                #[trigger] q[i].1.members[k]) == cv[j0].1.members[k0] by {
            if i < qh.len() {
                assert(q[i] == qh[0]);
            } else {
                assert(q[i] == qr[i - qh.len()]);
                let (j0, k0) = choose|j0: int, k0: int|
                    0 <= j0 < rest.len() && 0 <= k0 < rest[j0].1.members.len() && qr[i - qh.len(
                    )].1.members[k] == rest[j0].1.members[k0];
                assert(0 <= j0 + 1 < cv.len() && 0 <= k0 < cv[j0 + 1].1.members.len() && q[
                    i
                ].1.members[k] == cv[j0 + 1].1.members[k0]);
            }
        }
        assert forall|i: int, k: int|
            0 <= i < q.len() && 0 <= k < (#[trigger] q[i]).1.members.len() implies (
        #[trigger] q[i].1.members[k]).0 != id by {
            if i < qh.len() {
                assert(q[i] == qh[0]);
            } else {
                assert(q[i] == qr[i - qh.len()]);
            }
        }
        assert forall|i: int| 0 <= i < q.len() implies chan_view_wf((#[trigger] q[i]).1) && (
        #[trigger] q[i]).1.members.len() > 0 by {
            if i < qh.len() {
                assert(q[i] == qh[0]);
                assert(qh[0].1.ban_mask == h.1.ban_mask);
            } else {
                assert(q[i] == qr[i - qh.len()]);
            }
        }
    }
}

/// Quitting keeps the state invariant: the peer, its index entry, and its
/// memberships leave together.
#[verifier::rlimit(100)]
#[verifier::spinoff_prover]
proof fn lemma_peer_quit_wf(pre: State, post: State, id: usize, pidx: int)
    requires
        pre.wf(),
        pidx == assoc_idx(pre.pv(), id),
        0 <= pidx < pre.pv().len(),
        post.pv() == pre.pv().remove(pidx),
        post.nv() == (match pre.pv()[pidx].1.nickname {
            Some(n0) => pre.nv().remove(assoc_idx(pre.nv(), fold_spec(n0))),
            None => pre.nv(),
        }),
        post.cv() == spec_quit_channels(pre.cv(), id),
        post.next_id == pre.next_id,
    ensures
        post.wf(),
{
    let pv0 = pre.pv();
    let nv0 = pre.nv();
    let cv0 = pre.cv();
    let pvn = post.pv();
    let nvn = post.nv();
    lemma_assoc_props(pv0, id);
    assert(pv0[pidx].0 == id);
    let had_old = pv0[pidx].1.nickname is Some;
    let r0: int = if had_old {
        assoc_idx(nv0, fold_spec(pv0[pidx].1.nickname->Some_0))
    } else {
        -1
    };
    if had_old {
        assert(r0 >= 0 && nv0[r0].1 == id);
        lemma_assoc_props(nv0, fold_spec(pv0[pidx].1.nickname->Some_0));
    }
    // Peers: unique ids below next_id.
    assert forall|a: int, b: int| 0 <= a < b < pvn.len() implies (#[trigger] pvn[a]).0 != (
    #[trigger] pvn[b]).0 by {
        lemma_remove_index(pv0, pidx, a);
        lemma_remove_index(pv0, pidx, b);
    }
    assert forall|a: int| 0 <= a < pvn.len() implies (#[trigger] pvn[a]).0 < post.next_id by {
        lemma_remove_index(pv0, pidx, a);
    }
    // No surviving peer has the removed id.
    assert forall|a: int| 0 <= a < pvn.len() implies (#[trigger] pvn[a]).0 != id by {
        lemma_remove_index(pv0, pidx, a);
        let a0 = if a < pidx {
            a
        } else {
            a + 1
        };
        if pv0[a0].0 == id {
            if a0 < pidx {
                assert(pv0[a0].0 != pv0[pidx].0);
            } else {
                assert(pv0[pidx].0 != pv0[a0].0);
            }
        }
    }
    // Nickname index: uniqueness, and no surviving entry owned by `id`.
    assert forall|a: int, b: int| 0 <= a < b < nvn.len() implies (#[trigger] nvn[a]).0 != (
    #[trigger] nvn[b]).0 && nvn[a].1 != nvn[b].1 by {
        if had_old {
            lemma_remove_index(nv0, r0, a);
            lemma_remove_index(nv0, r0, b);
        }
    }
    assert forall|a: int| 0 <= a < nvn.len() implies (#[trigger] nvn[a]).1 != id by {
        if had_old {
            lemma_remove_index(nv0, r0, a);
            let a0 = if a < r0 {
                a
            } else {
                a + 1
            };
            if nv0[a0].1 == id {
                if a0 < r0 {
                    assert(nv0[a0].1 != nv0[r0].1);
                } else {
                    assert(nv0[r0].1 != nv0[a0].1);
                }
            }
        } else {
            if nv0[a].1 == id {
                assert(assoc_idx(pv0, nv0[a].1) == pidx);
            }
        }
    }
    // Every surviving index entry points at a surviving peer.
    assert forall|i: int| 0 <= i < nvn.len() implies {
        let p = assoc_idx(pvn, (#[trigger] nvn[i]).1);
        &&& p >= 0
        &&& pvn[p].1.nickname matches Some(n) && fold_spec(n) == nvn[i].0
    } by {
        if had_old {
            lemma_remove_index(nv0, r0, i);
        }
        let o = nvn[i].1;
        assert(o != id);
        let i0 = if had_old && i >= r0 {
            i + 1
        } else {
            i
        };
        assert(nvn[i] == nv0[i0]);
        lemma_assoc_props(pv0, o);
        let p0 = assoc_idx(pv0, o);
        assert(p0 >= 0);
        if p0 == pidx {
            assert(pv0[p0].0 == o);
        }
        assert(p0 != pidx);
        let p1 = if p0 < pidx {
            p0
        } else {
            p0 - 1
        };
        lemma_remove_index(pv0, pidx, p1);
        assert(pvn[p1] == pv0[p0]);
        assert forall|a: int, b: int| 0 <= a < b < pvn.len() implies (#[trigger] pvn[a]).0 != (
        #[trigger] pvn[b]).0 by {
            lemma_remove_index(pv0, pidx, a);
            lemma_remove_index(pv0, pidx, b);
        }
        lemma_assoc_at_unique(pvn, o, p1);
    }
    // Every surviving peer with a nickname keeps its index entry.
    assert forall|j: int| 0 <= j < pvn.len() implies ((#[trigger] pvn[j]).1.nickname matches Some(
        n,
    ) ==> {
        let i = assoc_idx(nvn, fold_spec(n));
        &&& i >= 0
        &&& nvn[i].1 == pvn[j].0
    }) by {
        lemma_remove_index(pv0, pidx, j);
        let j0 = if j < pidx {
            j
        } else {
            j + 1
        };
        assert(pvn[j] == pv0[j0]);
        if pvn[j].1.nickname is Some {
            let n = pvn[j].1.nickname->Some_0;
            let fk = fold_spec(n);
            let i0 = assoc_idx(nv0, fk);
            lemma_assoc_props(nv0, fk);
            assert(i0 >= 0 && nv0[i0].1 == pv0[j0].0);
            assert(pv0[j0].0 != id);
            if had_old {
                assert(i0 != r0);
            }
            let i1 = if had_old && i0 > r0 {
                i0 - 1
            } else {
                i0
            };
            if had_old {
                lemma_remove_index(nv0, r0, i1);
            }
            assert(nvn[i1] == nv0[i0]);
            lemma_assoc_at_unique(nvn, fk, i1);
        }
    }
    // Channels: the quit transformation keeps every channel property.
    lemma_quit_props(cv0, id);
    let q = post.cv();
    assert forall|i: int, k: int|
        0 <= i < q.len() && 0 <= k < (#[trigger] q[i]).1.members.len() implies assoc_idx(
        pvn,
        (#[trigger] q[i].1.members[k]).0,
    ) >= 0 by {
        let (j0, k0) = choose|j0: int, k0: int|
            0 <= j0 < cv0.len() && 0 <= k0 < cv0[j0].1.members.len() && q[i].1.members[k]
                == cv0[j0].1.members[k0];
        let o = q[i].1.members[k].0;
        assert(o != id);
        assert(assoc_idx(pv0, o) >= 0);
        lemma_assoc_props(pv0, o);
        let p0 = assoc_idx(pv0, o);
        if p0 == pidx {
            assert(pv0[p0].0 == o);
        }
        assert(p0 != pidx);
        let p1 = if p0 < pidx {
            p0
        } else {
            p0 - 1
        };
        lemma_remove_index(pv0, pidx, p1);
        assert(pvn[p1] == pv0[p0]);
        lemma_assoc_props(pvn, o);
    }
}

/// Registration progress of one connection.
#[derive(Clone, Copy, Debug, PartialEq, Eq, Structural)]
pub enum RegistrationState {
    Unregistered,
    Registering,
    Registered,
    Quitting,
}

/// One connected client.
pub struct Peer {
    /// The network address, for logging.
    pub addr: String,
    /// The nickname, once one was accepted.
    pub nickname: Option<String>,
    pub username: String,
    pub realname: String,
    pub status: RegistrationState,
}

/// The abstract value of a `Peer`.
#[verifier::ext_equal]
pub struct PeerView {
    pub addr: Seq<char>,
    pub nickname: Option<Seq<char>>,
    pub username: Seq<char>,
    pub realname: Seq<char>,
    pub status: RegistrationState,
}

impl View for Peer {
    type V = PeerView;

    open spec fn view(&self) -> PeerView {
        PeerView {
            addr: self.addr@,
            nickname: (match self.nickname {
                Some(ref n) => Some(n@),
                None => None,
            }),
            username: self.username@,
            realname: self.realname@,
            status: self.status,
        }
    }
}

/// The abstract value of the peer table.
pub open spec fn peers_view(ps: Seq<(usize, Peer)>) -> Seq<(usize, PeerView)> {
    Seq::new(ps.len(), |i: int| (ps[i].0, ps[i].1@))
}

/// The abstract value of the nickname index.
pub open spec fn nicks_view(ns: Seq<(String, usize)>) -> Seq<(Seq<char>, usize)> {
    Seq::new(ns.len(), |i: int| (ns[i].0@, ns[i].1))
}

/// The abstract value of the channel table.
pub open spec fn channels_view(cs: Seq<(String, Channel)>) -> Seq<(Seq<char>, ChannelView)> {
    Seq::new(cs.len(), |i: int| (cs[i].0@, cs[i].1@))
}

/// Why a state operation was refused.
#[derive(Clone, Copy, Debug, PartialEq, Eq, Structural)]
pub enum StateError {
    /// The peer id is not registered in the peer table.
    UnknownPeer,
    /// Another peer holds the nickname (numeric 433).
    NicknameInUse,
    /// The named channel does not exist (numeric 403).
    UnknownChannel,
    /// The peer is not on the channel (numeric 442).
    NotOnChannel,
}

/// The shared server state.
pub struct State {
    /// The peer table, by process-unique id, in joining order.
    pub peers: Vec<(usize, Peer)>,
    /// The nickname index: case-folded nickname to peer id.
    pub nicks: Vec<(String, usize)>,
    /// The channel table, by case-folded channel name.
    pub channels: Vec<(String, Channel)>,
    /// The next fresh peer id.
    pub next_id: usize,
    /// The server settings.
    pub settings: config::State,
}

impl State {
    /// The peer table's abstract value.
    pub open spec fn pv(&self) -> Seq<(usize, PeerView)> {
        peers_view(self.peers@)
    }

    /// The nickname index's abstract value.
    pub open spec fn nv(&self) -> Seq<(Seq<char>, usize)> {
        nicks_view(self.nicks@)
    }

    /// The channel table's abstract value.
    pub open spec fn cv(&self) -> Seq<(Seq<char>, ChannelView)> {
        channels_view(self.channels@)
    }

    /// The state invariant: unique fresh peer ids; the nickname index a
    /// bijection with the peers whose nickname is set; channel names unique;
    /// every channel well-formed and non-empty; every channel member present
    /// in the peer table.
    pub open spec fn wf(&self) -> bool {
        &&& (forall|i: int, j: int|
            0 <= i < j < self.pv().len() ==> (#[trigger] self.pv()[i]).0 != (
            #[trigger] self.pv()[j]).0)
        &&& (forall|i: int| 0 <= i < self.pv().len() ==> (#[trigger] self.pv()[i]).0 < self.next_id)
        &&& (forall|i: int, j: int|
            0 <= i < j < self.nv().len() ==> (#[trigger] self.nv()[i]).0 != (
            #[trigger] self.nv()[j]).0 && self.nv()[i].1 != self.nv()[j].1)
        &&& (forall|i: int|
            0 <= i < self.nv().len() ==> {
                let p = assoc_idx(self.pv(), (#[trigger] self.nv()[i]).1);
                &&& p >= 0
                &&& self.pv()[p].1.nickname matches Some(n) && fold_spec(n) == self.nv()[i].0
            })
        &&& (forall|j: int|
            0 <= j < self.pv().len() ==> ((#[trigger] self.pv()[j]).1.nickname matches Some(n)
                ==> {
                let i = assoc_idx(self.nv(), fold_spec(n));
                &&& i >= 0
                &&& self.nv()[i].1 == self.pv()[j].0
            }))
        &&& (forall|i: int, j: int|
            0 <= i < j < self.cv().len() ==> (#[trigger] self.cv()[i]).0 != (
            #[trigger] self.cv()[j]).0)
        &&& (forall|i: int| 0 <= i < self.cv().len() ==> chan_view_wf((#[trigger] self.cv()[i]).1))
        &&& (forall|i: int| 0 <= i < self.cv().len() ==> (#[trigger] self.cv()[i]).1.members.len() > 0)
        &&& (forall|i: int, k: int|
            0 <= i < self.cv().len() && 0 <= k < (#[trigger] self.cv()[i]).1.members.len()
                ==> assoc_idx(self.pv(), (#[trigger] self.cv()[i].1.members[k]).0) >= 0)
    }

    /// An empty state around the given settings.
    pub fn new(settings: config::State) -> (r: State)
        ensures
            r.wf(),
            r.pv() == Seq::<(usize, PeerView)>::empty(),
            r.nv() == Seq::<(Seq<char>, usize)>::empty(),
            r.cv() == Seq::<(Seq<char>, ChannelView)>::empty(),
            r.next_id == 0,
            r.settings == settings,
    {
        let r = State {
            peers: Vec::new(),
            nicks: Vec::new(),
            channels: Vec::new(),
            next_id: 0,
            settings,
        };
        proof {
            assert(r.pv() =~= Seq::<(usize, PeerView)>::empty());
            assert(r.nv() =~= Seq::<(Seq<char>, usize)>::empty());
            assert(r.cv() =~= Seq::<(Seq<char>, ChannelView)>::empty());
        }
        r
    }

    /// The position of peer `id` in the peer table.
    fn peer_index(&self, id: usize) -> (r: Option<usize>)
        ensures
            (match r {
                Some(i) => i as int == assoc_idx(self.pv(), id),
                None => assoc_idx(self.pv(), id) < 0,
            }),
    {
        let mut i: usize = 0;
        while i < self.peers.len()
            invariant
                0 <= i <= self.peers@.len(),
                forall|k: int| 0 <= k < i ==> (#[trigger] self.pv()[k]).0 != id,
            decreases self.peers@.len() - i,
        {
            proof {
                assert(self.pv()[i as int] == (self.peers@[i as int].0, self.peers@[i as int].1@));
            }
            if self.peers[i].0 == id {
                proof {
                    lemma_assoc_at(self.pv(), id, i as int);
                }
                return Some(i);
            }
            i = i + 1;
        }
        proof {
            lemma_assoc_props(self.pv(), id);
        }
        None
    }

    /// Registers a new connection: a fresh id, no nickname, status
    /// `Unregistered`.  The caller schedules the login timeout.
    pub fn peer_joined(&mut self, addr: &str) -> (id: usize)
        requires
            old(self).wf(),
            old(self).next_id < usize::MAX,
        ensures
            final(self).wf(),
            id == old(self).next_id,
            final(self).pv() == old(self).pv().push(
                (
                    id,
                    PeerView {
                        addr: addr@,
                        nickname: None,
                        username: Seq::<char>::empty(),
                        realname: Seq::<char>::empty(),
                        status: RegistrationState::Unregistered,
                    },
                ),
            ),
            final(self).nv() == old(self).nv(),
            final(self).cv() == old(self).cv(),
            final(self).next_id == old(self).next_id + 1,
            final(self).settings == old(self).settings,
    {
        let id = self.next_id;
        self.next_id = self.next_id + 1;
        let peer = Peer {
            addr: addr.to_owned(),
            nickname: None,
            username: String::new(),
            realname: String::new(),
            status: RegistrationState::Unregistered,
        };
        let ghost pview = peer@;
        self.peers.push((id, peer));
        proof {
            let opv = old(self).pv();
            assert(self.pv() =~= opv.push((id, pview)));
            assert(self.nv() =~= old(self).nv());
            assert(self.cv() =~= old(self).cv());
            assert forall|i: int| 0 <= i < self.nv().len() implies {
                let p = assoc_idx(self.pv(), (#[trigger] self.nv()[i]).1);
                &&& p >= 0
                &&& self.pv()[p].1.nickname matches Some(n) && fold_spec(n) == self.nv()[i].0
            } by {
                lemma_assoc_push(opv, self.nv()[i].1, (id, pview));
                lemma_assoc_props(opv, self.nv()[i].1);
            }
            assert forall|i: int, k: int|
                0 <= i < self.cv().len() && 0 <= k < (#[trigger] self.cv()[i]).1.members.len()
                implies assoc_idx(self.pv(), (#[trigger] self.cv()[i].1.members[k]).0) >= 0 by {
                lemma_assoc_push(opv, self.cv()[i].1.members[k].0, (id, pview));
            }
        }
        id
    }

    /// All five parts unchanged between two states.
    pub open spec fn same_tables(&self, r: &State) -> bool {
        &&& r.pv() == self.pv()
        &&& r.nv() == self.nv()
        &&& r.cv() == self.cv()
        &&& r.next_id == self.next_id
        &&& r.settings == self.settings
    }

    /// Sets or changes the nickname of peer `id` to `nick`: refused when the
    /// peer is unknown or another peer holds the case-folded nickname; on
    /// success the peer's old index entry, if any, is replaced by the new one.
    #[verifier::rlimit(100)]
    #[verifier::spinoff_prover]
    pub fn set_nickname(&mut self, id: usize, nick: &str) -> (r: Result<(), StateError>)
        requires
            old(self).wf(),
        ensures
            final(self).wf(),
            ({
                let pidx = assoc_idx(old(self).pv(), id);
                let f = fold_spec(nick@);
                let e = assoc_idx(old(self).nv(), f);
                if pidx < 0 {
                    &&& r == Err::<(), StateError>(StateError::UnknownPeer)
                    &&& old(self).same_tables(final(self))
                } else if e >= 0 && old(self).nv()[e].1 != id {
                    &&& r == Err::<(), StateError>(StateError::NicknameInUse)
                    &&& old(self).same_tables(final(self))
                } else {
                    let nv1 = (match old(self).pv()[pidx].1.nickname {
                        Some(n0) => old(self).nv().remove(
                            assoc_idx(old(self).nv(), fold_spec(n0)),
                        ),
                        None => old(self).nv(),
                    });
                    &&& r == Ok::<(), StateError>(())
                    &&& final(self).nv() == nv1.push((f, id))
                    &&& final(self).pv() == old(self).pv().update(
                        pidx,
                        (
                            id,
                            PeerView {
                                nickname: Some(nick@),
                                ..old(self).pv()[pidx].1
                            },
                        ),
                    )
                    &&& final(self).cv() == old(self).cv()
                    &&& final(self).next_id == old(self).next_id
                    &&& final(self).settings == old(self).settings
                }
            }),
    {
        let ghost pv0 = self.pv();
        let ghost nv0 = self.nv();
        let pidx = match self.peer_index(id) {
            None => {
                return Err(StateError::UnknownPeer);
            },
            Some(p) => p,
        };
        proof {
            lemma_assoc_props(pv0, id);
        }
        let folded = casefold(nick);
        match self.nick_index(&folded) {
            Some(e) => {
                proof {
                    lemma_assoc_props(nv0, folded@);
                }
                if self.nicks[e].1 != id {
                    return Err(StateError::NicknameInUse);
                }
            },
            None => {},
        }
        // Drop the peer's old index entry, if any.
        let old_folded: Option<String> = match &self.peers[pidx].1.nickname {
            Some(n0) => Some(casefold(n0.as_str())),
            None => None,
        };
        let ghost had_old: bool = old_folded is Some;
        match old_folded {
            Some(f0) => {
                proof {
                    assert(pv0[pidx as int].1.nickname matches Some(n0v) && fold_spec(n0v)
                        == f0@);
                }
                let e0 = match self.nick_index(&f0) {
                    Some(e0) => e0,
                    None => {
                        proof {
                            lemma_assoc_props(nv0, f0@);
                            assert(false);
                        }
                        vstd::pervasive::unreached()
                    },
                };
                proof {
                    lemma_assoc_props(nv0, f0@);
                }
                self.nicks.remove(e0);
                proof {
                    assert(self.nv() =~= nv0.remove(e0 as int));
                }
            },
            None => {},
        }
        let ghost nv1 = self.nv();
        self.nicks.push((folded, id));
        proof {
            assert(self.nv() =~= nv1.push((fold_spec(nick@), id)));
        }
        let mut entry = self.peers.remove(pidx);
        entry.1.nickname = Some(nick.to_owned());
        let ghost eview = entry.1@;
        self.peers.insert(pidx, entry);
        proof {
            assert(self.pv() =~= pv0.update(
                pidx as int,
                (id, PeerView { nickname: Some(nick@), ..pv0[pidx as int].1 }),
            ));
            assert(self.cv() =~= old(self).cv());
            lemma_set_nickname_wf(*old(self), *self, id, nick@, pidx as int);
        }
        Ok(())
    }

    /// Adds peer `id` to the channel named `name` (case-folded), creating the
    /// channel with the configured default modes when absent; the first
    /// joiner becomes operator, and an existing membership is untouched.
    #[verifier::rlimit(100)]
    #[verifier::spinoff_prover]
    pub fn join(&mut self, id: usize, name: &str) -> (r: Result<(), StateError>)
        requires
            old(self).wf(),
        ensures
            final(self).wf(),
            ({
                let pidx = assoc_idx(old(self).pv(), id);
                let f = fold_spec(name@);
                let cidx = assoc_idx(old(self).cv(), f);
                if pidx < 0 {
                    &&& r == Err::<(), StateError>(StateError::UnknownPeer)
                    &&& old(self).same_tables(final(self))
                } else if cidx >= 0 {
                    let ch = old(self).cv()[cidx].1;
                    let ch2 = if crate::channel::has_member(ch.members, id) {
                        ch
                    } else {
                        ChannelView {
                            members: ch.members.push(
                                (
                                    id,
                                    if ch.members.len() == 0 {
                                        MemberModes {
                                            founder: false,
                                            protected: false,
                                            operator: true,
                                            halfop: false,
                                            voice: false,
                                        }
                                    } else {
                                        crate::channel::spec_default_member()
                                    },
                                ),
                            ),
                            ..ch
                        }
                    };
                    &&& r == Ok::<(), StateError>(())
                    &&& final(self).cv() == old(self).cv().update(
                        cidx,
                        (old(self).cv()[cidx].0, ch2),
                    )
                    &&& final(self).pv() == old(self).pv()
                    &&& final(self).nv() == old(self).nv()
                    &&& final(self).next_id == old(self).next_id
                    &&& final(self).settings == old(self).settings
                } else {
                    let flags = crate::channel::fold_simple(
                        crate::modes::spec_simple_query(old(self).settings.default_chan_mode@),
                        crate::channel::spec_no_flags(),
                    );
                    &&& r == Ok::<(), StateError>(())
                    &&& final(self).cv() == old(self).cv().push(
                        (
                            f,
                            ChannelView {
                                members: seq![
                                    (
                                        id,
                                        MemberModes {
                                            founder: false,
                                            protected: false,
                                            operator: true,
                                            halfop: false,
                                            voice: false,
                                        },
                                    ),
                                ],
                                topic: None,
                                user_limit: None,
                                key: None,
                                ban_mask: Seq::<Seq<char>>::empty(),
                                exception_mask: Seq::<Seq<char>>::empty(),
                                invex_mask: Seq::<Seq<char>>::empty(),
                                invite_only: flags.invite_only,
                                moderated: flags.moderated,
                                no_msg_from_outside: flags.no_msg_from_outside,
                                secret: flags.secret,
                                topic_restricted: flags.topic_restricted,
                            },
                        ),
                    )
                    &&& final(self).pv() == old(self).pv()
                    &&& final(self).nv() == old(self).nv()
                    &&& final(self).next_id == old(self).next_id
                    &&& final(self).settings == old(self).settings
                }
            }),
    {
        let ghost pv0 = self.pv();
        let ghost nv0 = self.nv();
        let ghost cv0 = self.cv();
        match self.peer_index(id) {
            None => {
                return Err(StateError::UnknownPeer);
            },
            Some(_) => {},
        }
        proof {
            lemma_assoc_props(pv0, id);
        }
        let folded = casefold(name);
        match self.channel_index(&folded) {
            Some(ci) => {
                proof {
                    lemma_assoc_props(cv0, folded@);
                }
                let mut entry = self.channels.remove(ci);
                proof {
                    assert(entry.1@ == cv0[ci as int].1);
                }
                entry.1.add_member(id);
                let ghost key = entry.0@;
                let ghost newv = entry.1@;
                self.channels.insert(ci, entry);
                proof {
                    assert(self.cv() =~= cv0.update(ci as int, (key, newv)));
                    assert(key == cv0[ci as int].0);
                    assert(self.pv() =~= pv0);
                    assert(self.nv() =~= nv0);
                    assert(forall|i: int|
                        0 <= i < self.cv().len() ==> (#[trigger] self.cv()[i]).0 == cv0[i].0);
                    assert forall|i: int, k: int|
                        0 <= i < self.cv().len() && 0 <= k < (
                        #[trigger] self.cv()[i]).1.members.len() implies assoc_idx(
                        self.pv(),
                        (#[trigger] self.cv()[i].1.members[k]).0,
                    ) >= 0 by {
                        if i == ci as int && k == self.cv()[i].1.members.len() - 1
                            && !crate::channel::has_member(cv0[ci as int].1.members, id) {
                            assert(self.cv()[i].1.members[k].0 == id);
                        } else {
                            assert(self.cv()[i].1.members[k] == cv0[i].1.members[k]);
                        }
                    }
                }
                Ok(())
            },
            None => {
                proof {
                    lemma_assoc_props(cv0, folded@);
                }
                let dm = self.settings.default_chan_mode.clone();
                let mut c = Channel::new(dm.as_str());
                c.add_member(id);
                let ghost newv = c@;
                self.channels.push((folded, c));
                proof {
                    assert(newv.members =~= seq![
                        (
                            id,
                            MemberModes {
                                founder: false,
                                protected: false,
                                operator: true,
                                halfop: false,
                                voice: false,
                            },
                        ),
                    ]);
                    assert(self.cv() =~= cv0.push((fold_spec(name@), newv)));
                    assert(self.pv() =~= pv0);
                    assert(self.nv() =~= nv0);
                }
                Ok(())
            },
        }
    }

    /// Removes peer `id` from the channel named `name`; a channel left empty
    /// is dropped.
    #[verifier::rlimit(100)]
    #[verifier::spinoff_prover]
    pub fn part(&mut self, id: usize, name: &str) -> (r: Result<(), StateError>)
        requires
            old(self).wf(),
        ensures
            final(self).wf(),
            ({
                let f = fold_spec(name@);
                let cidx = assoc_idx(old(self).cv(), f);
                if cidx < 0 {
                    &&& r == Err::<(), StateError>(StateError::UnknownChannel)
                    &&& old(self).same_tables(final(self))
                } else {
                    let ch = old(self).cv()[cidx].1;
                    let mi = find_member_idx(ch.members, id);
                    if mi < 0 {
                        &&& r == Err::<(), StateError>(StateError::NotOnChannel)
                        &&& old(self).same_tables(final(self))
                    } else {
                        let m2 = ch.members.remove(mi);
                        &&& r == Ok::<(), StateError>(())
                        &&& final(self).cv() == (if m2.len() == 0 {
                            old(self).cv().remove(cidx)
                        } else {
                            old(self).cv().update(
                                cidx,
                                (old(self).cv()[cidx].0, ChannelView { members: m2, ..ch }),
                            )
                        })
                        &&& final(self).pv() == old(self).pv()
                        &&& final(self).nv() == old(self).nv()
                        &&& final(self).next_id == old(self).next_id
                        &&& final(self).settings == old(self).settings
                    }
                }
            }),
    {
        let ghost pv0 = self.pv();
        let ghost cv0 = self.cv();
        let folded = casefold(name);
        let ci = match self.channel_index(&folded) {
            None => {
                return Err(StateError::UnknownChannel);
            },
            Some(ci) => ci,
        };
        proof {
            lemma_assoc_props(cv0, folded@);
        }
        let mut entry = self.channels.remove(ci);
        proof {
            assert(entry.1@ == cv0[ci as int].1);
        }
        let was = entry.1.remove_member(id);
        if !was {
            self.channels.insert(ci, entry);
            proof {
                assert(self.cv() =~= cv0);
                assert(self.pv() =~= pv0);
                assert(self.nv() =~= old(self).nv());
            }
            return Err(StateError::NotOnChannel);
        }
        if entry.1.members.len() == 0 {
            proof {
                assert(self.cv() =~= cv0.remove(ci as int));
                assert(self.pv() =~= pv0);
                assert(self.nv() =~= old(self).nv());
                assert forall|a: int, b: int| 0 <= a < b < self.cv().len() implies (
                #[trigger] self.cv()[a]).0 != (#[trigger] self.cv()[b]).0 by {
                    let a0 = if a < ci as int {
                        a
                    } else {
                        a + 1
                    };
                    let b0 = if b < ci as int {
                        b
                    } else {
                        b + 1
                    };
                    lemma_remove_index(cv0, ci as int, a);
                    lemma_remove_index(cv0, ci as int, b);
                    assert(self.cv()[a] == cv0[a0]);
                    assert(self.cv()[b] == cv0[b0]);
                }
                assert forall|i: int| 0 <= i < self.cv().len() implies chan_view_wf(
                    (#[trigger] self.cv()[i]).1,
                ) && self.cv()[i].1.members.len() > 0 by {
                    lemma_remove_index(cv0, ci as int, i);
                }
                assert forall|i: int, k: int|
                    0 <= i < self.cv().len() && 0 <= k < (
                    #[trigger] self.cv()[i]).1.members.len() implies assoc_idx(
                    self.pv(),
                    (#[trigger] self.cv()[i].1.members[k]).0,
                ) >= 0 by {
                    lemma_remove_index(cv0, ci as int, i);
                }
            }
        } else {
            let ghost key = entry.0@;
            let ghost newv = entry.1@;
            self.channels.insert(ci, entry);
            proof {
                assert(self.cv() =~= cv0.update(ci as int, (key, newv)));
                assert(key == cv0[ci as int].0);
                assert(self.pv() =~= pv0);
                assert(self.nv() =~= old(self).nv());
                assert(forall|i: int|
                    0 <= i < self.cv().len() ==> (#[trigger] self.cv()[i]).0 == cv0[i].0);
                assert forall|i: int, k: int|
                    0 <= i < self.cv().len() && 0 <= k < (
                    #[trigger] self.cv()[i]).1.members.len() implies assoc_idx(
                    self.pv(),
                    (#[trigger] self.cv()[i].1.members[k]).0,
                ) >= 0 by {
                    if i == ci as int {
                        let mi = find_member_idx(cv0[ci as int].1.members, id);
                        crate::channel::lemma_find_member(cv0[ci as int].1.members, id);
                        let k0 = if k < mi {
                            k
                        } else {
                            k + 1
                        };
                        lemma_remove_index(cv0[ci as int].1.members, mi, k);
                        assert(self.cv()[i].1.members[k] == cv0[ci as int].1.members[k0]);
                    } else {
                        assert(self.cv()[i].1.members[k] == cv0[i].1.members[k]);
                    }
                }
            }
        }
        Ok(())
    }

    /// Removes the peer from every channel (dropping channels left empty),
    /// from the nickname index, and from the peer table; quitting an unknown
    /// id changes nothing.
    #[verifier::rlimit(100)]
    #[verifier::spinoff_prover]
    pub fn peer_quit(&mut self, id: usize)
        requires
            old(self).wf(),
        ensures
            final(self).wf(),
            ({
                let pidx = assoc_idx(old(self).pv(), id);
                if pidx < 0 {
                    old(self).same_tables(final(self))
                } else {
                    let nv1 = (match old(self).pv()[pidx].1.nickname {
                        Some(n0) => old(self).nv().remove(
                            assoc_idx(old(self).nv(), fold_spec(n0)),
                        ),
                        None => old(self).nv(),
                    });
                    &&& final(self).pv() == old(self).pv().remove(pidx)
                    &&& final(self).nv() == nv1
                    &&& final(self).cv() == spec_quit_channels(old(self).cv(), id)
                    &&& final(self).next_id == old(self).next_id
                    &&& final(self).settings == old(self).settings
                }
            }),
    {
        let ghost pv0 = self.pv();
        let ghost nv0 = self.nv();
        let ghost cv0 = self.cv();
        let pidx = match self.peer_index(id) {
            None => {
                return ;
            },
            Some(p) => p,
        };
        proof {
            lemma_assoc_props(pv0, id);
        }
        let mut i: usize = 0;
        let ghost mut j: int = 0;
        proof {
            assert(cv0.take(0) =~= Seq::<(Seq<char>, ChannelView)>::empty());
            assert(cv0.skip(0) =~= cv0);
        }
        while i < self.channels.len()
            invariant
                old(self).wf(),
                pv0 == old(self).pv(),
                nv0 == old(self).nv(),
                cv0 == old(self).cv(),
                self.pv() == pv0,
                self.nv() == nv0,
                self.next_id == old(self).next_id,
                self.settings == old(self).settings,
                self.peers@ == old(self).peers@,
                self.nicks@ == old(self).nicks@,
                0 <= j <= cv0.len(),
                i as int == spec_quit_channels(cv0.take(j), id).len(),
                self.cv() == spec_quit_channels(cv0.take(j), id) + cv0.skip(j),
            decreases cv0.len() - j,
        {
            proof {
                assert(self.cv().len() == self.channels@.len());
                assert(j < cv0.len());
                assert(cv0.take(j + 1) =~= cv0.take(j) + seq![cv0[j]]);
                lemma_quit_concat(cv0.take(j), seq![cv0[j]], id);
                reveal_with_fuel(spec_quit_channels, 3);
                assert(seq![cv0[j]][0] == cv0[j]);
                assert(seq![cv0[j]].drop_first() =~= Seq::<(Seq<char>, ChannelView)>::empty());
                assert(spec_quit_channels(Seq::<(Seq<char>, ChannelView)>::empty(), id)
                    =~= Seq::<(Seq<char>, ChannelView)>::empty());
                assert(spec_quit_channels(seq![cv0[j]], id) =~= quit_one(cv0[j], id) + Seq::<
                    (Seq<char>, ChannelView),
                >::empty());
                assert(quit_one(cv0[j], id) + Seq::<(Seq<char>, ChannelView)>::empty()
                    =~= quit_one(cv0[j], id));
                assert(self.cv()[i as int] == cv0.skip(j)[0]);
                assert(cv0.skip(j)[0] == cv0[j]);
            }
            let ghost done = spec_quit_channels(cv0.take(j), id);
            let ghost chpre = self.channels@;
            let mut entry = self.channels.remove(i);
            proof {
                assert(entry.0@ == cv0[j].0);
                assert(entry.1@ == cv0[j].1);
                assert(self.channels@ == chpre.remove(i as int));
                assert(channels_view(chpre) == done + cv0.skip(j));
                assert forall|m: int| 0 <= m < self.cv().len() implies #[trigger] self.cv()[m]
                    == (done + cv0.skip(j + 1))[m] by {
                    lemma_remove_index(chpre, i as int, m);
                    let m0 = if m < i as int {
                        m
                    } else {
                        m + 1
                    };
                    assert(self.channels@[m] == chpre[m0]);
                    assert(self.cv()[m] == (self.channels@[m].0@, self.channels@[m].1@));
                    assert(channels_view(chpre)[m0] == (chpre[m0].0@, chpre[m0].1@));
                    assert(channels_view(chpre)[m0] == (done + cv0.skip(j))[m0]);
                    if m >= i as int {
                        assert((done + cv0.skip(j))[m0] == cv0.skip(j)[m0 - done.len()]);
                        assert(cv0.skip(j)[m0 - done.len()] == cv0[j + m0 - done.len()]);
                        assert((done + cv0.skip(j + 1))[m] == cv0.skip(j + 1)[m - done.len()]);
                        assert(cv0.skip(j + 1)[m - done.len()] == cv0[j + 1 + m - done.len()]);
                    }
                }
                assert(self.cv() =~= done + cv0.skip(j + 1));
                assert(cv0.skip(j).drop_first() =~= cv0.skip(j + 1));
                crate::channel::lemma_find_member(cv0[j].1.members, id);
            }
            let was = entry.1.remove_member(id);
            if entry.1.members.len() == 0 {
                proof {
                    assert(quit_one(cv0[j], id) =~= Seq::<(Seq<char>, ChannelView)>::empty());
                    assert(spec_quit_channels(cv0.take(j + 1), id) =~= done);
                    j = j + 1;
                    assert(self.cv() =~= spec_quit_channels(cv0.take(j), id) + cv0.skip(j));
                }
            } else {
                let ghost key = entry.0@;
                let ghost nvw = entry.1@;
                self.channels.insert(i, entry);
                i = i + 1;
                proof {
                    assert(quit_one(cv0[j], id) =~= seq![(key, nvw)]);
                    assert(spec_quit_channels(cv0.take(j + 1), id) =~= done.push((key, nvw)));
                    assert(self.cv() =~= (done + cv0.skip(j + 1)).insert(
                        done.len() as int,
                        (key, nvw),
                    ));
                    assert((done + cv0.skip(j + 1)).insert(done.len() as int, (key, nvw))
                        =~= done.push((key, nvw)) + cv0.skip(j + 1));
                    j = j + 1;
                    assert(self.cv() =~= spec_quit_channels(cv0.take(j), id) + cv0.skip(j));
                }
            }
        }
        proof {
            assert(j == cv0.len());
            assert(cv0.take(cv0.len() as int) =~= cv0);
            assert(cv0.skip(cv0.len() as int) =~= Seq::<(Seq<char>, ChannelView)>::empty());
            assert(self.cv() =~= spec_quit_channels(cv0, id));
        }
        // Drop the nickname index entry, if any.
        let old_folded: Option<String> = match &self.peers[pidx].1.nickname {
            Some(n0) => Some(casefold(n0.as_str())),
            None => None,
        };
        match old_folded {
            Some(f0) => {
                proof {
                    assert(pv0[pidx as int].1.nickname matches Some(n0v) && fold_spec(n0v)
                        == f0@);
                }
                let e0 = match self.nick_index(&f0) {
                    Some(e0) => e0,
                    None => {
                        proof {
                            lemma_assoc_props(nv0, f0@);
                            assert(false);
                        }
                        vstd::pervasive::unreached()
                    },
                };
                proof {
                    lemma_assoc_props(nv0, f0@);
                }
                self.nicks.remove(e0);
                proof {
                    assert(self.nv() =~= nv0.remove(e0 as int));
                }
            },
            None => {},
        }
        // Drop the peer itself.
        self.peers.remove(pidx);
        proof {
            assert(self.pv() =~= pv0.remove(pidx as int));
            lemma_peer_quit_wf(*old(self), *self, id, pidx as int);
        }
    }

    /// The login-timeout decision: a peer still unregistered when the timer
    /// fires is removed exactly as by `peer_quit`; anyone else is untouched.
    pub fn remove_if_unregistered(&mut self, id: usize)
        requires
            old(self).wf(),
        ensures
            final(self).wf(),
            ({
                let pidx = assoc_idx(old(self).pv(), id);
                if pidx < 0 || old(self).pv()[pidx].1.status != RegistrationState::Unregistered {
                    old(self).same_tables(final(self))
                } else {
                    let nv1 = (match old(self).pv()[pidx].1.nickname {
                        Some(n0) => old(self).nv().remove(
                            assoc_idx(old(self).nv(), fold_spec(n0)),
                        ),
                        None => old(self).nv(),
                    });
                    &&& final(self).pv() == old(self).pv().remove(pidx)
                    &&& final(self).nv() == nv1
                    &&& final(self).cv() == spec_quit_channels(old(self).cv(), id)
                    &&& final(self).next_id == old(self).next_id
                    &&& final(self).settings == old(self).settings
                }
            }),
    {
        proof {
            lemma_assoc_props(self.pv(), id);
        }
        match self.peer_index(id) {
            None => {},
            Some(p) => {
                let unregistered = match self.peers[p].1.status {
                    RegistrationState::Unregistered => true,
                    _ => false,
                };
                if unregistered {
                    self.peer_quit(id);
                }
            },
        }
    }

    /// The position of the (already folded) nickname in the nickname index.
    fn nick_index(&self, folded: &String) -> (r: Option<usize>)
        ensures
            (match r {
                Some(i) => i as int == assoc_idx(self.nv(), folded@),
                None => assoc_idx(self.nv(), folded@) < 0,
            }),
    {
        let mut i: usize = 0;
        while i < self.nicks.len()
            invariant
                0 <= i <= self.nicks@.len(),
                forall|k: int| 0 <= k < i ==> (#[trigger] self.nv()[k]).0 != folded@,
            decreases self.nicks@.len() - i,
        {
            proof {
                assert(self.nv()[i as int] == (self.nicks@[i as int].0@, self.nicks@[i as int].1));
            }
            if self.nicks[i].0 == *folded {
                proof {
                    lemma_assoc_at(self.nv(), folded@, i as int);
                }
                return Some(i);
            }
            i = i + 1;
        }
        proof {
            lemma_assoc_props(self.nv(), folded@);
        }
        None
    }

    /// The position of the (already folded) channel name in the channel table.
    fn channel_index(&self, folded: &String) -> (r: Option<usize>)
        ensures
            (match r {
                Some(i) => i as int == assoc_idx(self.cv(), folded@),
                None => assoc_idx(self.cv(), folded@) < 0,
            }),
    {
        let mut i: usize = 0;
        while i < self.channels.len()
            invariant
                0 <= i <= self.channels@.len(),
                forall|k: int| 0 <= k < i ==> (#[trigger] self.cv()[k]).0 != folded@,
            decreases self.channels@.len() - i,
        {
            proof {
                assert(self.cv()[i as int] == (
                    self.channels@[i as int].0@,
                    self.channels@[i as int].1@,
                ));
            }
            if self.channels[i].0 == *folded {
                proof {
                    lemma_assoc_at(self.cv(), folded@, i as int);
                }
                return Some(i);
            }
            i = i + 1;
        }
        proof {
            lemma_assoc_props(self.cv(), folded@);
        }
        None
    }
}

} // verus!
