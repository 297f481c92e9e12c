//! Shared string helpers: whitespace trimming with an exact character-level
//! specification, and contracts for the `String` growth operations the
//! builders use.

use vstd::prelude::*;
use vstd::string::StrSliceExecFns;

verus! {

/// Relies on alloc's `String::push`: appends the given char to the end.
pub assume_specification[ String::push ](s: &mut String, ch: char)
    ensures
        final(s)@ == old(s)@ + seq![ch],
;

/// Relies on alloc's `String::with_capacity`: a new empty `String` with at
/// least the given capacity.
pub assume_specification[ String::with_capacity ](capacity: usize) -> (r: String)
    ensures
        r@ == Seq::<char>::empty(),
;

/// Relies on alloc's `String::clear`: empties the string.
pub assume_specification[ String::clear ](s: &mut String)
    ensures
        final(s)@ == Seq::<char>::empty(),
;

/// Relies on alloc's `String::capacity`: the size of the allocation, in bytes.
pub assume_specification[ String::capacity ](s: &String) -> usize
;

/// Relies on alloc's `String::reserve`: grows the allocation, keeps the text.
pub assume_specification[ String::reserve ](s: &mut String, additional: usize)
    ensures
        final(s)@ == old(s)@,
;

/// The whitespace characters the message builders trim from parameters.
pub open spec fn is_ws(c: char) -> bool {
    c == ' ' || c == '\t' || c == '\r' || c == '\n'
}

/// `s` without its leading whitespace.
pub open spec fn trim_start_spec(s: Seq<char>) -> Seq<char>
    decreases s.len(),
{
    if s.len() == 0 {
        s
    } else if is_ws(s[0]) {
        trim_start_spec(s.drop_first())
    } else {
        s
    }
}

/// `s` without its trailing whitespace.
pub open spec fn trim_end_spec(s: Seq<char>) -> Seq<char>
    decreases s.len(),
{
    if s.len() == 0 {
        s
    } else if is_ws(s[s.len() - 1]) {
        trim_end_spec(s.drop_last())
    } else {
        s
    }
}

/// `s` without leading and trailing whitespace.
pub open spec fn trim_spec(s: Seq<char>) -> Seq<char> {
    trim_end_spec(trim_start_spec(s))
}

pub proof fn lemma_trim_start_at(s: Seq<char>, i: int)
    requires
        0 <= i <= s.len(),
        forall|k: int| 0 <= k < i ==> is_ws(s[k]),
        i == s.len() || !is_ws(s[i]),
    ensures
        trim_start_spec(s) == s.subrange(i, s.len() as int),
    decreases i,
{
    if i == 0 {
        assert(trim_start_spec(s) =~= s.subrange(0, s.len() as int));
    } else {
        assert(is_ws(s[0]));
        lemma_trim_start_at(s.drop_first(), i - 1);
        assert(s.drop_first().subrange(i - 1, s.drop_first().len() as int) =~= s.subrange(
            i,
            s.len() as int,
        ));
    }
}

pub proof fn lemma_trim_end_at(s: Seq<char>, j: int)
    requires
        0 <= j <= s.len(),
        forall|k: int| j <= k < s.len() ==> is_ws(s[k]),
        j == 0 || !is_ws(s[j - 1]),
    ensures
        trim_end_spec(s) == s.subrange(0, j),
    decreases s.len() - j,
{
    if j == s.len() {
        assert(trim_end_spec(s) =~= s.subrange(0, j));
    } else {
        assert(is_ws(s[s.len() - 1]));
        lemma_trim_end_at(s.drop_last(), j);
        assert(s.drop_last().subrange(0, j) =~= s.subrange(0, j));
    }
}

/// Whether `c` is one of the whitespace characters the builders trim.
pub fn is_ws_char(c: char) -> (b: bool)
    ensures
        b == is_ws(c),
{
    c == ' ' || c == '\t' || c == '\r' || c == '\n'
}

/// `s` without leading and trailing whitespace.
pub fn trim(s: &str) -> (r: &str)
    ensures
        r@ == trim_spec(s@),
{
    let n = s.unicode_len();
    let mut i: usize = 0;
    while i < n && is_ws_char(s.get_char(i))
        invariant
            0 <= i <= n,
            n == s@.len(),
            forall|k: int| 0 <= k < i ==> is_ws(s@[k]),
        decreases n - i,
    {
        i = i + 1;
    }
    let mut j: usize = n;
    while j > i && is_ws_char(s.get_char(j - 1))
        invariant
            i <= j <= n,
            n == s@.len(),
            forall|k: int| j <= k < n ==> is_ws(s@[k]),
        decreases j,
    {
        j = j - 1;
    }
    proof {
        lemma_trim_start_at(s@, i as int);
        let t = s@.subrange(i as int, n as int);
        lemma_trim_end_at(t, j - i);
        assert(t.subrange(0, j - i) =~= s@.subrange(i as int, j as int));
    }
    s.substring_char(i, j)
}

/// Trimming changes nothing on text with no whitespace at either end, such
/// as a well-formed command or parameter token: on those, `param` appends the
/// text as it is.
pub proof fn lemma_trim_plain(s: Seq<char>)
    requires
        s.len() > 0,
        !is_ws(s[0]),
        !is_ws(s[s.len() - 1]),
    ensures
        trim_spec(s) == s,
{
    assert(trim_start_spec(s) == s);
    assert(trim_end_spec(s) == s);
}

/// The character for one decimal digit.
pub open spec fn dec_digit(d: nat) -> char {
    if d == 0 {
        '0'
    } else if d == 1 {
        '1'
    } else if d == 2 {
        '2'
    } else if d == 3 {
        '3'
    } else if d == 4 {
        '4'
    } else if d == 5 {
        '5'
    } else if d == 6 {
        '6'
    } else if d == 7 {
        '7'
    } else if d == 8 {
        '8'
    } else {
        '9'
    }
}

/// The decimal rendering of `n`, without sign or leading zeros.
pub open spec fn dec_spec(n: nat) -> Seq<char>
    decreases n,
{
    if n < 10 {
        seq![dec_digit(n)]
    } else {
        dec_spec(n / 10) + seq![dec_digit(n % 10)]
    }
}

/// The character for the decimal digit `d`.
pub fn dec_digit_char(d: usize) -> (c: char)
    requires
        d < 10,
    ensures
        c == dec_digit(d as nat),
{
    if d == 0 {
        '0'
    } else if d == 1 {
        '1'
    } else if d == 2 {
        '2'
    } else if d == 3 {
        '3'
    } else if d == 4 {
        '4'
    } else if d == 5 {
        '5'
    } else if d == 6 {
        '6'
    } else if d == 7 {
        '7'
    } else if d == 8 {
        '8'
    } else {
        '9'
    }
}

/// Appends the decimal rendering of `n` to `buf`.
pub fn push_dec(buf: &mut String, n: usize)
    ensures
        final(buf)@ == old(buf)@ + dec_spec(n as nat),
    decreases n,
{
    if n >= 10 {
        push_dec(buf, n / 10);
    }
    buf.push(dec_digit_char(n % 10));
    proof {
        assert(buf@ =~= old(buf)@ + dec_spec(n as nat));
    }
}

/// Whether `c` is a decimal digit.
pub open spec fn is_digit(c: char) -> bool {
    c == '0' || c == '1' || c == '2' || c == '3' || c == '4' || c == '5' || c == '6' || c == '7'
        || c == '8' || c == '9'
}

/// The value of a decimal digit; 0 for any other character.
pub open spec fn digit_of(c: char) -> nat {
    if c == '1' {
        1
    } else if c == '2' {
        2
    } else if c == '3' {
        3
    } else if c == '4' {
        4
    } else if c == '5' {
        5
    } else if c == '6' {
        6
    } else if c == '7' {
        7
    } else if c == '8' {
        8
    } else if c == '9' {
        9
    } else {
        0
    }
}

/// The value of a digit string.
pub open spec fn digits_val(s: Seq<char>) -> nat
    decreases s.len(),
{
    if s.len() == 0 {
        0
    } else {
        digits_val(s.drop_last()) * 10 + digit_of(s.last())
    }
}

/// Whether every character of `s` is a decimal digit.
pub open spec fn all_digits(s: Seq<char>) -> bool {
    forall|i: int| 0 <= i < s.len() ==> is_digit(#[trigger] s[i])
}

/// What `parse_usize` accepts: an optional `+`, then at least one digit, with
/// a value that fits.
pub open spec fn parse_usize_spec(s: Seq<char>) -> Option<usize> {
    let t = if s.len() > 0 && s[0] == '+' {
        s.drop_first()
    } else {
        s
    };
    if t.len() > 0 && all_digits(t) && digits_val(t) <= usize::MAX {
        Some(digits_val(t) as usize)
    } else {
        None
    }
}

/// A digit prefix never exceeds the whole digit string's value.
pub proof fn lemma_digits_prefix(s: Seq<char>, k: int)
    requires
        0 <= k <= s.len(),
    ensures
        digits_val(s.take(k)) <= digits_val(s),
    decreases s.len() - k,
{
    if k < s.len() {
        lemma_digits_prefix(s, k + 1);
        assert(s.take(k + 1).drop_last() =~= s.take(k));
        assert(digits_val(s.take(k + 1)) == digits_val(s.take(k)) * 10 + digit_of(s[k]));
    } else {
        assert(s.take(k) =~= s);
    }
}

/// The digit's exec value.
fn digit_val_char(c: char) -> (d: usize)
    requires
        is_digit(c),
    ensures
        d == digit_of(c),
{
    if c == '1' {
        1
    } else if c == '2' {
        2
    } else if c == '3' {
        3
    } else if c == '4' {
        4
    } else if c == '5' {
        5
    } else if c == '6' {
        6
    } else if c == '7' {
        7
    } else if c == '8' {
        8
    } else if c == '9' {
        9
    } else {
        0
    }
}

/// Whether `c` is a decimal digit.
fn is_digit_char(c: char) -> (b: bool)
    ensures
        b == is_digit(c),
{
    c == '0' || c == '1' || c == '2' || c == '3' || c == '4' || c == '5' || c == '6' || c == '7'
        || c == '8' || c == '9'
}

/// Parses `s` as a decimal number: an optional `+`, then at least one digit;
/// `None` when the shape is wrong or the value does not fit.
pub fn parse_usize(s: &str) -> (r: Option<usize>)
    ensures
        r == parse_usize_spec(s@),
{
    let n = s.unicode_len();
    let start: usize = if n > 0 && s.get_char(0) == '+' {
        1
    } else {
        0
    };
    let ghost t = if s@.len() > 0 && s@[0] == '+' {
        s@.drop_first()
    } else {
        s@
    };
    proof {
        assert(t =~= s@.skip(start as int));
    }
    if start == n {
        return None;
    }
    let mut acc: usize = 0;
    let mut i: usize = start;
    while i < n
        invariant
            start <= i <= n,
            n == s@.len(),
            t == s@.skip(start as int),
            t == (if s@.len() > 0 && s@[0] == '+' {
                s@.drop_first()
            } else {
                s@
            }),
            t.len() == n - start,
            all_digits(t.take(i - start)),
            acc == digits_val(t.take(i - start)),
        decreases n - i,
    {
        let c = s.get_char(i);
        proof {
            assert(t[i - start] == s@[i as int]);
        }
        if !is_digit_char(c) {
            proof {
                assert(!is_digit(t[i - start]));
                assert(!all_digits(t));
            }
            return None;
        }
        let d = digit_val_char(c);
        let acc10 = match acc.checked_mul(10) {
            Some(v) => v,
            None => {
                proof {
                    assert(t.take(i - start + 1).drop_last() =~= t.take(i - start));
                    assert(t.take(i - start + 1).last() == t[i - start]);
                    assert(digits_val(t.take(i - start + 1)) > usize::MAX);
                    lemma_digits_prefix(t, i - start + 1);
                }
                return None;
            },
        };
        let acc2 = match acc10.checked_add(d) {
            Some(v) => v,
            None => {
                proof {
                    assert(t.take(i - start + 1).drop_last() =~= t.take(i - start));
                    assert(t.take(i - start + 1).last() == t[i - start]);
                    assert(digits_val(t.take(i - start + 1)) > usize::MAX);
                    lemma_digits_prefix(t, i - start + 1);
                }
                return None;
            },
        };
        acc = acc2;
        proof {
            assert(t.take(i - start + 1).drop_last() =~= t.take(i - start));
            assert(t.take(i - start + 1).last() == t[i - start]);
        }
        i = i + 1;
    }
    proof {
        assert(t.take(n - start) =~= t);
    }
    Some(acc)
}

/// The decimal rendering is digits only, and reading it back gives `n`.
pub proof fn lemma_dec_round_trip(n: nat)
    ensures
        dec_spec(n).len() > 0,
        all_digits(dec_spec(n)),
        dec_spec(n)[0] != '+',
        digits_val(dec_spec(n)) == n,
    decreases n,
{
    if n < 10 {
        assert(dec_spec(n) =~= seq![dec_digit(n)]);
        assert(dec_spec(n).drop_last() =~= Seq::<char>::empty());
        assert(dec_spec(n).last() == dec_digit(n));
        assert(digits_val(Seq::<char>::empty()) == 0);
        assert(digits_val(dec_spec(n)) == digits_val(dec_spec(n).drop_last()) * 10 + digit_of(
            dec_spec(n).last(),
        ));
        assert(digits_val(dec_spec(n)) == digit_of(dec_digit(n)));
    } else {
        lemma_dec_round_trip(n / 10);
        let d = dec_spec(n);
        assert(d == dec_spec(n / 10) + seq![dec_digit(n % 10)]);
        assert(d.drop_last() =~= dec_spec(n / 10));
        assert(d.last() == dec_digit(n % 10));
        assert(digits_val(d) == digits_val(dec_spec(n / 10)) * 10 + digit_of(dec_digit(n % 10)));
        assert(digits_val(d) == (n / 10) * 10 + n % 10);
        assert forall|i: int| 0 <= i < d.len() implies is_digit(#[trigger] d[i]) by {
            if i < dec_spec(n / 10).len() {
                assert(d[i] == dec_spec(n / 10)[i]);
            } else {
                assert(d[i] == dec_digit(n % 10));
            }
        }
        assert(d[0] == dec_spec(n / 10)[0]);
    }
}

/// Reading the decimal rendering of `n` back yields `n`.
pub proof fn lemma_parse_of_dec(n: usize)
    ensures
        parse_usize_spec(dec_spec(n as nat)) == Some(n),
{
    lemma_dec_round_trip(n as nat);
}

/// The decimal rendering of `n` as a `String`.
pub fn to_dec_string(n: usize) -> (r: String)
    ensures
        r@ == dec_spec(n as nat),
{
    let mut buf = String::new();
    push_dec(&mut buf, n);
    proof {
        assert(buf@ =~= dec_spec(n as nat));
    }
    buf
}

} // verus!
