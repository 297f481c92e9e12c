//! Glob-style mask matching, the duplicate-free ordered mask set used by
//! channel ban/exception/invitation lists, and small ports to the outside
//! world: the clock, formatted timestamps, message-id randomness and password
//! hashing.

use argon2::{Argon2, PasswordHasher, PasswordVerifier};
use base64::Engine;
use rand_core::{Rng, SeedableRng};
use vstd::prelude::*;
use vstd::string::StrSliceExecFns;

verus! {

/// IRC mask semantics: `*` matches any run of characters, `?` matches exactly
/// one character, anything else matches itself.
pub open spec fn glob_match(p: Seq<char>, s: Seq<char>) -> bool
    decreases p.len() + s.len(),
{
    if p.len() == 0 {
        s.len() == 0
    } else if p[0] == '*' {
        glob_match(p.drop_first(), s) || (s.len() > 0 && glob_match(p, s.drop_first()))
    } else if s.len() == 0 {
        false
    } else if p[0] == '?' || p[0] == s[0] {
        glob_match(p.drop_first(), s.drop_first())
    } else {
        false
    }
}

/// The characters of `s`, as a vector.
fn str_chars(s: &str) -> (v: Vec<char>)
    ensures
        v@ == s@,
{
    let n = s.unicode_len();
    let mut v: Vec<char> = Vec::new();
    let mut i: usize = 0;
    while i < n
        invariant
            0 <= i <= n,
            n == s@.len(),
            v@ == s@.take(i as int),
        decreases n - i,
    {
        v.push(s.get_char(i));
        proof {
            assert(v@ =~= s@.take(i + 1));
        }
        i = i + 1;
    }
    proof {
        assert(s@.take(n as int) =~= s@);
    }
    v
}

/// Matches the suffixes of `p` and `s` starting at `pi` and `si`.
fn glob_rec(p: &Vec<char>, pi: usize, s: &Vec<char>, si: usize) -> (b: bool)
    requires
        pi <= p@.len(),
        si <= s@.len(),
    ensures
        b == glob_match(p@.skip(pi as int), s@.skip(si as int)),
    decreases (p@.len() - pi) + (s@.len() - si),
{
    let ghost ps = p@.skip(pi as int);
    let ghost ss = s@.skip(si as int);
    if pi == p.len() {
        return si == s.len();
    }
    proof {
        assert(ps[0] == p@[pi as int]);
        assert(ps.drop_first() =~= p@.skip(pi + 1));
        assert(ss.len() > 0 ==> ss.drop_first() =~= s@.skip(si + 1));
        assert(ss.len() > 0 ==> ss[0] == s@[si as int]);
    }
    let pc = p[pi];
    if pc == '*' {
        if glob_rec(p, pi + 1, s, si) {
            true
        } else if si < s.len() {
            glob_rec(p, pi, s, si + 1)
        } else {
            false
        }
    } else if si == s.len() {
        false
    } else if pc == '?' || pc == s[si] {
        glob_rec(p, pi + 1, s, si + 1)
    } else {
        false
    }
}

/// Whether the glob `mask` matches all of `s`.
pub fn match_mask(mask: &str, s: &str) -> (b: bool)
    ensures
        b == glob_match(mask@, s@),
{
    let p = str_chars(mask);
    let t = str_chars(s);
    let r = glob_rec(&p, 0, &t, 0);
    proof {
        assert(p@.skip(0) =~= mask@);
        assert(t@.skip(0) =~= s@);
    }
    r
}

/// No two entries are equal.
pub open spec fn no_dups(v: Seq<Seq<char>>) -> bool {
    forall|i: int, j: int| 0 <= i < j < v.len() ==> v[i] != v[j]
}

/// What `MaskSet::insert` does: an already-present mask is refused, a new one
/// goes to the end.
pub open spec fn spec_mask_insert(v: Seq<Seq<char>>, m: Seq<char>) -> (Seq<Seq<char>>, bool) {
    if v.contains(m) {
        (v, false)
    } else {
        (v.push(m), true)
    }
}

/// What `MaskSet::remove` does: an absent mask is refused, a present one is
/// removed from its position.
pub open spec fn spec_mask_remove(v: Seq<Seq<char>>, m: Seq<char>) -> (Seq<Seq<char>>, bool) {
    if v.contains(m) {
        (v.remove(v.index_of(m)), true)
    } else {
        (v, false)
    }
}

/// Whether any mask of `v` matches `s`.
pub open spec fn spec_any_match(v: Seq<Seq<char>>, s: Seq<char>) -> bool {
    exists|i: int| 0 <= i < v.len() && glob_match(v[i], s)
}

/// Inserting the same mask twice: the second insert returns `false` and
/// changes nothing.
pub proof fn lemma_mask_insert_twice(v: Seq<Seq<char>>, m: Seq<char>)
    ensures
        spec_mask_insert(spec_mask_insert(v, m).0, m).0 == spec_mask_insert(v, m).0,
        spec_mask_insert(spec_mask_insert(v, m).0, m).1 == false,
{
    if !v.contains(m) {
        assert(v.push(m)[v.len() as int] == m);
        assert(v.push(m).contains(m));
    }
}

/// Removing an absent mask returns `false` and changes nothing.
pub proof fn lemma_mask_remove_absent(v: Seq<Seq<char>>, m: Seq<char>)
    requires
        !v.contains(m),
    ensures
        spec_mask_remove(v, m).0 == v,
        spec_mask_remove(v, m).1 == false,
{
}

/// Insert keeps the set duplicate-free.
pub proof fn lemma_mask_insert_no_dups(v: Seq<Seq<char>>, m: Seq<char>)
    requires
        no_dups(v),
    ensures
        no_dups(spec_mask_insert(v, m).0),
{
    if !v.contains(m) {
        let w = v.push(m);
        assert forall|i: int, j: int| 0 <= i < j < w.len() implies w[i] != w[j] by {
            if j == v.len() {
                assert(w[i] == v[i]);
                assert(!v.contains(m));
            }
        }
    }
}

/// Remove keeps the set duplicate-free.
pub proof fn lemma_mask_remove_no_dups(v: Seq<Seq<char>>, m: Seq<char>)
    requires
        no_dups(v),
    ensures
        no_dups(spec_mask_remove(v, m).0),
{
    if v.contains(m) {
        let k = v.index_of(m);
        let w = v.remove(k);
        assert forall|i: int, j: int| 0 <= i < j < w.len() implies w[i] != w[j] by {
            let i0 = if i < k {
                i
            } else {
                i + 1
            };
            let j0 = if j < k {
                j
            } else {
                j + 1
            };
            assert(w[i] == v[i0]);
            assert(w[j] == v[j0]);
        }
    }
}

/// An ordered collection of IRC masks without duplicates.
pub struct MaskSet {
    masks: Vec<String>,
}

impl View for MaskSet {
    type V = Seq<Seq<char>>;

    closed spec fn view(&self) -> Seq<Seq<char>> {
        self.masks.deep_view()
    }
}

impl MaskSet {
    /// The set's invariant: no duplicate mask.
    pub open spec fn wf(&self) -> bool {
        no_dups(self@)
    }

    /// An empty mask set.
    pub fn new() -> (r: Self)
        ensures
            r@ == Seq::<Seq<char>>::empty(),
            r.wf(),
    {
        let r = MaskSet { masks: Vec::new() };
        proof {
            assert(r@ =~= Seq::<Seq<char>>::empty());
        }
        r
    }

    /// Whether any member mask matches `s`.
    pub fn is_match(&self, s: &str) -> (b: bool)
        ensures
            b == spec_any_match(self@, s@),
    {
        let mut i: usize = 0;
        while i < self.masks.len()
            invariant
                0 <= i <= self.masks.len(),
                self@.len() == self.masks.len(),
                forall|k: int| 0 <= k < i ==> !glob_match(self@[k], s@),
            decreases self.masks.len() - i,
        {
            proof {
                assert(self@[i as int] == self.masks@[i as int]@);
            }
            if match_mask(self.masks[i].as_str(), s) {
                return true;
            }
            i = i + 1;
        }
        false
    }

    /// Adds `mask` unless it is already present; returns whether it was added.
    pub fn insert(&mut self, mask: &str) -> (r: bool)
        requires
            old(self).wf(),
        ensures
            final(self).wf(),
            final(self)@ == spec_mask_insert(old(self)@, mask@).0,
            r == spec_mask_insert(old(self)@, mask@).1,
    {
        let m = mask.to_owned();
        let mut i: usize = 0;
        while i < self.masks.len()
            invariant
                0 <= i <= self.masks.len(),
                self@.len() == self.masks.len(),
                m@ == mask@,
                old(self) == self,
                old(self).wf(),
                forall|k: int| 0 <= k < i ==> self@[k] != mask@,
            decreases self.masks.len() - i,
        {
            proof {
                assert(self@[i as int] == self.masks@[i as int]@);
            }
            if self.masks[i] == m {
                return false;
            }
            i = i + 1;
        }
        proof {
            assert(!old(self)@.contains(mask@));
            lemma_mask_insert_no_dups(old(self)@, mask@);
        }
        self.masks.push(m);
        proof {
            assert(self@ =~= old(self)@.push(mask@));
        }
        true
    }

    /// Removes `mask` if present; returns whether it was removed.
    pub fn remove(&mut self, mask: &str) -> (r: bool)
        requires
            old(self).wf(),
        ensures
            final(self).wf(),
            final(self)@ == spec_mask_remove(old(self)@, mask@).0,
            r == spec_mask_remove(old(self)@, mask@).1,
    {
        let m = mask.to_owned();
        let mut i: usize = 0;
        while i < self.masks.len()
            invariant
                0 <= i <= self.masks.len(),
                self@.len() == self.masks.len(),
                m@ == mask@,
                old(self) == self,
                old(self).wf(),
                forall|k: int| 0 <= k < i ==> self@[k] != mask@,
            decreases self.masks.len() - i,
        {
            proof {
                assert(self@[i as int] == self.masks@[i as int]@);
            }
            if self.masks[i] == m {
                proof {
                    assert(old(self)@.contains(mask@));
                    let k = old(self)@.index_of(mask@);
                    assert(old(self)@[k] == mask@);
                    assert(old(self)@[i as int] == mask@);
                    if k != i as int {
                        if k < i as int {
                            assert(old(self)@[k] != old(self)@[i as int]);
                        } else {
                            assert(old(self)@[i as int] != old(self)@[k]);
                        }
                    }
                    assert(k == i as int);
                    lemma_mask_remove_no_dups(old(self)@, mask@);
                }
                self.masks.remove(i);
                proof {
                    assert(self@ =~= old(self)@.remove(i as int));
                }
                return true;
            }
            i = i + 1;
        }
        proof {
            assert(!old(self)@.contains(mask@));
        }
        false
    }

    /// The masks, in insertion order.
    pub fn masks(&self) -> (r: &Vec<String>)
        ensures
            r.deep_view() == self@,
    {
        &self.masks
    }
}

/// Relies on std's `SystemTime::now` and `duration_since(UNIX_EPOCH)`: the
/// wall clock as seconds since the epoch, 0 when the clock lies before it.
#[verifier::external_body]
pub fn time() -> u64 {
    match std::time::SystemTime::now().duration_since(std::time::UNIX_EPOCH) {
        Ok(unix_time) => unix_time.as_secs(),
        Err(_) => 0,
    }
}

/// Relies on humantime's `format_rfc3339_millis` over std's
/// `SystemTime::now`: the current time formatted for message tags.
#[verifier::external_body]
pub fn time_precise() -> String {
    humantime::format_rfc3339_millis(std::time::SystemTime::now()).to_string()
}

/// Relies on humantime's `format_rfc3339_seconds` over std's
/// `SystemTime::now`: the current time formatted to be human-readable.
#[verifier::external_body]
pub fn time_str() -> String {
    humantime::format_rfc3339_seconds(std::time::SystemTime::now()).to_string()
}

#[verifier::external_type_specification]
#[verifier::external_body]
pub struct ExChaChaRng(rand_chacha::ChaChaRng);

/// Relies on rand_chacha's `ChaChaRng::seed_from_u64` (`SeedableRng`): a
/// stream cipher random generator from the given seed.
#[verifier::external_body]
fn chacha_from_seed(seed: u64) -> rand_chacha::ChaChaRng {
    rand_chacha::ChaChaRng::seed_from_u64(seed)
}

/// Relies on rand_chacha's `fill_bytes` (rand_core's `Rng`): overwrites the
/// buffer with random bytes, keeping its length.
#[verifier::external_body]
fn chacha_fill(rng: &mut rand_chacha::ChaChaRng, buf: &mut Vec<u8>)
    ensures
        final(buf)@.len() == old(buf)@.len(),
{
    rng.fill_bytes(buf.as_mut_slice());
}

/// The base64 encoding, standard alphabet without padding, of `bytes`.
pub uninterp spec fn b64_nopad_of(bytes: Seq<u8>) -> Seq<char>;

/// Relies on base64's `STANDARD_NO_PAD.encode`: the standard-alphabet,
/// unpadded encoding, four characters for each three bytes and two or three
/// for a trailing one or two.
#[verifier::external_body]
fn base64_encode_nopad(bytes: &Vec<u8>) -> (r: String)
    ensures
        r@ == b64_nopad_of(bytes@),
        r@.len() == 4 * (bytes@.len() / 3) + (if bytes@.len() % 3 == 0 {
            0
        } else {
            bytes@.len() % 3 + 1
        }) as nat,
{
    base64::engine::general_purpose::STANDARD_NO_PAD.encode(bytes.as_slice())
}

/// A random generator for message ids, seeded from the clock.
pub fn new_id_rng() -> rand_chacha::ChaChaRng {
    chacha_from_seed(time())
}

/// A fresh message id: 24 random bytes, base64-encoded without padding into
/// 32 characters.
pub fn new_message_id(rng: &mut rand_chacha::ChaChaRng) -> (r: String)
    ensures
        r@.len() == 32,
{
    let mut bytes: Vec<u8> = Vec::new();
    let mut i: usize = 0;
    while i < 24
        invariant
            bytes@.len() == i,
            0 <= i <= 24,
        decreases 24 - i,
    {
        bytes.push(0u8);
        i = i + 1;
    }
    chacha_fill(rng, &mut bytes);
    base64_encode_nopad(&bytes)
}

/// Whether argon2 verification of `password` against the PHC string `hash`
/// succeeds: the string parses, and hashing the password with its salt and
/// parameters reproduces its output.
pub uninterp spec fn argon2_verify_ok(hash: Seq<char>, password: Seq<char>) -> bool;

/// Why a password operation failed.
#[derive(Clone, Copy, Debug, PartialEq, Eq, Structural)]
pub enum PasswordError {
    /// Hashing itself failed.
    Hash,
    /// The hash did not parse, or the password did not match it.
    BadCredentials,
}

/// Relies on argon2's `PasswordHasher::hash_password` with the default
/// parameters and a random salt; the produced PHC string verifies against the
/// same password.
#[verifier::external_body]
pub fn hash_password(password: &str) -> (r: Result<String, PasswordError>)
    ensures
        (r matches Ok(h) ==> argon2_verify_ok(h@, password@)),
{
    match Argon2::default().hash_password(password.as_bytes()) {
        Ok(h) => Ok(h.to_string()),
        Err(_) => Err(PasswordError::Hash),
    }
}

/// Relies on argon2's `PasswordVerifier::verify_password` for PHC strings:
/// `Ok` exactly when the hash parses and the password matches it.
#[verifier::external_body]
pub fn verify_password_hash(password_hash: &str, password: &str) -> (r: Result<
    (),
    PasswordError,
>)
    ensures
        (r is Ok) == argon2_verify_ok(password_hash@, password@),
{
    match PasswordVerifier::<str>::verify_password(
        &Argon2::default(),
        password.as_bytes(),
        password_hash,
    ) {
        Ok(u) => Ok(u),
        Err(_) => Err(PasswordError::BadCredentials),
    }
}

} // verus!
