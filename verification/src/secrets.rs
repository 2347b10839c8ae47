//! Redaction of secret-shaped tokens (hashes, JSON web tokens, API keys,
//! UUIDs) from text before it leaves the machine.
//!
//! Each kind of token is a small regular language; [`redact`] replaces
//! the leftmost matches one after the other, never overlapping, exactly as
//! a regular-expression `replace_all` does.

use vstd::prelude::*;
use crate::text::{has_at, chars_at, append_chars, chars_of, string_from};
use crate::word::{boundary, boundary_exec, word_flags, word_flags_exec};

verus! {

/// The kinds of secret-shaped tokens, in the order they are redacted.
#[derive(Clone, Copy)]
pub enum Secret {
    /// `\b[a-fA-F0-9]{32,64}\b`: MD5, SHA-1, SHA-256 digests.
    Hash,
    /// `eyJ[a-zA-Z0-9_-]+\.[a-zA-Z0-9_-]+\.[a-zA-Z0-9_-]+`: JSON web tokens.
    Jwt,
    /// `AIza[0-9A-Za-z-_]{35}`: Google API keys.
    GoogleKey,
    /// `\b[0-9a-fA-F]{8}-[0-9a-fA-F]{4}-[0-9a-fA-F]{4}-[0-9a-fA-F]{4}-[0-9a-fA-F]{12}\b`.
    Uuid,
    /// `\bAKIA[0-9A-Z]{16}\b`: AWS access key ids.
    AwsKey,
}

/// Character classes used by the token patterns.
#[derive(Clone, Copy)]
pub enum Class {
    /// `[0-9a-fA-F]`
    Hex,
    /// `[0-9A-Za-z_-]`
    Token,
    /// `[0-9A-Z]`
    UpperAlnum,
}

/// Whether `c` belongs to the class `cls`.
pub open spec fn in_class(cls: Class, c: char) -> bool {
    let u = c as int;
    match cls {
        Class::Hex => (0x30 <= u <= 0x39) || (0x41 <= u <= 0x46) || (0x61 <= u <= 0x66),
        Class::Token => (0x30 <= u <= 0x39) || (0x41 <= u <= 0x5A) || (0x61 <= u <= 0x7A) || u
            == 0x5F || u == 0x2D,
        Class::UpperAlnum => (0x30 <= u <= 0x39) || (0x41 <= u <= 0x5A),
    }
}

/// Length of the longest run of `cls` characters starting at `i`.
pub open spec fn run_len(cls: Class, s: Seq<char>, i: int) -> int
    decreases s.len() - i,
{
    if 0 <= i < s.len() && in_class(cls, s[i]) {
        1 + run_len(cls, s, i + 1)
    } else {
        0
    }
}

/// `s[i..i+n]` lies inside `s` and consists of `cls` characters.
pub open spec fn all_in(cls: Class, s: Seq<char>, i: int, n: int) -> bool {
    0 <= i && 0 <= n && i + n <= s.len() && forall|k: int| i <= k < i + n ==> in_class(cls, #[trigger] s[k])
}

/// Hash: a run of 32 to 64 hex digits with a word boundary on each side.
/// (Hex digits are word characters, so of the counts the greedy `{32,64}`
/// tries, only the whole run can end at a boundary.)
pub open spec fn hash_len(s: Seq<char>, w: Seq<bool>, i: int) -> int {
    let r = run_len(Class::Hex, s, i);
    if boundary(w, i) && 32 <= r <= 64 && boundary(w, i + r) {
        r
    } else {
        0
    }
}

/// JWT: `eyJ` and three dot-separated runs; `.` is outside the class, so
/// each greedy `+` takes the whole run.
pub open spec fn jwt_len(s: Seq<char>, i: int) -> int {
    let p1 = i + 3;
    let r1 = run_len(Class::Token, s, p1);
    let d1 = p1 + r1;
    let r2 = run_len(Class::Token, s, d1 + 1);
    let d2 = d1 + 1 + r2;
    let r3 = run_len(Class::Token, s, d2 + 1);
    if has_at(s, i, seq!['e', 'y', 'J']) && r1 > 0 && d1 < s.len() && s[d1] == '.' && r2 > 0
        && d2 < s.len() && s[d2] == '.' && r3 > 0 {
        d2 + 1 + r3 - i
    } else {
        0
    }
}

/// Google API key: `AIza` and 35 token characters.
pub open spec fn google_key_len(s: Seq<char>, i: int) -> int {
    if has_at(s, i, seq!['A', 'I', 'z', 'a']) && all_in(Class::Token, s, i + 4, 35) {
        39
    } else {
        0
    }
}

/// The 8-4-4-4-12 hex layout of a UUID at `i`.
pub open spec fn uuid_shape(s: Seq<char>, i: int) -> bool {
    &&& all_in(Class::Hex, s, i, 8)
    &&& all_in(Class::Hex, s, i + 9, 4)
    &&& all_in(Class::Hex, s, i + 14, 4)
    &&& all_in(Class::Hex, s, i + 19, 4)
    &&& all_in(Class::Hex, s, i + 24, 12)
    &&& s[i + 8] == '-' && s[i + 13] == '-' && s[i + 18] == '-' && s[i + 23] == '-'
}

/// UUID with a word boundary on each side.
pub open spec fn uuid_len(s: Seq<char>, w: Seq<bool>, i: int) -> int {
    if boundary(w, i) && uuid_shape(s, i) && boundary(w, i + 36) {
        36
    } else {
        0
    }
}

/// AWS access key id: `AKIA` and 16 of `[0-9A-Z]`, between word boundaries.
pub open spec fn aws_key_len(s: Seq<char>, w: Seq<bool>, i: int) -> int {
    if boundary(w, i) && has_at(s, i, seq!['A', 'K', 'I', 'A']) && all_in(
        Class::UpperAlnum,
        s,
        i + 4,
        16,
    ) && boundary(w, i + 20) {
        20
    } else {
        0
    }
}

/// Length of the match of `p` that starts at `i` (0: none), where `w`
/// tells which characters of `s` are word characters.
pub open spec fn match_len(p: Secret, s: Seq<char>, w: Seq<bool>, i: int) -> int {
    match p {
        Secret::Hash => hash_len(s, w, i),
        Secret::Jwt => jwt_len(s, i),
        Secret::GoogleKey => google_key_len(s, i),
        Secret::Uuid => uuid_len(s, w, i),
        Secret::AwsKey => aws_key_len(s, w, i),
    }
}

/// The text that stands in for a token of kind `p`.
pub open spec fn replacement(p: Secret) -> Seq<char> {
    match p {
        Secret::Hash => "[REDACTED_HASH]"@,
        Secret::Jwt => "[REDACTED_JWT]"@,
        Secret::GoogleKey => "[REDACTED_GOOGLE_KEY]"@,
        Secret::Uuid => "[REDACTED_UUID]"@,
        Secret::AwsKey => "[REDACTED_AWS_KEY]"@,
    }
}

/// `s[i..]` with every leftmost, non-overlapping match of `p` replaced.
/// (A match never runs past the end of `s`; the bound on `i + l` only makes
/// the termination of the recursion evident.)
pub open spec fn redact_from(p: Secret, s: Seq<char>, w: Seq<bool>, i: int) -> Seq<char>
    decreases s.len() - i,
{
    if i < 0 || i >= s.len() {
        Seq::empty()
    } else {
        let l = match_len(p, s, w, i);
        if 0 < l && i + l <= s.len() {
            replacement(p) + redact_from(p, s, w, i + l)
        } else {
            seq![s[i]] + redact_from(p, s, w, i + 1)
        }
    }
}

/// `s` with every match of `p` replaced, word characters as `w` says.
pub open spec fn redact_with(p: Secret, s: Seq<char>, w: Seq<bool>) -> Seq<char> {
    redact_from(p, s, w, 0)
}

/// `s` with every match of `p` replaced.
pub open spec fn redact(p: Secret, s: Seq<char>) -> Seq<char> {
    redact_with(p, s, word_flags(s))
}

/// All five redactions, applied in turn: hashes, JWTs, Google keys, UUIDs,
/// AWS keys.
pub open spec fn sanitized(s: Seq<char>) -> Seq<char> {
    redact(
        Secret::AwsKey,
        redact(Secret::Uuid, redact(Secret::GoogleKey, redact(Secret::Jwt, redact(Secret::Hash, s)))),
    )
}

fn in_class_exec(cls: Class, c: char) -> (res: bool)
    ensures
        res == in_class(cls, c),
{
    let u = c as u32;
    match cls {
        Class::Hex => (0x30 <= u && u <= 0x39) || (0x41 <= u && u <= 0x46) || (0x61 <= u && u
            <= 0x66),
        Class::Token => (0x30 <= u && u <= 0x39) || (0x41 <= u && u <= 0x5A) || (0x61 <= u && u
            <= 0x7A) || u == 0x5F || u == 0x2D,
        Class::UpperAlnum => (0x30 <= u && u <= 0x39) || (0x41 <= u && u <= 0x5A),
    }
}

fn run_len_exec(cls: Class, s: &[char], i: usize) -> (r: usize)
    requires
        i <= s@.len(),
    ensures
        r == run_len(cls, s@, i as int),
        i + r <= s@.len(),
{
    let mut j = i;
    while j < s.len() && in_class_exec(cls, s[j])
        invariant
            i <= j <= s@.len(),
            run_len(cls, s@, i as int) == (j - i) + run_len(cls, s@, j as int),
        decreases s@.len() - j,
    {
        j = j + 1;
    }
    j - i
}

fn all_in_exec(cls: Class, s: &[char], i: usize, n: usize) -> (res: bool)
    ensures
        res == all_in(cls, s@, i as int, n as int),
{
    if i > s.len() || n > s.len() - i {
        return false;
    }
    let mut k = i;
    while k < i + n
        invariant
            i <= k <= i + n <= s@.len(),
            i + n <= s.len(),
            forall|j: int| i <= j < k ==> in_class(cls, #[trigger] s@[j]),
        decreases i + n - k,
    {
        if !in_class_exec(cls, s[k]) {
            return false;
        }
        k = k + 1;
    }
    true
}

fn hash_len_exec(s: &[char], w: &[bool], i: usize) -> (l: usize)
    requires
        i < s@.len() <= usize::MAX,
    ensures
        l == hash_len(s@, w@, i as int),
        i + l <= s@.len(),
{
    let r = run_len_exec(Class::Hex, s, i);
    if 32 <= r && r <= 64 && boundary_exec(w, i) && boundary_exec(w, i + r) {
        r
    } else {
        0
    }
}

fn jwt_len_exec(s: &[char], i: usize) -> (l: usize)
    requires
        i < s@.len() <= usize::MAX,
    ensures
        l == jwt_len(s@, i as int),
        i + l <= s@.len(),
{
    if !chars_at(s, i, &['e', 'y', 'J']) {
        return 0;
    }
    let p1 = i + 3;
    let r1 = run_len_exec(Class::Token, s, p1);
    let d1 = p1 + r1;
    if r1 == 0 || d1 >= s.len() || s[d1] != '.' {
        return 0;
    }
    let r2 = run_len_exec(Class::Token, s, d1 + 1);
    let d2 = d1 + 1 + r2;
    if r2 == 0 || d2 >= s.len() || s[d2] != '.' {
        return 0;
    }
    let r3 = run_len_exec(Class::Token, s, d2 + 1);
    if r3 == 0 {
        return 0;
    }
    d2 + 1 + r3 - i
}

fn google_key_len_exec(s: &[char], i: usize) -> (l: usize)
    requires
        i < s@.len() <= usize::MAX,
    ensures
        l == google_key_len(s@, i as int),
        i + l <= s@.len(),
{
    if chars_at(s, i, &['A', 'I', 'z', 'a']) && all_in_exec(Class::Token, s, i + 4, 35) {
        39
    } else {
        0
    }
}

fn uuid_len_exec(s: &[char], w: &[bool], i: usize) -> (l: usize)
    requires
        i < s@.len() <= usize::MAX,
    ensures
        l == uuid_len(s@, w@, i as int),
        i + l <= s@.len(),
{
    if i > s.len() || 36 > s.len() - i {
        return 0;
    }
    if all_in_exec(Class::Hex, s, i, 8) && s[i + 8] == '-' && all_in_exec(Class::Hex, s, i + 9, 4)
        && s[i + 13] == '-' && all_in_exec(Class::Hex, s, i + 14, 4) && s[i + 18] == '-'
        && all_in_exec(Class::Hex, s, i + 19, 4) && s[i + 23] == '-' && all_in_exec(
        Class::Hex,
        s,
        i + 24,
        12,
    ) && boundary_exec(w, i) && boundary_exec(w, i + 36) {
        36
    } else {
        0
    }
}

fn aws_key_len_exec(s: &[char], w: &[bool], i: usize) -> (l: usize)
    requires
        i < s@.len() <= usize::MAX,
    ensures
        l == aws_key_len(s@, w@, i as int),
        i + l <= s@.len(),
{
    if chars_at(s, i, &['A', 'K', 'I', 'A']) && all_in_exec(Class::UpperAlnum, s, i + 4, 16)
        && boundary_exec(w, i) && boundary_exec(w, i + 20) {
        20
    } else {
        0
    }
}

fn match_len_exec(p: Secret, s: &[char], w: &[bool], i: usize) -> (l: usize)
    requires
        i < s@.len() <= usize::MAX,
    ensures
        l == match_len(p, s@, w@, i as int),
        i + l <= s@.len(),
{
    match p {
        Secret::Hash => hash_len_exec(s, w, i),
        Secret::Jwt => jwt_len_exec(s, i),
        Secret::GoogleKey => google_key_len_exec(s, i),
        Secret::Uuid => uuid_len_exec(s, w, i),
        Secret::AwsKey => aws_key_len_exec(s, w, i),
    }
}

fn replacement_exec(p: Secret) -> (r: Vec<char>)
    ensures
        r@ == replacement(p),
{
    match p {
        Secret::Hash => chars_of("[REDACTED_HASH]"),
        Secret::Jwt => chars_of("[REDACTED_JWT]"),
        Secret::GoogleKey => chars_of("[REDACTED_GOOGLE_KEY]"),
        Secret::Uuid => chars_of("[REDACTED_UUID]"),
        Secret::AwsKey => chars_of("[REDACTED_AWS_KEY]"),
    }
}

/// Replaces every leftmost, non-overlapping match of `p` in `s`, where
/// `words` tells which characters of `s` are word characters (for `\b`).
pub fn redact_with_flags(p: Secret, s: &[char], words: &[bool]) -> (r: Vec<char>)
    ensures
        r@ == redact_with(p, s@, words@),
{
    let rep = replacement_exec(p);
    let mut out: Vec<char> = Vec::new();
    let mut i: usize = 0;
    while i < s.len()
        invariant
            i <= s@.len(),
            rep@ == replacement(p),
            redact_with(p, s@, words@) == out@ + redact_from(p, s@, words@, i as int),
        decreases s@.len() - i,
    {
        let l = match_len_exec(p, s, words, i);
        let ghost prev = out@;
        if l > 0 {
            append_chars(&mut out, rep.as_slice());
            assert(prev + (rep@ + redact_from(p, s@, words@, i + l)) =~= out@ + redact_from(
                p,
                s@,
                words@,
                i + l,
            ));
            i = i + l;
        } else {
            out.push(s[i]);
            assert(prev + (seq![s@[i as int]] + redact_from(p, s@, words@, i + 1)) =~= out@
                + redact_from(p, s@, words@, i + 1));
            i = i + 1;
        }
    }
    assert(out@ + redact_from(p, s@, words@, i as int) =~= out@);
    out
}

/// Replaces every leftmost, non-overlapping match of `p` in `s`.
pub fn redact_exec(p: Secret, s: &[char]) -> (r: Vec<char>)
    ensures
        r@ == redact(p, s@),
{
    let words = word_flags_exec(s);
    redact_with_flags(p, s, words.as_slice())
}

/// The 8-4-4-4-12 layout of a UUID, written out: dashes at 8, 13, 18 and
/// 23, ASCII hex digits everywhere else.
pub open spec fn uuid_text(u: Seq<char>) -> bool {
    &&& u.len() == 36
    &&& forall|k: int|
        #![trigger u[k]]
        0 <= k < 36 ==> if k == 8 || k == 13 || k == 18 || k == 23 {
            u[k] == '-'
        } else {
            (0x30 <= (u[k] as int) <= 0x39) || (0x41 <= (u[k] as int) <= 0x46) || (0x61 <= (
            u[k] as int) <= 0x66)
        }
}

/// A UUID standing between word boundaries is replaced, the start and the
/// end of the text counting as boundaries: when `s[i..i+36]` is laid out as
/// a UUID, nothing or a non-word character precedes it, its first and last
/// characters are word characters, and nothing or a non-word character
/// follows it, the redaction from `i` is the placeholder followed by the
/// redaction of what comes after the UUID.
pub proof fn lemma_uuid_replaced(s: Seq<char>, w: Seq<bool>, i: int)
    requires
        w.len() == s.len(),
        0 <= i,
        i + 36 <= s.len(),
        uuid_text(s.subrange(i, i + 36)),
        i == 0 || !w[i - 1],
        w[i],
        w[i + 35],
        i + 36 == s.len() || !w[i + 36],
    ensures
        redact_from(Secret::Uuid, s, w, i) == "[REDACTED_UUID]"@ + redact_from(
            Secret::Uuid,
            s,
            w,
            i + 36,
        ),
{
    let u = s.subrange(i, i + 36);
    assert forall|k: int| 0 <= k < 36 implies s[i + k] == #[trigger] u[k] by {}
    assert(s[i + 8] == u[8]);
    assert(s[i + 13] == u[13]);
    assert(s[i + 18] == u[18]);
    assert(s[i + 23] == u[23]);
    assert(all_in(Class::Hex, s, i, 8)) by {
        assert forall|k: int| i <= k < i + 8 implies in_class(Class::Hex, #[trigger] s[k]) by {
            assert(u[k - i] == s[k]);
        }
    }
    assert(all_in(Class::Hex, s, i + 9, 4)) by {
        assert forall|k: int| i + 9 <= k < i + 13 implies in_class(Class::Hex, #[trigger] s[k]) by {
            assert(u[k - i] == s[k]);
        }
    }
    assert(all_in(Class::Hex, s, i + 14, 4)) by {
        assert forall|k: int| i + 14 <= k < i + 18 implies in_class(Class::Hex, #[trigger] s[k]) by {
            assert(u[k - i] == s[k]);
        }
    }
    assert(all_in(Class::Hex, s, i + 19, 4)) by {
        assert forall|k: int| i + 19 <= k < i + 23 implies in_class(Class::Hex, #[trigger] s[k]) by {
            assert(u[k - i] == s[k]);
        }
    }
    assert(all_in(Class::Hex, s, i + 24, 12)) by {
        assert forall|k: int| i + 24 <= k < i + 36 implies in_class(Class::Hex, #[trigger] s[k]) by {
            assert(u[k - i] == s[k]);
        }
    }
    assert(uuid_len(s, w, i) == 36);
}

proof fn lemma_no_uuid_before(p: Seq<char>, u: Seq<char>, w: Seq<bool>, j: int)
    requires
        uuid_text(u),
        forall|k: int| 0 <= k < p.len() ==> p[k] != '-',
        w.len() == p.len() + 36,
        0 <= j <= p.len(),
    ensures
        redact_from(Secret::Uuid, p + u, w, j) == p.subrange(j, p.len() as int) + redact_from(
            Secret::Uuid,
            p + u,
            w,
            p.len() as int,
        ),
    decreases p.len() - j,
{
    let s = p + u;
    if j < p.len() {
        if j + 8 < p.len() {
            assert(s[j + 8] == p[j + 8]);
        } else {
            let off = j + 8 - p.len();
            assert(s[j + 8] == u[off]);
        }
        assert(!uuid_shape(s, j));
        lemma_no_uuid_before(p, u, w, j + 1);
        assert(s[j] == p[j]);
        assert(seq![s[j]] + p.subrange(j + 1, p.len() as int) =~= p.subrange(j, p.len() as int));
    } else {
        assert(p.subrange(j, p.len() as int) =~= Seq::<char>::empty());
    }
}

/// A prompt that ends in a UUID has it replaced even though nothing follows
/// it: for `p` without dashes that is empty or ends in a non-word
/// character, and a UUID `u` whose first and last characters are word
/// characters, redacting UUIDs from `p + u` gives `p` and the placeholder.
pub proof fn lemma_uuid_at_end_replaced(p: Seq<char>, u: Seq<char>, w: Seq<bool>)
    requires
        uuid_text(u),
        forall|k: int| 0 <= k < p.len() ==> p[k] != '-',
        w.len() == p.len() + 36,
        p.len() == 0 || !w[p.len() - 1],
        w[p.len() as int],
        w[p.len() + 35int],
    ensures
        redact_with(Secret::Uuid, p + u, w) == p + "[REDACTED_UUID]"@,
{
    let s = p + u;
    assert(s.subrange(p.len() as int, p.len() + 36int) =~= u);
    lemma_uuid_replaced(s, w, p.len() as int);
    lemma_no_uuid_before(p, u, w, 0);
    assert(p.subrange(0, p.len() as int) =~= p);
    assert(redact_from(Secret::Uuid, s, w, p.len() + 36int) == Seq::<char>::empty());
    assert(p + ("[REDACTED_UUID]"@ + Seq::<char>::empty()) =~= p + "[REDACTED_UUID]"@);
}

/// No match of `p` starts anywhere in `s`.
pub open spec fn free_of(p: Secret, s: Seq<char>) -> bool {
    forall|i: int| 0 <= i < s.len() ==> #[trigger] match_len(p, s, word_flags(s), i) == 0
}

proof fn lemma_redact_from_identity(p: Secret, s: Seq<char>, i: int)
    requires
        free_of(p, s),
        0 <= i <= s.len(),
    ensures
        redact_from(p, s, word_flags(s), i) == s.subrange(i, s.len() as int),
    decreases s.len() - i,
{
    if i < s.len() {
        assert(match_len(p, s, word_flags(s), i) == 0);
        lemma_redact_from_identity(p, s, i + 1);
        assert(seq![s[i]] + s.subrange(i + 1, s.len() as int) =~= s.subrange(i, s.len() as int));
    } else {
        assert(s.subrange(i, s.len() as int) =~= Seq::<char>::empty());
    }
}

/// Redaction leaves text with no token of its kind unchanged.
pub proof fn lemma_redact_identity(p: Secret, s: Seq<char>)
    requires
        free_of(p, s),
    ensures
        redact(p, s) == s,
{
    lemma_redact_from_identity(p, s, 0);
    assert(s.subrange(0, s.len() as int) =~= s);
}

/// Text in which no kind of secret-shaped token occurs is sent as it is.
pub proof fn lemma_sanitize_plain_text(s: Seq<char>)
    requires
        free_of(Secret::Hash, s),
        free_of(Secret::Jwt, s),
        free_of(Secret::GoogleKey, s),
        free_of(Secret::Uuid, s),
        free_of(Secret::AwsKey, s),
    ensures
        sanitized(s) == s,
{
    lemma_redact_identity(Secret::Hash, s);
    lemma_redact_identity(Secret::Jwt, s);
    lemma_redact_identity(Secret::GoogleKey, s);
    lemma_redact_identity(Secret::Uuid, s);
    lemma_redact_identity(Secret::AwsKey, s);
}

/// `input` with every secret-shaped token replaced by a placeholder:
/// hashes first, then JWTs, Google keys, UUIDs and AWS keys.
pub fn sanitize(input: &str) -> (r: String)
    ensures
        r@ == sanitized(input@),
{
    let s0 = chars_of(input);
    let s1 = redact_exec(Secret::Hash, s0.as_slice());
    let s2 = redact_exec(Secret::Jwt, s1.as_slice());
    let s3 = redact_exec(Secret::GoogleKey, s2.as_slice());
    let s4 = redact_exec(Secret::Uuid, s3.as_slice());
    let s5 = redact_exec(Secret::AwsKey, s4.as_slice());
    let r = string_from(s5.as_slice(), 0, s5.len());
    assert(s5@.subrange(0, s5@.len() as int) =~= s5@);
    r
}

} // verus!
