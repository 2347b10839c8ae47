//! Unicode word characters and word boundaries (`\b` of a regular
//! expression in Unicode mode).

use vstd::prelude::*;

verus! {

/// Whether `c` is a Unicode word character (UTS#18 Annex C: `Alphabetic`,
/// `Join_Control`, `Decimal_Number`, `Mark` or `Connector_Punctuation`).
pub uninterp spec fn unicode_word_char(c: char) -> bool;

/// The ASCII word characters `[0-9A-Za-z_]`.
pub open spec fn is_ascii_word(c: char) -> bool {
    let u = c as int;
    ||| 0x30 <= u <= 0x39
    ||| 0x41 <= u <= 0x5A
    ||| 0x61 <= u <= 0x7A
    ||| u == 0x5F
}

/// Calls `regex_syntax::is_word_character`. Claimed: the result is the
/// word-character property of `c`, a function of `c` alone (a table of
/// Unicode ranges, named here rather than spelled out), and for an ASCII
/// character it is exactly `[0-9A-Za-z_]`: the function's ASCII fast path
/// (`is_word_byte`) accepts those, and the table holds no other ASCII
/// character. The function panics only when the crate is built without its
/// `unicode-perl` feature, which is on by default.
#[verifier::external_body]
pub(crate) fn is_word_char(c: char) -> (res: bool)
    ensures
        res == unicode_word_char(c),
        (c as int) < 128 ==> (res == is_ascii_word(c)),
{
    regex_syntax::is_word_character(c)
}

/// Which characters of `s` are word characters.
pub open spec fn word_flags(s: Seq<char>) -> Seq<bool> {
    Seq::new(s.len(), |i: int| unicode_word_char(s[i]))
}

/// Whether position `i` holds a word character, by the flags `w` (outside
/// the text: no).
pub open spec fn word_at(w: Seq<bool>, i: int) -> bool {
    0 <= i < w.len() && w[i]
}

/// `\b`: a word character on exactly one side of position `i`.
pub open spec fn boundary(w: Seq<bool>, i: int) -> bool {
    word_at(w, i - 1) != word_at(w, i)
}

/// The word-character flags of `s`.
pub fn word_flags_exec(s: &[char]) -> (w: Vec<bool>)
    ensures
        w@ == word_flags(s@),
{
    let mut w: Vec<bool> = Vec::new();
    let mut i: usize = 0;
    while i < s.len()
        invariant
            i <= s@.len(),
            w@.len() == i,
            forall|k: int| 0 <= k < i ==> w@[k] == unicode_word_char(#[trigger] s@[k]),
        decreases s@.len() - i,
    {
        w.push(is_word_char(s[i]));
        i = i + 1;
    }
    assert(w@ =~= word_flags(s@));
    w
}

/// Exec counterpart of [`boundary`], for `0 <= i`.
pub fn boundary_exec(w: &[bool], i: usize) -> (res: bool)
    ensures
        res == boundary(w@, i as int),
{
    let before = if i == 0 || i > w.len() {
        false
    } else {
        w[i - 1]
    };
    let here = if i < w.len() {
        w[i]
    } else {
        false
    };
    before != here
}

} // verus!
