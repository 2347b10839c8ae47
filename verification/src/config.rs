//! Where the API key is kept, and how the stored key is read back.
//! Reading and writing the file itself is left to the caller.

use vstd::prelude::*;
use crate::text::{append_str, is_space, trim, trim_str, lemma_trim_edges, lemma_trim_idempotent, lemma_trim_start_at, lemma_trim_end_at};

verus! {

/// The location of the stored API key, as a path string (none when no
/// configuration directory could be found).
pub struct Config {
    pub key_path: Option<String>,
}

/// The key a stored file holds: its contents trimmed, unless that leaves
/// nothing.
pub open spec fn stored_key(contents: Seq<char>) -> Option<Seq<char>> {
    if trim(contents).len() == 0 {
        None
    } else {
        Some(trim(contents))
    }
}

impl Config {
    /// A configuration that keeps the key at `key_path`.
    pub fn with_key_path(key_path: String) -> (c: Self)
        ensures
            c.key_path == Some(key_path),
    {
        Config { key_path: Some(key_path) }
    }

    /// Where a new key is to be written: the key path, or, when there is
    /// none, the message that no path is defined.
    pub fn save_target(&self) -> (r: Result<String, String>)
        ensures
            match self.key_path {
                Some(p) => r == Ok::<String, String>(p),
                None => r matches Err(m) && m@ == "Невизначений шлях для збереження API ключа"@,
            },
    {
        match &self.key_path {
            Some(p) => Ok(p.clone()),
            None => Err("Невизначений шлях для збереження API ключа".to_owned()),
        }
    }

    /// The message reported when writing the key file fails with `err`.
    pub fn write_error_message(err: &str) -> (m: String)
        ensures
            m@ == "Помилка запису файлу: "@ + err@,
    {
        let mut m = "Помилка запису файлу: ".to_owned();
        append_str(&mut m, err);
        m
    }

    /// The key held by a key file with these contents: trimmed, and none
    /// when only whitespace remains.
    pub fn key_from_contents(contents: &str) -> (r: Option<String>)
        ensures
            match r {
                Some(k) => stored_key(contents@) == Some(k@),
                None => stored_key(contents@) is None,
            },
    {
        let trimmed = trim_str(contents);
        if trimmed.as_str().is_empty() {
            None
        } else {
            Some(trimmed)
        }
    }
}

/// A stored key reads back as itself: the key read from a file is
/// non-empty and has no surrounding whitespace, and a file holding exactly
/// that key (as a save writes it) reads back the same key.
pub proof fn lemma_stored_key_round_trip(contents: Seq<char>)
    ensures
        stored_key(contents) matches Some(k) ==> {
            &&& k.len() > 0
            &&& !is_space(k[0])
            &&& !is_space(k.last())
            &&& stored_key(k) == Some(k)
        },
{
    lemma_trim_edges(contents);
    lemma_trim_idempotent(contents);
}

/// Whatever whitespace surrounds a key in the file, the key read back is
/// the key itself, of any length: for a non-empty `k` that neither starts
/// nor ends with whitespace, and runs `a`, `b` of whitespace only,
/// the contents `a + k + b` hold the key `k` (so `k` and `k + "\n"`, as
/// `--set-key` writes them, read back as `k`). Contents of whitespace only
/// hold no key.
pub proof fn lemma_key_read_back(a: Seq<char>, k: Seq<char>, b: Seq<char>)
    requires
        forall|i: int| 0 <= i < a.len() ==> is_space(#[trigger] a[i]),
        forall|i: int| 0 <= i < b.len() ==> is_space(#[trigger] b[i]),
    ensures
        k.len() > 0 && !is_space(k[0]) && !is_space(k.last()) ==> stored_key(a + k + b) == Some(
            k,
        ),
        k.len() == 0 ==> stored_key(a + k + b) is None,
{
    let s = a + k + b;
    if k.len() > 0 && !is_space(k[0]) && !is_space(k.last()) {
        assert forall|i: int| 0 <= i < a.len() implies is_space(#[trigger] s[i]) by {
            assert(s[i] == a[i]);
        }
        assert(s[a.len() as int] == k[0]);
        lemma_trim_start_at(s, a.len() as int);
        let t = s.subrange(a.len() as int, s.len() as int);
        assert(t =~= k + b);
        assert forall|i: int| k.len() <= i < t.len() implies is_space(#[trigger] t[i]) by {
            assert(t[i] == b[i - k.len()]);
        }
        assert(t[k.len() - 1] == k.last());
        lemma_trim_end_at(t, k.len() as int);
        assert(t.subrange(0, k.len() as int) =~= k);
    } else if k.len() == 0 {
        assert forall|i: int| 0 <= i < s.len() implies is_space(#[trigger] s[i]) by {
            if i < a.len() {
                assert(s[i] == a[i]);
            } else {
                assert(s[i] == b[i - a.len()]);
            }
        }
        lemma_trim_start_at(s, s.len() as int);
        assert(s.subrange(s.len() as int, s.len() as int) =~= Seq::<char>::empty());
        assert(trim(s) =~= Seq::<char>::empty());
    }
}

} // verus!
