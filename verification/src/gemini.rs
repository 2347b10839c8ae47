//! The Gemini client's own logic: request and URL building, prompt
//! sanitising, and the framing of the server-sent event stream
//! (splitting the buffer into lines and picking out `data:` payloads).
//! The HTTP exchange and JSON decoding are done by the caller.

use vstd::prelude::*;
use crate::text::{
    append_str, chars_at, chars_of, has_at, line_end, lemma_line_end, line_end_exec, string_from,
    trim, trim_bounds, is_space, lemma_trim_append_space,
};
use crate::secrets::{sanitize, sanitized};

verus! {

/// One piece of content text.
#[derive(Debug)]
pub struct Part {
    pub text: String,
}

/// The parts of one message.
#[derive(Debug)]
pub struct Content {
    pub parts: Vec<Part>,
}

/// Body of a `streamGenerateContent` request.
#[derive(Debug)]
pub struct GeminiRequest {
    pub contents: Vec<Content>,
}

/// One candidate answer.
#[derive(Debug)]
pub struct Candidate {
    pub content: Content,
}

/// One decoded event of the response stream.
#[derive(Debug)]
pub struct GeminiResponse {
    pub candidates: Vec<Candidate>,
}

/// Talks to the Gemini API with one API key.
pub struct GeminiClient {
    api_key: String,
    api_base_url: String,
}

/// The endpoint under which the models are found.
pub open spec fn default_base_url() -> Seq<char> {
    "https://generativelanguage.googleapis.com/v1beta/models"@
}

/// The streaming URL for `model`: base, `/`, the model, the method and the
/// query string with the key.
pub open spec fn stream_url(base: Seq<char>, model: Seq<char>, key: Seq<char>) -> Seq<char> {
    base + "/"@ + model + ":streamGenerateContent?alt=sse&key="@ + key
}

/// The text of a decoded event: the first part of the first candidate.
pub open spec fn response_text(r: GeminiResponse) -> Option<String> {
    if r.candidates@.len() > 0 && r.candidates@[0].content.parts@.len() > 0 {
        Some(r.candidates@[0].content.parts@[0].text)
    } else {
        None
    }
}

/// The payload of an event-stream line: what follows "data: ", unless
/// the line does not start so, or the payload is blank or (trimmed) a lone
/// `[` or `]`.
pub open spec fn sse_payload_of(line: Seq<char>) -> Option<Seq<char>> {
    if !has_at(line, 0, seq!['d', 'a', 't', 'a', ':', ' ']) {
        None
    } else {
        let payload = line.subrange(6, line.len() as int);
        let t = trim(payload);
        if t.len() == 0 || t == seq!['['] || t == seq![']'] {
            None
        } else {
            Some(payload)
        }
    }
}

/// Every "data: " line whose payload is not blank and not a lone `[` or `]`
/// (after trimming) hands on its whole payload, whatever the payload's
/// length or trailing whitespace (such as the `\r` of a CRLF stream); a
/// line not starting with "data: " hands on nothing.
pub proof fn lemma_data_line_payload(p: Seq<char>, other: Seq<char>)
    ensures
        ({
            let t = trim(p);
            t.len() > 0 && t != seq!['['] && t != seq![']'] ==> sse_payload_of(
                seq!['d', 'a', 't', 'a', ':', ' '] + p,
            ) == Some(p) && sse_payload_of(seq!['d', 'a', 't', 'a', ':', ' '] + p + seq!['\r'])
                == Some(p + seq!['\r'])
        }),
        !(other.len() >= 6 && other.subrange(0, 6) == seq!['d', 'a', 't', 'a', ':', ' '])
            ==> sse_payload_of(other) is None,
{
    let prefix = seq!['d', 'a', 't', 'a', ':', ' '];
    let l = prefix + p;
    assert(l.subrange(0, 6) =~= prefix);
    assert(l.subrange(6, l.len() as int) =~= p);
    let cr = seq!['\r'];
    assert forall|i: int| 0 <= i < cr.len() implies is_space(#[trigger] cr[i]) by {}
    lemma_trim_append_space(p, cr);
    let l2 = prefix + p + cr;
    assert(l2.subrange(0, 6) =~= prefix);
    assert(l2.subrange(6, l2.len() as int) =~= p + cr);
}

/// The complete lines of a stream buffer, as repeated
/// [`GeminiClient::next_sse_line`] takes them, and the partial line left.
pub open spec fn split_lines(b: Seq<char>) -> (Seq<Seq<char>>, Seq<char>)
    decreases b.len(),
{
    let e = line_end(b, 0);
    if e >= b.len() {
        (Seq::empty(), b)
    } else {
        proof {
            lemma_line_end(b, 0);
        }
        let rest = split_lines(b.subrange(e + 1, b.len() as int));
        (seq![b.subrange(0, e)] + rest.0, rest.1)
    }
}

proof fn lemma_line_end_concat(a: Seq<char>, b: Seq<char>, i: int)
    requires
        0 <= i <= a.len(),
        line_end(a, i) < a.len(),
    ensures
        line_end(a + b, i) == line_end(a, i),
    decreases a.len() - i,
{
    if a[i] != '\n' {
        lemma_line_end_concat(a, b, i + 1);
    }
}

/// The stream may be cut into chunks anywhere: the lines taken from
/// `b1 + b2` are the lines of `b1`, then the lines of what `b1` left over
/// followed by `b2`; the partial line left at the end is the same.
pub proof fn lemma_split_lines_chunked(b1: Seq<char>, b2: Seq<char>)
    ensures
        ({
            let first = split_lines(b1);
            let second = split_lines(first.1 + b2);
            split_lines(b1 + b2) == (first.0 + second.0, second.1)
        }),
    decreases b1.len(),
{
    lemma_line_end(b1, 0);
    let e = line_end(b1, 0);
    if e >= b1.len() {
        assert(split_lines(b1).0 =~= Seq::<Seq<char>>::empty());
        assert(split_lines(b1).0 + split_lines(b1 + b2).0 =~= split_lines(b1 + b2).0);
    } else {
        lemma_line_end_concat(b1, b2, 0);
        let r1 = b1.subrange(e + 1, b1.len() as int);
        lemma_split_lines_chunked(r1, b2);
        let whole = b1 + b2;
        assert(whole.subrange(e + 1, whole.len() as int) =~= r1 + b2);
        assert(whole.subrange(0, e) =~= b1.subrange(0, e));
        let first = split_lines(b1);
        let second = split_lines(first.1 + b2);
        assert(split_lines(whole).0 =~= first.0 + second.0);
    }
}

/// The whole text of a stream that arrives as `chunks`.
pub open spec fn concat_chunks(chunks: Seq<Seq<char>>) -> Seq<char>
    decreases chunks.len(),
{
    if chunks.len() == 0 {
        Seq::empty()
    } else {
        concat_chunks(chunks.drop_last()) + chunks.last()
    }
}

/// The lines taken from a stream that arrives as `chunks`: each chunk is
/// appended to what the earlier ones left over, and all complete lines are
/// then taken off; the result is every line taken, in order, and the
/// partial line left at the end.
pub open spec fn stream_lines(chunks: Seq<Seq<char>>) -> (Seq<Seq<char>>, Seq<char>)
    decreases chunks.len(),
{
    if chunks.len() == 0 {
        (Seq::empty(), Seq::empty())
    } else {
        let prev = stream_lines(chunks.drop_last());
        let step = split_lines(prev.1 + chunks.last());
        (prev.0 + step.0, step.1)
    }
}

/// The payloads the lines carry, one entry per line.
pub open spec fn line_payloads(lines: Seq<Seq<char>>) -> Seq<Option<Seq<char>>> {
    lines.map_values(|l: Seq<char>| sse_payload_of(l))
}

/// However a stream is cut into chunks, the lines taken from it, the
/// payloads they carry (and so the texts passed on) and the partial line
/// left are those of the whole stream at once.
pub proof fn lemma_stream_lines_any_chunking(chunks: Seq<Seq<char>>)
    ensures
        stream_lines(chunks) == split_lines(concat_chunks(chunks)),
        line_payloads(stream_lines(chunks).0) == line_payloads(
            split_lines(concat_chunks(chunks)).0,
        ),
    decreases chunks.len(),
{
    if chunks.len() == 0 {
        assert(split_lines(Seq::<char>::empty()) == (Seq::<Seq<char>>::empty(), Seq::<char>::empty()));
    } else {
        let rest = chunks.drop_last();
        lemma_stream_lines_any_chunking(rest);
        lemma_split_lines_chunked(concat_chunks(rest), chunks.last());
    }
}

impl GeminiClient {
    /// The API key the client sends.
    pub closed spec fn key(&self) -> Seq<char> {
        self.api_key@
    }

    /// The base URL the client talks to.
    pub closed spec fn base_url(&self) -> Seq<char> {
        self.api_base_url@
    }

    /// A client for `api_key` against the public endpoint.
    pub fn new(api_key: String) -> (c: Self)
        ensures
            c.key() == api_key@,
            c.base_url() == default_base_url(),
    {
        GeminiClient {
            api_key,
            api_base_url: "https://generativelanguage.googleapis.com/v1beta/models".to_owned(),
        }
    }

    /// The URL that streams `model`'s answer as server-sent events.
    pub fn build_url(&self, model: &str) -> (url: String)
        ensures
            url@ == stream_url(self.base_url(), model@, self.key()),
    {
        let mut url = String::new();
        append_str(&mut url, self.api_base_url.as_str());
        append_str(&mut url, "/");
        append_str(&mut url, model);
        append_str(&mut url, ":streamGenerateContent?alt=sse&key=");
        append_str(&mut url, self.api_key.as_str());
        url
    }

    /// The prompt with secret-shaped tokens replaced by placeholders.
    pub fn sanitize_for_gemini(input: &str) -> (r: String)
        ensures
            r@ == sanitized(input@),
    {
        sanitize(input)
    }

    /// The request for `prompt`: one content with one part, the sanitised
    /// prompt.
    pub fn build_request(prompt: &str) -> (r: GeminiRequest)
        ensures
            r.contents@.len() == 1,
            r.contents@[0].parts@.len() == 1,
            r.contents@[0].parts@[0].text@ == sanitized(prompt@),
    {
        let mut parts = Vec::new();
        parts.push(Part { text: Self::sanitize_for_gemini(prompt) });
        let mut contents = Vec::new();
        contents.push(Content { parts });
        GeminiRequest { contents }
    }

    /// Takes the first complete line off the front of `buffer`: when the
    /// buffer holds a `\n`, returns the text before the first one and
    /// leaves what follows it; otherwise returns `None` and leaves the
    /// buffer as it is, to be completed by the next chunk.
    pub fn next_sse_line(buffer: &mut String) -> (r: Option<String>)
        ensures
            ({
                let b = old(buffer)@;
                let e = line_end(b, 0);
                match r {
                    None => e == b.len() && final(buffer)@ == b,
                    Some(line) => e < b.len() && line@ == b.subrange(0, e) && final(buffer)@
                        == b.subrange(e + 1, b.len() as int),
                }
            }),
            r is None <==> !old(buffer)@.contains('\n'),
            r matches Some(line) ==> old(buffer)@ == line@ + seq!['\n'] + final(buffer)@
                && !line@.contains('\n'),
            r is None ==> split_lines(old(buffer)@) == (Seq::<Seq<char>>::empty(), old(buffer)@),
            r matches Some(line) ==> split_lines(old(buffer)@) == (seq![line@] + split_lines(
                final(buffer)@,
            ).0, split_lines(final(buffer)@).1),
    {
        let s = chars_of(buffer.as_str());
        proof {
            lemma_line_end(s@, 0);
        }
        let e = line_end_exec(s.as_slice(), 0);
        if e == s.len() {
            proof {
                if s@.contains('\n') {
                    let k = choose|k: int| 0 <= k < s@.len() && s@[k] == '\n';
                    assert(s@[k] != '\n');
                }
            }
            return None;
        }
        let line = string_from(s.as_slice(), 0, e);
        let rest = string_from(s.as_slice(), e + 1, s.len());
        *buffer = rest;
        proof {
            assert(s@.contains('\n')) by {
                assert(s@[e as int] == '\n');
            }
            assert(s@ =~= line@ + seq!['\n'] + rest@);
            if line@.contains('\n') {
                let k = choose|k: int| 0 <= k < line@.len() && line@[k] == '\n';
                assert(s@[k] == '\n');
            }
        }
        Some(line)
    }

    /// The JSON payload of an event-stream line, if it carries one: the
    /// text after "data: ", unless that is blank or a lone `[` or `]`.
    pub fn sse_payload(line: &str) -> (r: Option<String>)
        ensures
            match r {
                Some(p) => sse_payload_of(line@) == Some(p@),
                None => sse_payload_of(line@) is None,
            },
    {
        let s = chars_of(line);
        let prefix = ['d', 'a', 't', 'a', ':', ' '];
        if !chars_at(s.as_slice(), 0, &prefix) {
            return None;
        }
        let payload = &s.as_slice()[6..s.len()];
        let (a, b) = trim_bounds(payload);
        let t = &payload[a..b];
        if t.len() == 0 || (t.len() == 1 && (t[0] == '[' || t[0] == ']')) {
            assert(t@.len() == 0 || t@ =~= seq!['['] || t@ =~= seq![']']);
            return None;
        }
        proof {
            if t@ == seq!['['] || t@ == seq![']'] {
                assert(t@.len() == 1);
            }
        }
        Some(string_from(s.as_slice(), 6, s.len()))
    }

    /// The text an event carries: the first part of its first candidate.
    pub fn extract_text(response: GeminiResponse) -> (r: Option<String>)
        ensures
            r == response_text(response),
    {
        let mut candidates = response.candidates;
        if candidates.len() == 0 {
            return None;
        }
        let first = candidates.swap_remove(0);
        let mut parts = first.content.parts;
        if parts.len() == 0 {
            return None;
        }
        let part = parts.swap_remove(0);
        Some(part.text)
    }
}

} // verus!
