use gemini_cli::gemini::GeminiClient;

fn sanitize(s: &str) -> String {
    GeminiClient::sanitize_for_gemini(s)
}

// Token-shaped test data is assembled at run time from harmless pieces.

fn md5_like() -> String {
    ["d41d8cd9", "8f00b204", "e9800998", "ecf8427e"].concat()
}

fn sha256_like() -> String {
    "0123456789abcdef".repeat(4)
}

fn jwt_like() -> String {
    ["ey", "JhbGci", ".", "payload", ".", "sig_-x"].concat()
}

fn uuid_like() -> String {
    ["123e4567", "e89b", "12d3", "a456", "426614174000"].join("-")
}

fn aws_like() -> String {
    ["AK", "IA", "ABCDEFGH", "23456789"].concat()
}

#[test]
fn redacts_sha256_hash() {
    let h = sha256_like();
    assert_eq!(sanitize(&format!("sum: {h}.")), "sum: [REDACTED_HASH].");
}

#[test]
fn redacts_md5_hash_but_not_short_or_long_runs() {
    let md5 = md5_like();
    assert_eq!(sanitize(&md5), "[REDACTED_HASH]");
    assert_eq!(sanitize(&md5[1..]), &md5[1..]);
    let long = "a".repeat(65);
    assert_eq!(sanitize(&long), long);
}

#[test]
fn hash_needs_word_boundaries() {
    let h = md5_like();
    let glued = format!("x{h}");
    assert_eq!(sanitize(&glued), glued);
    // A non-ASCII letter is a word character too.
    let accented = format!("é{h}");
    assert_eq!(sanitize(&accented), accented);
    // An em dash is not.
    assert_eq!(sanitize(&format!("—{h}—")), "—[REDACTED_HASH]—");
}

#[test]
fn redacts_jwt() {
    let jwt = jwt_like();
    assert_eq!(sanitize(&format!("Bearer {jwt} ok")), "Bearer [REDACTED_JWT] ok");
    assert_eq!(sanitize("eyJabc.def"), "eyJabc.def");
}

#[test]
fn redacts_google_key() {
    let key = format!("AIza{}", "B".repeat(35));
    assert_eq!(sanitize(&format!("k={key}")), "k=[REDACTED_GOOGLE_KEY]");
    let short = format!("AIza{}", "B".repeat(34));
    assert_eq!(sanitize(&short), short);
}

#[test]
fn redacts_uuid() {
    assert_eq!(
        sanitize(&format!("id {} end", uuid_like())),
        "id [REDACTED_UUID] end"
    );
}

#[test]
fn redacts_aws_key() {
    assert_eq!(sanitize(&aws_like()), "[REDACTED_AWS_KEY]");
    let longer = format!("{}X", aws_like());
    assert_eq!(sanitize(&longer), longer);
}

#[test]
fn plain_text_is_unchanged() {
    let text = "Привіт! How do I list files in a directory?";
    assert_eq!(sanitize(text), text);
}

fn redact_with_regex(s: &str) -> String {
    let patterns = [
        (r"\b[a-fA-F0-9]{32,64}\b", "[REDACTED_HASH]"),
        (r"eyJ[a-zA-Z0-9_-]+\.[a-zA-Z0-9_-]+\.[a-zA-Z0-9_-]+", "[REDACTED_JWT]"),
        (r"AIza[0-9A-Za-z-_]{35}", "[REDACTED_GOOGLE_KEY]"),
        (
            r"\b[0-9a-fA-F]{8}-[0-9a-fA-F]{4}-[0-9a-fA-F]{4}-[0-9a-fA-F]{4}-[0-9a-fA-F]{12}\b",
            "[REDACTED_UUID]",
        ),
        (r"\bAKIA[0-9A-Z]{16}\b", "[REDACTED_AWS_KEY]"),
    ];
    let mut out = s.to_string();
    for (p, r) in patterns {
        out = regex::Regex::new(p).unwrap().replace_all(&out, r).to_string();
    }
    out
}

/// The redaction agrees with the regular expressions it implements.
#[test]
fn sanitize_agrees_with_regex() {
    let pieces = [
        "a", "F", "0", "9", "-", "_", ".", " ", "é", "—", "eyJ", "AIza", "AKIA", "Z", "g",
        "0123456789abcdef", "DEADBEEF", "[", "\n",
    ];
    let mut seed: u64 = 42;
    for _ in 0..4000 {
        let mut text = String::new();
        seed = seed.wrapping_mul(6364136223846793005).wrapping_add(1442695040888963407);
        let n = (seed >> 58) as usize + 1;
        for _ in 0..n {
            seed = seed.wrapping_mul(6364136223846793005).wrapping_add(1442695040888963407);
            text.push_str(pieces[(seed >> 33) as usize % pieces.len()]);
        }
        assert_eq!(sanitize(&text), redact_with_regex(&text), "{text:?}");
    }
}

#[test]
fn sanitize_agrees_with_regex_on_tokens() {
    let samples = [
        md5_like(),
        format!("{}AIza{}", "a".repeat(32), "B".repeat(35)),
        format!("é{}", "c".repeat(40)),
        format!("{}x", uuid_like()),
        format!("({})", uuid_like()),
        "eyJa.b.c.d eyJ.a.b".to_string(),
        format!("x{} {}", aws_like(), aws_like()),
        format!("{}_", "f".repeat(64)),
        format!("{}-", "f".repeat(64)),
    ];
    for s in samples {
        assert_eq!(sanitize(&s), redact_with_regex(&s), "{s:?}");
    }
}

/// A later redaction can expose a token an earlier one did not see: the
/// hex run below is glued to a Google key until that key is replaced.
/// The program behaves so, as the regular expressions do.
#[test]
fn sanitize_twice_may_redact_more() {
    let text = format!(" {}AIza{}", "a".repeat(32), "B".repeat(35));
    let once = sanitize(&text);
    assert_eq!(once, format!(" {}[REDACTED_GOOGLE_KEY]", "a".repeat(32)));
    assert_eq!(once, redact_with_regex(&text));
    assert_eq!(sanitize(&once), " [REDACTED_HASH][REDACTED_GOOGLE_KEY]");
}
