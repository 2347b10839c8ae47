use gemini_cli::gemini::{Candidate, Content, GeminiClient, GeminiResponse, Part};

fn response(candidates: Vec<Vec<&str>>) -> GeminiResponse {
    GeminiResponse {
        candidates: candidates
            .into_iter()
            .map(|parts| Candidate {
                content: Content {
                    parts: parts
                        .into_iter()
                        .map(|t| Part { text: t.to_string() })
                        .collect(),
                },
            })
            .collect(),
    }
}

#[test]
fn builds_stream_url() {
    let client = GeminiClient::new("SECRET-REDACTED".to_string());
    assert_eq!(
        client.build_url("gemini-2.5-flash-lite"),
        "https://generativelanguage.googleapis.com/v1beta/models/gemini-2.5-flash-lite:streamGenerateContent?alt=sse&key=SECRET-REDACTED"
    );
}

#[test]
fn request_carries_sanitized_prompt() {
    let key = ["AK", "IA", "ABCDEFGH", "23456789"].concat();
    let request = GeminiClient::build_request(&format!("key {key} please"));
    assert_eq!(request.contents.len(), 1);
    assert_eq!(request.contents[0].parts.len(), 1);
    assert_eq!(request.contents[0].parts[0].text, "key [REDACTED_AWS_KEY] please");
}

/// Decodes a JSON payload into the response type (the program does this
/// with serde's derive; here it is done by hand from a JSON value).
fn decode(payload: &str) -> GeminiResponse {
    let value: serde_json::Value = serde_json::from_str(payload).unwrap();
    let candidates = value["candidates"].as_array().unwrap();
    GeminiResponse {
        candidates: candidates
            .iter()
            .map(|c| Candidate {
                content: Content {
                    parts: c["content"]["parts"]
                        .as_array()
                        .unwrap()
                        .iter()
                        .map(|p| Part { text: p["text"].as_str().unwrap().to_string() })
                        .collect(),
                },
            })
            .collect(),
    }
}

/// The text carried by one line of the stream, if any.
fn line_text(line: &str) -> Option<String> {
    GeminiClient::sse_payload(line).and_then(|p| GeminiClient::extract_text(decode(&p)))
}

#[test]
fn parses_text_from_sse_data_line() {
    let line = r#"data: {"candidates":[{"content":{"parts":[{"text":"Привіт"}]}}]}"#;

    let parsed = line_text(line);

    assert_eq!(parsed.as_deref(), Some("Привіт"));
    assert_eq!(
        GeminiClient::sse_payload(line).as_deref(),
        Some(r#"{"candidates":[{"content":{"parts":[{"text":"Привіт"}]}}]}"#)
    );
}

#[test]
fn ignores_non_content_sse_lines() {
    assert_eq!(GeminiClient::sse_payload("event: message"), None);
    assert_eq!(GeminiClient::sse_payload("data: ["), None);
    assert_eq!(GeminiClient::sse_payload("data: ]"), None);
    assert_eq!(GeminiClient::sse_payload("data: "), None);
    assert_eq!(GeminiClient::sse_payload("data:  ] \r"), None);
    assert_eq!(GeminiClient::sse_payload("data:x"), None);
    assert_eq!(GeminiClient::sse_payload("data: [1]").as_deref(), Some("[1]"));
}

#[test]
fn keeps_partial_buffer_for_next_chunk() {
    let mut buffer =
        String::from("data: {\"candidates\":[{\"content\":{\"parts\":[{\"text\":\"Hi\"}]}}]}");
    let before = buffer.clone();
    assert_eq!(GeminiClient::next_sse_line(&mut buffer), None);
    assert_eq!(buffer, before);
    assert!(buffer.starts_with("data: "));
}

#[test]
fn streams_all_complete_sse_lines_to_handler() {
    let mut buffer = String::from(
        "data: {\"candidates\":[{\"content\":{\"parts\":[{\"text\":\"Hel\"}]}}]}\n",
    );
    buffer.push_str("data: {\"candidates\":[{\"content\":{\"parts\":[{\"text\":\"lo\"}]}}]}\n");
    let mut chunks: Vec<String> = Vec::new();
    let mut full_response = String::new();

    while let Some(line) = GeminiClient::next_sse_line(&mut buffer) {
        if let Some(text) = line_text(&line) {
            chunks.push(text.clone());
            full_response.push_str(&text);
        }
    }

    assert_eq!(chunks, vec!["Hel", "lo"]);
    assert_eq!(full_response, "Hello");
    assert!(buffer.is_empty());
}

#[test]
fn next_line_takes_complete_lines_in_order() {
    let mut buffer = String::from("a\r\nbb\n\ncc");
    assert_eq!(GeminiClient::next_sse_line(&mut buffer).as_deref(), Some("a\r"));
    assert_eq!(GeminiClient::next_sse_line(&mut buffer).as_deref(), Some("bb"));
    assert_eq!(GeminiClient::next_sse_line(&mut buffer).as_deref(), Some(""));
    assert_eq!(GeminiClient::next_sse_line(&mut buffer), None);
    assert_eq!(buffer, "cc");
}

#[test]
fn chunked_stream_gives_same_lines() {
    let stream = "data: 1\ndata: 22\n\ndata: 333\npartial";
    let whole: Vec<String> = {
        let mut b = stream.to_string();
        let mut out = Vec::new();
        while let Some(l) = GeminiClient::next_sse_line(&mut b) {
            out.push(l);
        }
        out.push(b);
        out
    };
    for cut in 0..=stream.len() {
        let mut b = stream[..cut].to_string();
        let mut out = Vec::new();
        while let Some(l) = GeminiClient::next_sse_line(&mut b) {
            out.push(l);
        }
        b.push_str(&stream[cut..]);
        while let Some(l) = GeminiClient::next_sse_line(&mut b) {
            out.push(l);
        }
        out.push(b);
        assert_eq!(out, whole);
    }
}

#[test]
fn extracts_first_part_of_first_candidate() {
    assert_eq!(
        GeminiClient::extract_text(response(vec![vec!["Hel", "x"], vec!["y"]])).as_deref(),
        Some("Hel")
    );
    assert_eq!(GeminiClient::extract_text(response(vec![])), None);
    assert_eq!(GeminiClient::extract_text(response(vec![vec![], vec!["y"]])), None);
}

#[test]
fn any_chunking_gives_same_lines() {
    let stream = "data: a\r\n\ndata: bb\ndata: [\nrest";
    let take_all = |b: &mut String, out: &mut Vec<String>| {
        while let Some(l) = GeminiClient::next_sse_line(b) {
            out.push(l);
        }
    };
    let mut whole_lines = Vec::new();
    let mut whole = stream.to_string();
    take_all(&mut whole, &mut whole_lines);
    for a in 0..=stream.len() {
        for b in a..=stream.len() {
            let mut buffer = String::new();
            let mut lines = Vec::new();
            for chunk in [&stream[..a], &stream[a..b], &stream[b..]] {
                buffer.push_str(chunk);
                take_all(&mut buffer, &mut lines);
            }
            assert_eq!(lines, whole_lines);
            assert_eq!(buffer, whole);
        }
    }
}
