use gemini_lite::api::{
    extract_text_and_tokens, request_url, Candidate, CandidateContent, Content, GenerateRequest,
    Part, ResponsePart, StreamResponse, UsageMetadata, API_BASE_URL, SYSTEM_PROMPT,
};
use gemini_lite::error::StreamError;
use gemini_lite::refusal::{api_error, error_message, refused};
use gemini_lite::reply::Transcript;
use gemini_lite::stream::{Stream, StreamAction, StreamInput};

fn sse_body(events: &[&str]) -> String {
    let mut body = String::new();
    for event in events {
        body.push_str(&format!("data: {event}\n\n"));
    }
    body
}

fn gemini_chunk(text: &str) -> String {
    format!(r#"{{"candidates":[{{"content":{{"parts":[{{"text":"{text}"}}]}}}}]}}"#)
}

fn gemini_chunk_with_tokens(text: &str, tokens: u32) -> String {
    format!(
        r#"{{"candidates":[{{"content":{{"parts":[{{"text":"{text}"}}]}}}}],"usageMetadata":{{"totalTokenCount":{tokens}}}}}"#
    )
}

fn response(texts: &[&str], tokens: Option<u32>) -> StreamResponse {
    StreamResponse {
        candidates: Some(vec![Candidate {
            content: Some(CandidateContent {
                parts: texts
                    .iter()
                    .map(|t| ResponsePart {
                        text: Some(t.to_string()),
                    })
                    .collect(),
            }),
        }]),
        usage_metadata: tokens.map(|n| UsageMetadata {
            total_token_count: Some(n),
        }),
    }
}

fn parse(payload: &str) -> Option<StreamResponse> {
    let json: serde_json::Value = serde_json::from_str(payload).ok()?;
    let text = json["candidates"][0]["content"]["parts"][0]["text"].as_str()?;
    let tokens = json["usageMetadata"]["totalTokenCount"]
        .as_u64()
        .map(|n| n as u32);
    Some(response(&[text], tokens))
}

/// Runs a stream on a response with this status and body, cut into these chunks.
fn run(status: u16, chunks: &[&[u8]]) -> (Result<(String, u32), String>, Vec<String>) {
    let mut stream = Stream::new();
    let mut deltas = Vec::new();
    let mut rest = chunks.iter();
    let mut input = StreamInput::Responded(status);
    loop {
        assert!(stream.expects(&input));
        input = match stream.step(input) {
            StreamAction::ReadErrorBody => StreamInput::ErrorBody(Some(chunks.concat())),
            StreamAction::ReadChunk => match rest.next() {
                Some(chunk) => StreamInput::Chunk(chunk.to_vec()),
                None => StreamInput::EndOfStream,
            },
            StreamAction::Parse(payload) => match parse(&payload) {
                Some(resp) => StreamInput::Parsed(resp),
                None => StreamInput::ParseFailed,
            },
            StreamAction::Deliver(text) => {
                deltas.push(text);
                StreamInput::Delivered
            }
            StreamAction::Complete(text, tokens) => return (Ok((text, tokens)), deltas),
            StreamAction::Fail(e) => return (Err(e.message()), deltas),
        };
    }
}

#[test]
fn stream_complete_response() {
    let body = sse_body(&[
        &gemini_chunk("Hello "),
        &gemini_chunk_with_tokens("world!", 42),
        "[DONE]",
    ]);
    let (result, deltas) = run(200, &[body.as_bytes()]);
    let (text, tokens) = result.expect("stream should succeed");
    assert_eq!(text, "Hello world!");
    assert_eq!(tokens, 42);
    assert!(!deltas.is_empty(), "should have received Delta events");
    assert_eq!(deltas, ["Hello ", "world!"]);
}

#[test]
fn stream_handles_api_error_429() {
    let error_body = r#"{"error":{"message":"Rate limit exceeded","code":429}}"#;
    let (result, deltas) = run(429, &[error_body.as_bytes()]);
    let msg = result.unwrap_err();
    assert!(
        msg.contains("429") || msg.contains("Rate limit"),
        "error should mention 429: {msg}"
    );
    assert_eq!(msg, "API 429 Too Many Requests: Rate limit exceeded");
    assert!(deltas.is_empty());
}

#[test]
fn stream_handles_api_error_500() {
    let error_body = r#"{"error":{"message":"Internal server error","code":500}}"#;
    let (result, _) = run(500, &[error_body.as_bytes()]);
    assert!(result.is_err());
    let msg = result.unwrap_err();
    assert!(msg.contains("500"), "error should mention 500: {msg}");
}

#[test]
fn stream_empty_response_is_error() {
    let (result, _) = run(200, &[b"data: [DONE]\n\n"]);
    assert!(result.is_err());
    let msg = result.unwrap_err();
    assert!(
        msg.contains("without model text"),
        "should report empty stream: {msg}"
    );
}

#[test]
fn stream_token_count_from_last_event() {
    let body = sse_body(&[
        &gemini_chunk_with_tokens("first", 10),
        &gemini_chunk_with_tokens("second", 25),
    ]);
    let (result, _) = run(200, &[body.as_bytes()]);
    let (_, tokens) = result.expect("stream should succeed");
    assert_eq!(tokens, 25, "should take the last token count");
}

#[test]
fn chunks_do_not_change_the_reply() {
    let body = sse_body(&[
        &gemini_chunk("Où "),
        &gemini_chunk_with_tokens("ça …", 7),
        "[DONE]",
    ]);
    let bytes = body.as_bytes();
    let whole = run(200, &[bytes]);
    assert_eq!(whole.0, Ok(("Où ça …".to_string(), 7)));
    for cut in 0..=bytes.len() {
        assert_eq!(run(200, &[&bytes[..cut], &bytes[cut..]]), whole);
    }
    let single: Vec<&[u8]> = bytes.chunks(1).collect();
    assert_eq!(run(200, &single), whole);
}

#[test]
fn trailing_text_is_used() {
    let body = format!("data: {}\n\ndata: {}", gemini_chunk("a"), gemini_chunk("b"));
    let (result, deltas) = run(200, &[body.as_bytes()]);
    assert_eq!(result, Ok(("ab".to_string(), 0)));
    assert_eq!(deltas, ["a", "b"]);
}

#[test]
fn white_space_behind_the_last_event_is_ignored() {
    let body = format!("data: {}\n\n  \n", gemini_chunk("a"));
    assert_eq!(run(200, &[body.as_bytes()]).0, Ok(("a".to_string(), 0)));
}

#[test]
fn payload_that_does_not_parse_fails() {
    let body = format!("data: {}\n\ndata: nonsense\n\n", gemini_chunk("a"));
    let (result, deltas) = run(200, &[body.as_bytes()]);
    assert_eq!(result, Err("invalid SSE JSON payload".to_string()));
    assert_eq!(deltas, ["a"]);
    assert_eq!(
        run(200, &[b"data: nonsense"]).0,
        Err("invalid trailing SSE JSON payload".to_string())
    );
}

#[test]
fn cumulative_payloads_are_not_counted_twice() {
    let body = sse_body(&[
        &gemini_chunk("He"),
        &gemini_chunk("Hello"),
        &gemini_chunk("Hello"),
        &gemini_chunk("Hello you"),
    ]);
    let (result, deltas) = run(200, &[body.as_bytes()]);
    assert_eq!(result, Ok(("Hello you".to_string(), 0)));
    assert_eq!(deltas, ["He", "llo", " you"]);
}

fn step_after(inputs: Vec<StreamInput>) -> StreamAction {
    let mut stream = Stream::new();
    let mut last = None;
    for input in inputs {
        assert!(stream.expects(&input));
        last = Some(stream.step(input));
    }
    last.unwrap()
}

fn failure_after(inputs: Vec<StreamInput>) -> String {
    match step_after(inputs) {
        StreamAction::Fail(e) => e.message(),
        other => panic!("no failure: {other:?}"),
    }
}

#[test]
fn failures_outside_end_the_request() {
    let chunk = || StreamInput::Chunk(b"data: x\n\n".to_vec());
    assert_eq!(
        failure_after(vec![StreamInput::RequestFailed]),
        "HTTP request failed"
    );
    assert_eq!(
        failure_after(vec![StreamInput::Responded(503), StreamInput::ErrorBody(None)]),
        "failed to parse API error response"
    );
    assert_eq!(
        failure_after(vec![StreamInput::Responded(204), StreamInput::ChunkFailed]),
        "failed to read stream chunk"
    );
    assert_eq!(
        failure_after(vec![
            StreamInput::Responded(200),
            chunk(),
            StreamInput::Parsed(response(&["a"], None)),
            StreamInput::DeliveryFailed,
        ]),
        "failed to send UI delta"
    );
    assert_eq!(
        failure_after(vec![
            StreamInput::Responded(299),
            StreamInput::Chunk(b"data: x".to_vec()),
            StreamInput::EndOfStream,
            StreamInput::Parsed(response(&["a"], None)),
            StreamInput::DeliveryFailed,
        ]),
        "failed to send trailing UI delta"
    );
}

#[test]
fn nothing_is_expected_behind_the_end() {
    let mut stream = Stream::new();
    assert!(!stream.expects(&StreamInput::EndOfStream));
    assert!(!stream.expects(&StreamInput::Responded(99)));
    assert!(!stream.expects(&StreamInput::Responded(1000)));
    assert!(matches!(
        stream.step(StreamInput::RequestFailed),
        StreamAction::Fail(StreamError::RequestFailed)
    ));
    assert!(!stream.expects(&StreamInput::RequestFailed));
    assert!(!stream.expects(&StreamInput::Delivered));
}

#[test]
fn error_body_is_searched_for_its_message() {
    assert_eq!(
        error_message(br#"{"error":{"message":"no"}}"#),
        Ok(Some("no".to_string()))
    );
    for body in [
        "{}",
        "null",
        "\"error\"",
        r#"{"error":"message"}"#,
        r#"{"error":{"message":5}}"#,
        r#"{"message":"no"}"#,
        r#"[{"error":{"message":"no"}}]"#,
    ] {
        assert_eq!(error_message(body.as_bytes()), Ok(None));
    }
    let detail = error_message(b"<html>").unwrap_err();
    assert_eq!(detail, "expected value at line 1 column 1");
}

#[test]
fn refusals_are_reported() {
    assert_eq!(
        refused(404, br#"{"error":{}}"#).message(),
        "API 404 Not Found: unknown API error"
    );
    assert_eq!(
        refused(799, b"{}").message(),
        "API 799 <unknown status code>: unknown API error"
    );
    match refused(502, b"oops") {
        StreamError::BadErrorBody(Some(detail)) => {
            assert_eq!(detail, "expected value at line 1 column 1")
        }
        other => panic!("{other:?}"),
    }
    assert_eq!(
        refused(502, b"oops").message(),
        "failed to parse API error response"
    );
    assert_eq!(
        api_error("418 I'm a teapot", Ok(Some("short".to_string()))).message(),
        "API 418 I'm a teapot: short"
    );
}

#[test]
fn text_and_tokens_of_a_response() {
    let mut resp = response(&["a", "b"], Some(3));
    resp.candidates.as_mut().unwrap().push(Candidate { content: None });
    resp.candidates.as_mut().unwrap().push(Candidate {
        content: Some(CandidateContent {
            parts: vec![
                ResponsePart { text: None },
                ResponsePart {
                    text: Some("c".to_string()),
                },
            ],
        }),
    });
    assert_eq!(extract_text_and_tokens(&resp), ("abc".to_string(), Some(3)));
    let empty = StreamResponse {
        candidates: None,
        usage_metadata: Some(UsageMetadata {
            total_token_count: None,
        }),
    };
    assert_eq!(extract_text_and_tokens(&empty), (String::new(), None));
}

#[test]
fn transcript_takes_what_is_new() {
    let mut t = Transcript::new();
    assert_eq!(t.absorb("ab".to_string(), Some(1)), Some("ab".to_string()));
    assert_eq!(t.absorb("ab".to_string(), None), None);
    assert_eq!(t.absorb("abc".to_string(), Some(5)), Some("c".to_string()));
    assert_eq!(t.absorb(String::new(), Some(6)), None);
    assert_eq!(t.absorb("b".to_string(), None), Some("b".to_string()));
    assert_eq!(t.full_text, "abcb");
    assert_eq!(t.last_snapshot, "b");
    assert_eq!(t.final_tokens, 6);
}

#[test]
fn request_is_built() {
    assert_eq!(
        request_url(API_BASE_URL, "m", "k"),
        "https://generativelanguage.googleapis.com/v1beta/models/m:streamGenerateContent?alt=sse&key=k"
    );
    let history = vec![Content {
        role: "user".to_string(),
        parts: vec![Part {
            text: "hi".to_string(),
        }],
    }];
    let request = GenerateRequest::new(&history);
    let instruction = request.system_instruction.unwrap();
    assert_eq!(instruction.role, "user");
    assert_eq!(instruction.parts.len(), 1);
    assert_eq!(instruction.parts[0].text, SYSTEM_PROMPT);
    assert!(SYSTEM_PROMPT.starts_with("You are a highly efficient, expert AI assistant. Be direct"));
    assert!(SYSTEM_PROMPT.ends_with("without unnecessary fluff. Respond in French unless asked otherwise."));
    assert_eq!(request.contents.len(), 1);
    assert_eq!(request.contents[0].clone().parts[0].text, "hi");
}

#[test]
fn end_mark_between_events_is_skipped() {
    let events = [
        gemini_chunk("a"),
        gemini_chunk_with_tokens("b", 3),
        gemini_chunk("c"),
    ];
    let plain: Vec<&str> = events.iter().map(|e| e.as_str()).collect();
    let expected = run(200, &[sse_body(&plain).as_bytes()]);
    assert_eq!(expected.0, Ok(("abc".to_string(), 3)));
    assert_eq!(expected.1, ["a", "b", "c"]);
    for at in 0..=plain.len() {
        let mut marked = plain.clone();
        marked.insert(at, "[DONE]");
        let body = sse_body(&marked);
        assert_eq!(run(200, &[body.as_bytes()]), expected);
        let single: Vec<&[u8]> = body.as_bytes().chunks(1).collect();
        assert_eq!(run(200, &single), expected);
    }
}

#[test]
fn end_mark_before_trailing_text_is_skipped() {
    let plain = format!("data: {}\r\n\r\ndata: {}", gemini_chunk("a"), gemini_chunk("b"));
    let marked = format!(
        "data: {}\r\n\r\ndata: [DONE]\n\ndata: {}",
        gemini_chunk("a"),
        gemini_chunk("b")
    );
    let expected = run(200, &[plain.as_bytes()]);
    assert_eq!(expected.0, Ok(("ab".to_string(), 0)));
    assert_eq!(run(200, &[marked.as_bytes()]), expected);
}

#[test]
fn deliveries_before_a_failure_do_not_depend_on_chunks() {
    let body = sse_body(&[
        &gemini_chunk("x"),
        &gemini_chunk("x"),
        &gemini_chunk("xy"),
        "broken",
        &gemini_chunk("z"),
    ]);
    let whole = run(200, &[body.as_bytes()]);
    assert_eq!(whole.0, Err("invalid SSE JSON payload".to_string()));
    assert_eq!(whole.1, ["x", "y"]);
    for cut in 0..=body.len() {
        let (first, second) = body.as_bytes().split_at(cut);
        assert_eq!(run(200, &[first, second]), whole);
    }
}
