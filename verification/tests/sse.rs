use gemini_lite::sse::{append_chunk, extract_events};

#[test]
fn single_complete_event() {
    let mut buf = "data: {\"text\":\"hello\"}\n\n".to_string();
    let events = extract_events(&mut buf);
    assert_eq!(events, vec!["{\"text\":\"hello\"}"]);
    assert!(buf.is_empty());
}

#[test]
fn partial_event_waits_for_double_newline() {
    let mut buf = "data: partial".to_string();
    let events = extract_events(&mut buf);
    assert!(events.is_empty());
    assert_eq!(buf, "data: partial");
}

#[test]
fn multiple_events_in_one_chunk() {
    let mut buf = "data: first\n\ndata: second\n\n".to_string();
    let events = extract_events(&mut buf);
    assert_eq!(events, vec!["first", "second"]);
    assert!(buf.is_empty());
}

#[test]
fn done_event_extracted_normally() {
    let mut buf = "data: [DONE]\n\n".to_string();
    let events = extract_events(&mut buf);
    assert_eq!(events, vec!["[DONE]"]);
}

#[test]
fn crlf_normalization() {
    let mut buf = String::new();
    let mut residual = Vec::new();
    append_chunk(&mut buf, &mut residual, b"data: hello\r\n\r\n");
    let events = extract_events(&mut buf);
    assert_eq!(events, vec!["hello"]);
}

#[test]
fn whitespace_only_buffer_yields_no_events() {
    let mut buf = "   \n  \n".to_string();
    let events = extract_events(&mut buf);
    assert!(events.is_empty());
}

#[test]
fn multi_line_data_fields_joined() {
    let mut buf = "data: line1\ndata: line2\n\n".to_string();
    let events = extract_events(&mut buf);
    assert_eq!(events, vec!["line1\nline2"]);
}

#[test]
fn incomplete_utf8_buffered_across_chunks() {
    let mut buf = String::new();
    let mut residual = Vec::new();
    // "é" is 0xC3 0xA9 in UTF-8. Split it across two chunks.
    append_chunk(
        &mut buf,
        &mut residual,
        &[b'd', b'a', b't', b'a', b':', b' ', 0xC3],
    );
    assert_eq!(residual.len(), 1);
    assert_eq!(buf, "data: ");
    append_chunk(&mut buf, &mut residual, &[0xA9, b'\n', b'\n']);
    assert!(residual.is_empty());
    let events = extract_events(&mut buf);
    assert_eq!(events, vec!["é"]);
}

#[test]
fn empty_chunk_is_noop() {
    let mut buf = String::new();
    let mut residual = Vec::new();
    append_chunk(&mut buf, &mut residual, b"");
    assert!(buf.is_empty());
    assert!(residual.is_empty());
}

fn receive(chunks: &[&[u8]]) -> (Vec<String>, String, Vec<u8>) {
    let mut buf = String::new();
    let mut residual = Vec::new();
    let mut all = Vec::new();
    for chunk in chunks {
        append_chunk(&mut buf, &mut residual, chunk);
        all.extend(extract_events(&mut buf));
    }
    (all, buf, residual)
}

#[test]
fn every_cut_gives_the_same_events() {
    let body = "data: é…🎉\ndata:  two\n\n: comment\n\nevent: x\ndata:y\n\nrest".as_bytes();
    let whole = receive(&[body]);
    assert_eq!(whole.0, vec!["é…🎉\ntwo", "y"]);
    assert_eq!(whole.1, "rest");
    for cut in 0..=body.len() {
        assert_eq!(receive(&[&body[..cut], &body[cut..]]), whole);
    }
}

#[test]
fn line_ending_cut_in_two_is_not_unified() {
    let whole = receive(&[b"data: a\r\n\r\n"]);
    assert_eq!(whole.0, vec!["a"]);
    let cut = receive(&[b"data: a\r\n\r", b"\n"]);
    assert!(cut.0.is_empty());
    assert_eq!(cut.1, "data: a\n\r\n");
}

#[test]
fn carriage_returns_in_lines() {
    let mut buf = "data: a\r\ndata: b\r\n\n".to_string();
    assert_eq!(extract_events(&mut buf), vec!["a\nb\r"]);
    assert!(buf.is_empty());
}

#[test]
fn blocks_without_data_are_dropped() {
    let mut buf = "\n\n\n\nevent: ping\n\ndata\n\ndata:\n\nx".to_string();
    assert_eq!(extract_events(&mut buf), vec![""]);
    assert_eq!(buf, "x");
}

#[test]
fn three_line_feeds_leave_one() {
    let mut buf = "data: a\n\n\ndata: b".to_string();
    assert_eq!(extract_events(&mut buf), vec!["a"]);
    assert_eq!(buf, "\ndata: b");
}

#[test]
fn leading_white_space_of_data_is_trimmed() {
    let mut buf = "data:\u{3000}\t x y \n\n".to_string();
    assert_eq!(extract_events(&mut buf), vec!["x y "]);
}

#[test]
fn invalid_bytes_keep_waiting() {
    let (events, buf, residual) = receive(&[b"data: a\xff", b"\n\n"]);
    assert!(events.is_empty());
    assert_eq!(buf, "data: a");
    assert_eq!(residual, b"\xff\n\n");
}

#[test]
fn frames_give_back_payloads() {
    let payloads = ["{\"a\":1}", "", "x \r y", "[DONE]"];
    let mut body = String::new();
    for p in payloads {
        body.push_str(&format!("data: {p}\n\n"));
    }
    assert_eq!(extract_events(&mut body), payloads.to_vec());
    assert!(body.is_empty());
}

#[test]
fn extracting_again_finds_nothing() {
    let mut buf = "data: a\n\ndata: b\n".to_string();
    assert_eq!(extract_events(&mut buf), vec!["a"]);
    assert!(extract_events(&mut buf).is_empty());
    assert_eq!(buf, "data: b\n");
}

#[test]
fn both_line_endings_read_the_same() {
    let text = "data: a\ndata: b\n\nevent: x\n\ndata: c\n";
    let crlf = text.replace('\n', "\r\n");
    assert_eq!(receive(&[crlf.as_bytes()]), receive(&[text.as_bytes()]));
    assert_eq!(receive(&[text.as_bytes()]).0, vec!["a\nb"]);
}
