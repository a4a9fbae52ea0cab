use gemini_lite::api::UiEvent;
use gemini_lite::ui::{
    key_not_saved, shortcut, show_message, show_tokens, submit_key, Chat, Page, Shortcut,
    UiCommand,
};

fn page_text(commands: &[UiCommand]) -> String {
    let mut text = String::new();
    for c in commands {
        if let UiCommand::Append(t) = c {
            text.push_str(t);
        }
    }
    text
}

fn request_texts(commands: &[UiCommand]) -> Option<Vec<String>> {
    match commands.last() {
        Some(UiCommand::Request { history, .. }) => Some(
            history
                .iter()
                .map(|c| format!("{}:{}", c.role, c.parts[0].text))
                .collect(),
        ),
        _ => None,
    }
}

#[test]
fn window_opens_on_setup_without_key() {
    let cs = Chat::new(None).opening();
    assert!(matches!(
        cs.as_slice(),
        [
            UiCommand::ShowPage(Page::Setup),
            UiCommand::EnableInput(false),
            UiCommand::EnableSend(false)
        ]
    ));
    let cs = Chat::new(Some("k".to_string())).opening();
    assert!(matches!(cs.as_slice(), [UiCommand::ShowPage(Page::Chat)]));
}

#[test]
fn sending_asks_the_model() {
    let mut chat = Chat::new(Some("k".to_string()));
    let cs = chat.send("  hi \n", None);
    assert!(matches!(
        &cs[..3],
        [
            UiCommand::ClearInput,
            UiCommand::EnableSend(false),
            UiCommand::EnableModelChoice(false)
        ]
    ));
    assert_eq!(page_text(&cs), "\n▶  You\nhi\n");
    assert_eq!(cs.len(), 5);
    match &cs[4] {
        UiCommand::Request { api_key, model, .. } => {
            assert_eq!(api_key, "k");
            assert_eq!(model, "gemini-2.5-flash");
        }
        other => panic!("{other:?}"),
    }
    assert_eq!(request_texts(&cs).unwrap(), ["user:hi"]);
    let cs = chat.send("more", Some("gemini-2.5-pro"));
    assert!(matches!(&cs[4], UiCommand::Request { model, .. } if model == "gemini-2.5-pro"));
    assert_eq!(request_texts(&cs).unwrap(), ["user:hi", "user:more"]);
}

#[test]
fn nothing_is_sent_without_text_or_key() {
    assert!(Chat::new(Some("k".to_string())).send(" \t", None).is_empty());
    assert!(Chat::new(None).send("hi", None).is_empty());
}

#[test]
fn reply_is_shown_as_one_message() {
    let mut chat = Chat::new(Some("k".to_string()));
    chat.send("hi", None);
    let mut cs = chat.receive(UiEvent::Delta("Bon".to_string()));
    cs.extend(chat.receive(UiEvent::Delta("jour".to_string())));
    let done = chat.receive(UiEvent::Done("Bonjour".to_string(), 12));
    assert!(matches!(&done[1], UiCommand::ShowTokens(t) if t == "Context: 12 tokens"));
    assert!(matches!(
        &done[2..],
        [UiCommand::EnableSend(true), UiCommand::EnableModelChoice(true)]
    ));
    cs.extend(done);
    assert_eq!(page_text(&cs), show_message("model", "Bonjour"));
    assert_eq!(page_text(&cs), "\n◆  Gemini\nBonjour\n");
    let cs = chat.send("ok", None);
    assert_eq!(
        request_texts(&cs).unwrap(),
        ["user:hi", "model:Bonjour", "user:ok"]
    );
}

#[test]
fn error_is_shown_and_frees_the_interface() {
    let mut chat = Chat::new(Some("k".to_string()));
    chat.send("hi", None);
    chat.receive(UiEvent::Delta("Bon".to_string()));
    let cs = chat.receive(UiEvent::Error("broken".to_string()));
    assert_eq!(page_text(&cs), "\n⚠  Error: broken\n");
    assert!(matches!(
        &cs[1..],
        [UiCommand::EnableSend(true), UiCommand::EnableModelChoice(true)]
    ));
    let cs = chat.receive(UiEvent::Delta("x".to_string()));
    assert_eq!(page_text(&cs), "\n◆  Gemini\nx");
}

#[test]
fn history_of_requests_is_bounded() {
    let mut chat = Chat::new(Some("k".to_string()));
    for i in 0..20 {
        let cs = chat.send(&format!("u{i}"), None);
        let texts = request_texts(&cs).unwrap();
        assert!(texts.len() <= 10);
        assert!(texts[0].starts_with("user:"));
        assert_eq!(texts.last().unwrap(), &format!("user:u{i}"));
        chat.receive(UiEvent::Done(format!("m{i}"), i));
    }
}

#[test]
fn clear_forgets() {
    let mut chat = Chat::new(Some("k".to_string()));
    chat.send("a", None);
    chat.receive(UiEvent::Done("b".to_string(), 1));
    let cs = chat.clear();
    assert!(matches!(
        cs.as_slice(),
        [UiCommand::ClearTranscript, UiCommand::ShowTokens(t)] if t == "Context: 0 tokens"
    ));
    assert_eq!(request_texts(&chat.send("c", None)).unwrap(), ["user:c"]);
}

#[test]
fn key_is_submitted() {
    assert_eq!(submit_key(" abc\n").unwrap(), "abc");
    assert!(matches!(
        submit_key("  ").unwrap_err(),
        UiCommand::ShowKeyError(t) if t == "Key cannot be empty."
    ));
    assert!(matches!(
        key_not_saved("disk full"),
        UiCommand::ShowKeyError(t) if t == "Could not save key: disk full"
    ));
    let mut chat = Chat::new(None);
    let cs = chat.key_saved("abc".to_string());
    assert!(matches!(
        cs.as_slice(),
        [
            UiCommand::EnableInput(true),
            UiCommand::EnableSend(true),
            UiCommand::ShowPage(Page::Chat)
        ]
    ));
    assert_eq!(chat.send("hi", None).len(), 5);
}

#[test]
fn shortcuts() {
    assert_eq!(shortcut(true, 'q' as u32), Some(Shortcut::Close));
    assert_eq!(shortcut(true, 'k' as u32), Some(Shortcut::Clear));
    assert_eq!(shortcut(false, 'q' as u32), None);
    assert_eq!(shortcut(false, 'k' as u32), None);
    assert_eq!(shortcut(true, 'Q' as u32), None);
    assert_eq!(shortcut(true, 'x' as u32), None);
}

#[test]
fn token_texts() {
    assert_eq!(show_tokens(0), "Context: 0 tokens");
    assert_eq!(show_tokens(4_294_967_295), "Context: 4294967295 tokens");
}

#[test]
fn requests_start_with_the_user() {
    let mut chat = Chat::new(Some("k".to_string()));
    for i in 0..30 {
        let texts = request_texts(&chat.send(&format!("u{i}"), None)).unwrap();
        assert!(texts[0].starts_with("user:"));
        if i % 3 == 0 {
            chat.receive(UiEvent::Error("lost".to_string()));
        } else {
            chat.receive(UiEvent::Done(format!("m{i}"), 1));
        }
    }
}

#[test]
fn overlapping_requests_start_with_the_user() {
    let mut chat = Chat::new(Some("k".to_string()));
    for i in 0..20 {
        for text in ["one", "two"] {
            let texts = request_texts(&chat.send(&format!("{text}{i}"), None)).unwrap();
            assert!(texts.len() <= 10);
            assert!(texts[0].starts_with("user:"));
        }
        chat.receive(UiEvent::Done(format!("a{i}"), 1));
        chat.receive(UiEvent::Done(format!("b{i}"), 1));
    }
}
