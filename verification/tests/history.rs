use gemini_lite::api::{Content, Part};
use gemini_lite::history::{prune, MAX_HISTORY_LEN};

fn msg(role: &str, text: &str) -> Content {
    Content {
        role: role.to_string(),
        parts: vec![Part {
            text: text.to_string(),
        }],
    }
}

fn texts(h: &[Content]) -> Vec<String> {
    h.iter().map(|c| c.parts[0].text.clone()).collect()
}

#[test]
fn no_pruning_under_limit() {
    let mut h = vec![msg("user", "a"), msg("model", "b")];
    prune(&mut h);
    assert_eq!(h.len(), 2);
}

#[test]
fn prunes_to_max_len() {
    let mut h: Vec<Content> = (0..15)
        .map(|i| {
            if i % 2 == 0 {
                msg("user", &format!("u{i}"))
            } else {
                msg("model", &format!("m{i}"))
            }
        })
        .collect();
    prune(&mut h);
    assert!(h.len() <= MAX_HISTORY_LEN + 1);
}

#[test]
fn first_message_after_prune_is_user() {
    let mut h: Vec<Content> = (0..20)
        .map(|i| {
            if i % 2 == 0 {
                msg("user", &format!("u{i}"))
            } else {
                msg("model", &format!("m{i}"))
            }
        })
        .collect();
    prune(&mut h);
    assert_eq!(h[0].role, "user");
}

#[test]
fn prune_at_exact_boundary() {
    let mut h: Vec<Content> = (0..MAX_HISTORY_LEN)
        .map(|i| {
            if i % 2 == 0 {
                msg("user", &format!("u{i}"))
            } else {
                msg("model", &format!("m{i}"))
            }
        })
        .collect();
    let original_len = h.len();
    prune(&mut h);
    assert_eq!(h.len(), original_len);
}

#[test]
fn clear_resets_to_empty() {
    let mut h = vec![msg("user", "a"), msg("model", "b")];
    h.clear();
    assert!(h.is_empty());
}

#[test]
fn prune_keeps_the_latest_in_order() {
    let mut h: Vec<Content> = (0..11)
        .map(|i| msg(if i % 2 == 0 { "user" } else { "model" }, &format!("{i}")))
        .collect();
    prune(&mut h);
    assert_eq!(texts(&h), ["2", "3", "4", "5", "6", "7", "8", "9", "10"]);
    prune(&mut h);
    assert_eq!(h.len(), 9);

    let mut h: Vec<Content> = (0..12)
        .map(|i| msg(if i % 2 == 0 { "user" } else { "model" }, &format!("{i}")))
        .collect();
    prune(&mut h);
    assert_eq!(texts(&h), ["2", "3", "4", "5", "6", "7", "8", "9", "10", "11"]);
}

#[test]
fn model_messages_at_the_cut_are_skipped() {
    let mut h: Vec<Content> = (0..12)
        .map(|i| msg(if i == 2 || i == 3 { "model" } else { "user" }, &format!("{i}")))
        .collect();
    prune(&mut h);
    assert_eq!(h.len(), 8);
    assert_eq!(h[0].role, "user");
    assert_eq!(texts(&h), ["4", "5", "6", "7", "8", "9", "10", "11"]);

    let mut h: Vec<Content> = (0..15)
        .map(|i| msg(if i == 14 { "user" } else { "model" }, &format!("{i}")))
        .collect();
    prune(&mut h);
    assert_eq!(texts(&h), ["14"]);
}

#[test]
fn without_a_user_message_one_more_is_taken() {
    let mut h: Vec<Content> = (0..12).map(|i| msg("model", &format!("{i}"))).collect();
    prune(&mut h);
    assert_eq!(texts(&h), ["3", "4", "5", "6", "7", "8", "9", "10", "11"]);
    prune(&mut h);
    assert_eq!(h.len(), 9);
}
