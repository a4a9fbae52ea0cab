use gemini_lite::config::{
    config_dir, key_file_path, load_api_key, load_window_state, persist_key_to_file, save_api_key,
    save_window_state, state_path, FileOp, KeyLookup, KeySaving, KeySource, KeyringOutcome,
    WindowState,
};
use std::path::Path;

#[test]
fn config_dir_follows_the_environment() {
    assert_eq!(config_dir(Some("/x"), Some("/home/u")), "/x/gemini-lite");
    assert_eq!(config_dir(None, Some("/home/u")), "/home/u/.config/gemini-lite");
    assert_eq!(config_dir(None, None), ".");
    for dir in ["", "/", "a", "a/", "/x/y", "//"] {
        let joined = Path::new(dir).join("gemini-lite");
        assert_eq!(config_dir(Some(dir), None), joined.to_str().unwrap());
        let joined = Path::new(dir).join(".config").join("gemini-lite");
        assert_eq!(config_dir(None, Some(dir)), joined.to_str().unwrap());
    }
}

#[test]
fn files_of_the_config_dir() {
    assert_eq!(state_path("/x"), "/x/window-state.json");
    assert_eq!(key_file_path("/x"), "/x/api-key");
    assert_eq!(key_file_path("."), "./api-key");
}

#[test]
fn window_state_defaults() {
    let expected = WindowState {
        width: 900,
        height: 700,
        pos_x: None,
        pos_y: None,
    };
    assert_eq!(WindowState::default(), expected);
    assert_eq!(load_window_state(None), expected);
    let state = WindowState::of_window(100, 2000, -5, 7);
    assert_eq!(
        state,
        WindowState {
            width: 640,
            height: 2000,
            pos_x: Some(-5),
            pos_y: Some(7),
        }
    );
    assert_eq!(WindowState::of_window(641, 480, 0, 0).width, 641);
    assert_eq!(WindowState::of_window(641, 479, 0, 0).height, 480);
    assert_eq!(load_window_state(Some(state)), state);
    assert_eq!(state.place(), Some((-5, 7)));
    assert_eq!(expected.place(), None);
    let half = WindowState {
        pos_y: None,
        ..state
    };
    assert_eq!(half.place(), None);
}

#[test]
fn key_load_order() {
    let some = |s: &str| Some(s.to_string());
    assert_eq!(load_api_key(Some(" e\n"), Some("k"), Some("f")), some("e"));
    assert_eq!(load_api_key(Some("  "), Some(" k "), Some("f")), some("k"));
    assert_eq!(load_api_key(None, None, Some("f\n")), some("f"));
    assert_eq!(load_api_key(None, Some(""), Some("f")), some("f"));
    assert_eq!(load_api_key(Some(""), Some("\t"), Some("\n")), None);
    assert_eq!(load_api_key(None, None, None), None);
}

#[test]
fn key_lookup_asks_no_further_than_needed() {
    assert!(matches!(
        KeyLookup::new(),
        KeyLookup::Ask(KeySource::Environment)
    ));
    match KeyLookup::answered(KeySource::Environment, Some(" e ")) {
        KeyLookup::Found(key) => assert_eq!(key, "e"),
        other => panic!("{other:?}"),
    }
    assert!(matches!(
        KeyLookup::answered(KeySource::Environment, None),
        KeyLookup::Ask(KeySource::Keyring)
    ));
    assert!(matches!(
        KeyLookup::answered(KeySource::Keyring, Some(" ")),
        KeyLookup::Ask(KeySource::ConfigFile)
    ));
    assert!(matches!(
        KeyLookup::answered(KeySource::ConfigFile, None),
        KeyLookup::Missing
    ));
}

#[test]
fn key_goes_to_a_private_file() {
    let plan = persist_key_to_file("/x", "secret");
    assert_eq!(plan.len(), 3);
    assert!(matches!(&plan[0].op, FileOp::CreateDir(dir) if dir == "/x"));
    assert_eq!(plan[0].on_failure, "cannot create config dir /x");
    assert!(
        matches!(&plan[1].op, FileOp::Write { path, text } if path == "/x/api-key" && text == "secret")
    );
    assert_eq!(plan[1].on_failure, "cannot write /x/api-key");
    assert!(
        matches!(&plan[2].op, FileOp::SetMode { path, mode } if path == "/x/api-key" && *mode == 0o600)
    );
    assert_eq!(plan[2].on_failure, "cannot chmod api-key file");
    assert_eq!(load_api_key(None, None, Some("secret")), Some("secret".to_string()));
}

#[test]
fn key_save_order() {
    assert!(matches!(
        save_api_key(KeyringOutcome::Saved, "/x", "k"),
        KeySaving::Done
    ));
    match save_api_key(KeyringOutcome::NoEntry, "/x", "k") {
        KeySaving::Failed(text) => assert_eq!(text, "cannot construct keyring entry"),
        other => panic!("{other:?}"),
    }
    match save_api_key(KeyringOutcome::Unavailable, "/x", "k") {
        KeySaving::ToFile(plan) => assert_eq!(plan.len(), 3),
        other => panic!("{other:?}"),
    }
}

#[test]
fn window_state_goes_to_its_file() {
    let plan = save_window_state("/x", "{}");
    assert_eq!(plan.len(), 2);
    assert!(matches!(&plan[0].op, FileOp::CreateDir(dir) if dir == "/x"));
    assert_eq!(plan[0].on_failure, "cannot create config dir /x");
    assert!(
        matches!(&plan[1].op, FileOp::Write { path, text } if path == "/x/window-state.json" && text == "{}")
    );
    assert_eq!(plan[1].on_failure, "cannot write window-state.json");
}
