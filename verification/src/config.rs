//! Where settings are kept, the state of the window, and the API key.

use vstd::prelude::*;

use crate::text::{
    blank, chars_of, law_trim_empties_blank, law_trim_is_idempotent, trim, trimmed,
};

verus! {

/// The width of a window that was never shown.
pub const DEFAULT_WIDTH: i32 = 900;

/// The height of a window that was never shown.
pub const DEFAULT_HEIGHT: i32 = 700;

/// The least width that is remembered.
pub const MIN_WIDTH: i32 = 640;

/// The least height that is remembered.
pub const MIN_HEIGHT: i32 = 480;

/// The service under which the system keyring knows the API key.
pub const KEYRING_SERVICE: &'static str = "gemini-lite";

/// The user under which the system keyring knows the API key.
pub const KEYRING_USER: &'static str = "api-key";

/// Size and place of the window.
#[derive(Debug, Clone, Copy, PartialEq, Eq, Structural)]
pub struct WindowState {
    pub width: i32,
    pub height: i32,
    pub pos_x: Option<i32>,
    pub pos_y: Option<i32>,
}

/// The state of a window that was never shown.
pub open spec fn default_state() -> WindowState {
    WindowState { width: DEFAULT_WIDTH, height: DEFAULT_HEIGHT, pos_x: None, pos_y: None }
}

impl Default for WindowState {
    fn default() -> (s: Self)
        ensures
            s == default_state(),
    {
        WindowState { width: DEFAULT_WIDTH, height: DEFAULT_HEIGHT, pos_x: None, pos_y: None }
    }
}

impl WindowState {
    /// What is remembered of a window: its place, and its size unless that is
    /// too small to be of use.
    pub fn of_window(width: i32, height: i32, x: i32, y: i32) -> (s: WindowState)
        ensures
            s.width == if width > MIN_WIDTH {
                width
            } else {
                MIN_WIDTH
            },
            s.height == if height > MIN_HEIGHT {
                height
            } else {
                MIN_HEIGHT
            },
            s.pos_x == Some(x),
            s.pos_y == Some(y),
            s.width >= width && s.width >= 640 && (s.width == width || s.width == 640),
            s.height >= height && s.height >= 480 && (s.height == height || s.height == 480),
    {
        WindowState {
            width: if width > MIN_WIDTH {
                width
            } else {
                MIN_WIDTH
            },
            height: if height > MIN_HEIGHT {
                height
            } else {
                MIN_HEIGHT
            },
            pos_x: Some(x),
            pos_y: Some(y),
        }
    }

    /// Where to move the window: nowhere, unless both coordinates are known.
    pub fn place(&self) -> (at: Option<(i32, i32)>)
        ensures
            at == match (self.pos_x, self.pos_y) {
                (Some(x), Some(y)) => Some((x, y)),
                _ => None,
            },
    {
        match (self.pos_x, self.pos_y) {
            (Some(x), Some(y)) => Some((x, y)),
            _ => None,
        }
    }
}

/// The state to open the window in: the remembered one, if it could be read.
pub fn load_window_state(remembered: Option<WindowState>) -> (s: WindowState)
    ensures
        s == match remembered {
            Some(state) => state,
            None => default_state(),
        },
{
    match remembered {
        Some(state) => state,
        None => WindowState::default(),
    }
}

/// The path of `name` in the directory `dir`.
pub open spec fn path_in(dir: Seq<char>, name: Seq<char>) -> Seq<char> {
    if dir.len() == 0 || dir.last() == '/' {
        dir + name
    } else {
        dir + seq!['/'] + name
    }
}

/// The characters of a variable of the environment, if it is set.
pub open spec fn text_of(s: Option<&str>) -> Option<Seq<char>> {
    match s {
        Some(t) => Some(t@),
        None => None,
    }
}

/// The directory of the settings, from `XDG_CONFIG_HOME` and `HOME`.
pub open spec fn config_path(xdg: Option<Seq<char>>, home: Option<Seq<char>>) -> Seq<char> {
    match (xdg, home) {
        (Some(dir), _) => path_in(dir, "gemini-lite"@),
        (None, Some(dir)) => path_in(path_in(dir, ".config"@), "gemini-lite"@),
        (None, None) => "."@,
    }
}

/// The path of `name` in the directory `dir`. `name` is a relative path.
fn join_path(dir: &str, name: &str) -> (path: String)
    ensures
        path@ == path_in(dir@, name@),
{
    let chars = chars_of(dir);
    let mut path = dir.to_string();
    if chars.len() > 0 && chars[chars.len() - 1] != '/' {
        path.push('/');
        assert(path@ == dir@ + seq!['/']);
    }
    path.append(name);
    path
}

/// The directory of the settings, from the values of `XDG_CONFIG_HOME` and
/// `HOME`, each if it is set.
pub fn config_dir(xdg_config_home: Option<&str>, home: Option<&str>) -> (dir: String)
    ensures
        dir@ == config_path(text_of(xdg_config_home), text_of(home)),
{
    match xdg_config_home {
        Some(dir) => join_path(dir, "gemini-lite"),
        None => match home {
            Some(dir) => {
                let config = join_path(dir, ".config");
                join_path(config.as_str(), "gemini-lite")
            },
            None => ".".to_string(),
        },
    }
}

/// The file that the state of the window is kept in.
pub fn state_path(config_dir: &str) -> (path: String)
    ensures
        path@ == path_in(config_dir@, "window-state.json"@),
{
    join_path(config_dir, "window-state.json")
}

/// The file that the API key is kept in where there is no keyring.
pub fn key_file_path(config_dir: &str) -> (path: String)
    ensures
        path@ == path_in(config_dir@, "api-key"@),
{
    join_path(config_dir, "api-key")
}

/// What is done to a file.
#[derive(Debug)]
pub enum FileOp {
    /// Create this directory, with those above it, unless it is there.
    CreateDir(String),
    /// Write this text to this file, in place of what it held.
    Write { path: String, text: String },
    /// Let only these permissions stand on this file.
    SetMode { path: String, mode: u32 },
}

/// A step of saving: what is done, and what is said if it fails.
#[derive(Debug)]
pub struct FileStep {
    pub op: FileOp,
    pub on_failure: String,
}

/// A `FileOp` as characters.
pub enum Op {
    CreateDir(Seq<char>),
    Write { path: Seq<char>, text: Seq<char> },
    SetMode { path: Seq<char>, mode: u32 },
}

/// A `FileStep` as characters.
pub struct Step {
    pub op: Op,
    pub on_failure: Seq<char>,
}

impl View for FileOp {
    type V = Op;

    open spec fn view(&self) -> Op {
        match self {
            FileOp::CreateDir(path) => Op::CreateDir(path@),
            FileOp::Write { path, text } => Op::Write { path: path@, text: text@ },
            FileOp::SetMode { path, mode } => Op::SetMode { path: path@, mode: *mode },
        }
    }
}

impl View for FileStep {
    type V = Step;

    open spec fn view(&self) -> Step {
        Step { op: self.op@, on_failure: self.on_failure@ }
    }
}

/// The steps of a plan.
pub open spec fn steps(plan: Seq<FileStep>) -> Seq<Step> {
    plan.map_values(|s: FileStep| s@)
}

/// Creating the directory of the settings.
pub open spec fn create_dir_step(dir: Seq<char>) -> Step {
    Step { op: Op::CreateDir(dir), on_failure: "cannot create config dir "@ + dir }
}

fn create_dir(dir: &str) -> (step: FileStep)
    ensures
        step@ == create_dir_step(dir@),
{
    let mut on_failure = "cannot create config dir ".to_string();
    on_failure.append(dir);
    FileStep { op: FileOp::CreateDir(dir.to_string()), on_failure }
}

/// The steps that save the state of the window, given as JSON text.
pub fn save_window_state(config_dir: &str, json: &str) -> (plan: Vec<FileStep>)
    ensures
        steps(plan@) == seq![
            create_dir_step(config_dir@),
            Step {
                op: Op::Write {
                    path: path_in(config_dir@, "window-state.json"@),
                    text: json@,
                },
                on_failure: "cannot write window-state.json"@,
            },
        ],
{
    let mut plan: Vec<FileStep> = Vec::new();
    plan.push(create_dir(config_dir));
    plan.push(
        FileStep {
            op: FileOp::Write { path: state_path(config_dir), text: json.to_string() },
            on_failure: "cannot write window-state.json".to_string(),
        },
    );
    plan
}

/// The steps that write the API key to its file.
pub open spec fn key_file_plan(config_dir: Seq<char>, key: Seq<char>) -> Seq<Step> {
    let path = path_in(config_dir, "api-key"@);
    seq![
        create_dir_step(config_dir),
        Step { op: Op::Write { path, text: key }, on_failure: "cannot write "@ + path },
        Step {
            op: Op::SetMode { path, mode: 0o600 },
            on_failure: "cannot chmod api-key file"@,
        },
    ]
}

/// The steps that write the API key to its file, which is then readable and
/// writable for its owner and nobody else.
pub fn persist_key_to_file(config_dir: &str, key: &str) -> (plan: Vec<FileStep>)
    ensures
        steps(plan@) == key_file_plan(config_dir@, key@),
{
    let path = key_file_path(config_dir);
    let mut on_failure = "cannot write ".to_string();
    on_failure.append(path.as_str());
    let mut plan: Vec<FileStep> = Vec::new();
    plan.push(create_dir(config_dir));
    plan.push(
        FileStep {
            op: FileOp::Write { path: path.clone(), text: key.to_string() },
            on_failure,
        },
    );
    plan.push(
        FileStep {
            op: FileOp::SetMode { path, mode: 0o600 },
            on_failure: "cannot chmod api-key file".to_string(),
        },
    );
    plan
}

/// How saving the API key in the system keyring went.
#[derive(Debug, Clone, Copy)]
pub enum KeyringOutcome {
    /// It was saved.
    Saved,
    /// There is no entry to save it in.
    NoEntry,
    /// The keyring did not take it.
    Unavailable,
}

/// What follows from how saving in the keyring went.
#[derive(Debug)]
pub enum KeySaving {
    /// Nothing more is to be done.
    Done,
    /// Saving failed, and this is said.
    Failed(String),
    /// The key goes to its file, by these steps.
    ToFile(Vec<FileStep>),
}

/// Saves the API key in the keyring if that takes it, else in its file.
pub fn save_api_key(keyring: KeyringOutcome, config_dir: &str, key: &str) -> (next: KeySaving)
    ensures
        match keyring {
            KeyringOutcome::Saved => next is Done,
            KeyringOutcome::NoEntry => next matches KeySaving::Failed(text) && text@
                == "cannot construct keyring entry"@,
            KeyringOutcome::Unavailable => next matches KeySaving::ToFile(plan) && steps(plan@)
                == key_file_plan(config_dir@, key@),
        },
{
    match keyring {
        KeyringOutcome::Saved => KeySaving::Done,
        KeyringOutcome::NoEntry => KeySaving::Failed("cannot construct keyring entry".to_string()),
        KeyringOutcome::Unavailable => KeySaving::ToFile(persist_key_to_file(config_dir, key)),
    }
}

/// Where an API key may be found.
#[derive(Debug, Clone, Copy, PartialEq, Eq, Structural)]
pub enum KeySource {
    /// The variable `GEMINI_API_KEY`.
    Environment,
    /// The system keyring.
    Keyring,
    /// The file of the key.
    ConfigFile,
}

/// The course of looking for an API key.
#[derive(Debug)]
pub enum KeyLookup {
    /// This source is to be asked.
    Ask(KeySource),
    /// This is the key.
    Found(String),
    /// There is no key.
    Missing,
}

/// A `KeyLookup` as characters.
pub enum Lookup {
    Ask(KeySource),
    Found(Seq<char>),
    Missing,
}

impl View for KeyLookup {
    type V = Lookup;

    open spec fn view(&self) -> Lookup {
        match self {
            KeyLookup::Ask(source) => Lookup::Ask(*source),
            KeyLookup::Found(key) => Lookup::Found(key@),
            KeyLookup::Missing => Lookup::Missing,
        }
    }
}

/// The key in what a source holds: without white space around it, and none if
/// nothing else is there.
pub open spec fn key_in(answer: Option<Seq<char>>) -> Option<Seq<char>> {
    match answer {
        Some(raw) => if trimmed(raw).len() > 0 {
            Some(trimmed(raw))
        } else {
            None
        },
        None => None,
    }
}

/// What follows when `source` holds `answer`: a key ends the search, else the
/// next source is asked.
pub open spec fn after_answer(source: KeySource, answer: Option<Seq<char>>) -> Lookup {
    match (key_in(answer), source) {
        (Some(key), _) => Lookup::Found(key),
        (None, KeySource::Environment) => Lookup::Ask(KeySource::Keyring),
        (None, KeySource::Keyring) => Lookup::Ask(KeySource::ConfigFile),
        (None, KeySource::ConfigFile) => Lookup::Missing,
    }
}

impl KeyLookup {
    /// The environment is asked first.
    pub fn new() -> (l: KeyLookup)
        ensures
            l@ == Lookup::Ask(KeySource::Environment),
    {
        KeyLookup::Ask(KeySource::Environment)
    }

    /// What follows when `source` holds `answer`.
    pub fn answered(source: KeySource, answer: Option<&str>) -> (l: KeyLookup)
        ensures
            l@ == after_answer(source, text_of(answer)),
    {
        if let Some(raw) = answer {
            let key = trim(raw);
            if !key.as_str().is_empty() {
                return KeyLookup::Found(key);
            }
        }
        match source {
            KeySource::Environment => KeyLookup::Ask(KeySource::Keyring),
            KeySource::Keyring => KeyLookup::Ask(KeySource::ConfigFile),
            KeySource::ConfigFile => KeyLookup::Missing,
        }
    }
}

/// The first key that the sources hold, in the order in which they are asked.
pub open spec fn first_key(
    environment: Option<Seq<char>>,
    keyring: Option<Seq<char>>,
    file: Option<Seq<char>>,
) -> Option<Seq<char>> {
    match (key_in(environment), key_in(keyring)) {
        (Some(key), _) => Some(key),
        (None, Some(key)) => Some(key),
        (None, None) => key_in(file),
    }
}

/// The API key: that of the environment, else that of the keyring, else that of
/// the file, from what each of them holds.
pub fn load_api_key(environment: Option<&str>, keyring: Option<&str>, file: Option<&str>) -> (key:
    Option<String>)
    ensures
        match key {
            Some(k) => first_key(text_of(environment), text_of(keyring), text_of(file)) == Some(
                k@,
            ),
            None => first_key(text_of(environment), text_of(keyring), text_of(file)) is None,
        },
{
    let mut lookup = KeyLookup::new();
    let mut asked: usize = 0;
    loop
        invariant
            asked <= 3,
            asked == 0 ==> lookup@ == Lookup::Ask(KeySource::Environment),
            asked == 1 ==> lookup@ == after_answer(KeySource::Environment, text_of(environment)),
            asked == 2 ==> key_in(text_of(environment)) is None && lookup@ == after_answer(
                KeySource::Keyring,
                text_of(keyring),
            ),
            asked == 3 ==> key_in(text_of(environment)) is None && key_in(text_of(keyring)) is None
                && lookup@ == after_answer(KeySource::ConfigFile, text_of(file)),
        decreases 3 - asked,
    {
        match lookup {
            KeyLookup::Ask(source) => {
                let answer = match source {
                    KeySource::Environment => environment,
                    KeySource::Keyring => keyring,
                    KeySource::ConfigFile => file,
                };
                lookup = KeyLookup::answered(source, answer);
                asked = asked + 1;
            },
            KeyLookup::Found(key) => {
                return Some(key);
            },
            KeyLookup::Missing => {
                return None;
            },
        }
    }
}

/// Follows a search to its end, with what each source holds.
pub open spec fn search(
    lookup: Lookup,
    environment: Option<Seq<char>>,
    keyring: Option<Seq<char>>,
    file: Option<Seq<char>>,
) -> Option<Seq<char>>
    decreases
            match lookup {
                Lookup::Ask(KeySource::Environment) => 3int,
                Lookup::Ask(KeySource::Keyring) => 2,
                Lookup::Ask(KeySource::ConfigFile) => 1,
                _ => 0,
            },
{
    match lookup {
        Lookup::Ask(KeySource::Environment) => search(
            after_answer(KeySource::Environment, environment),
            environment,
            keyring,
            file,
        ),
        Lookup::Ask(KeySource::Keyring) => search(
            after_answer(KeySource::Keyring, keyring),
            environment,
            keyring,
            file,
        ),
        Lookup::Ask(KeySource::ConfigFile) => search(
            after_answer(KeySource::ConfigFile, file),
            environment,
            keyring,
            file,
        ),
        Lookup::Found(key) => Some(key),
        Lookup::Missing => None,
    }
}

/// Asking the sources one after the other, and none behind the first key, finds
/// what looking at all of them would: the environment before the keyring, and
/// the keyring before the file.
pub proof fn law_search_finds_first_key(
    environment: Option<Seq<char>>,
    keyring: Option<Seq<char>>,
    file: Option<Seq<char>>,
)
    ensures
        search(Lookup::Ask(KeySource::Environment), environment, keyring, file) == first_key(
            environment,
            keyring,
            file,
        ),
{
    reveal_with_fuel(search, 4);
}

/// A key that the file plan writes is found again: where neither environment nor
/// keyring hold a key, the search gives back a trimmed key unchanged.
pub proof fn law_saved_key_is_found(
    config_dir: Seq<char>,
    entered: Seq<char>,
    environment: Option<Seq<char>>,
    keyring: Option<Seq<char>>,
)
    requires
        trimmed(entered).len() > 0,
        key_in(environment) is None,
        key_in(keyring) is None,
    ensures
        ({
            let key = trimmed(entered);
            let written = key_file_plan(config_dir, key)[1].op;
            &&& written == (Op::Write { path: path_in(config_dir, "api-key"@), text: key })
            &&& first_key(environment, keyring, Some(key)) == Some(key)
        }),
{
    law_trim_is_idempotent(entered);
}

/// A key file is private: the plan that writes the key ends with the permissions
/// of the file that it wrote, and they are its owner's alone.
pub proof fn law_key_file_is_private(config_dir: Seq<char>, key: Seq<char>)
    ensures
        ({
            let plan = key_file_plan(config_dir, key);
            &&& plan.last().op matches Op::SetMode { path, mode } && mode == 0o600 && (
            plan[plan.len() - 2].op matches Op::Write { path: p, .. } && p == path)
        }),
{
}

/// A key that is found is never blank and has no white space around it.
pub proof fn law_found_key_is_trimmed(
    environment: Option<Seq<char>>,
    keyring: Option<Seq<char>>,
    file: Option<Seq<char>>,
)
    ensures
        first_key(environment, keyring, file) matches Some(key) ==> key.len() > 0 && trimmed(key)
            == key,
{
    if let Some(raw) = environment {
        law_trim_is_idempotent(raw);
    }
    if let Some(raw) = keyring {
        law_trim_is_idempotent(raw);
    }
    if let Some(raw) = file {
        law_trim_is_idempotent(raw);
    }
}

/// A path in a directory starts with the directory and ends with the name, and
/// between the two stands a slash unless the directory ends with one or is empty.
pub proof fn law_path_leads_through_the_directory(dir: Seq<char>, name: Seq<char>)
    ensures
        dir.is_prefix_of(path_in(dir, name)),
        name.is_suffix_of(path_in(dir, name)),
        dir.len() == 0 ==> path_in(dir, name) == name,
        dir.len() > 0 && dir.last() == '/' ==> path_in(dir, name).len() == dir.len() + name.len(),
        dir.len() > 0 && dir.last() != '/' ==> path_in(dir, name).len() == dir.len() + 1
            + name.len() && path_in(dir, name)[dir.len() as int] == '/',
{
    let path = path_in(dir, name);
    assert(path.subrange(0, dir.len() as int) =~= dir);
    assert(path.subrange(path.len() - name.len(), path.len() as int) =~= name);
    if dir.len() == 0 {
        assert(path =~= name);
    }
}

/// The directory that the environment names for settings goes before the home
/// directory, which does not matter then; of the latter it is the one for
/// settings. Without either it is the current directory.
pub proof fn law_named_directory_goes_first(
    xdg: Seq<char>,
    home: Seq<char>,
    other: Option<Seq<char>>,
)
    ensures
        config_path(Some(xdg), other) == path_in(xdg, "gemini-lite"@),
        config_path(None, Some(home)) == config_path(Some(path_in(home, ".config"@)), other),
        config_path(None, None) == "."@,
{
}

/// A source holds a key exactly if it holds more than white space, and the key is
/// all of that without the white space around it.
pub proof fn law_key_is_what_is_not_blank(raw: Seq<char>)
    ensures
        blank(raw) ==> key_in(Some(raw)) is None,
        !blank(raw) ==> key_in(Some(raw)) == Some(trimmed(raw)),
        key_in(None) is None,
{
    law_trim_empties_blank(raw);
}

/// The environment goes before the keyring, and the keyring before the file: the
/// first of them that holds more than white space has the key, whatever those
/// behind it hold, and one that holds no more is passed over as if it were not
/// there.
pub proof fn law_sources_have_an_order(
    raw: Seq<char>,
    a: Option<Seq<char>>,
    b: Option<Seq<char>>,
)
    ensures
        !blank(raw) ==> first_key(Some(raw), a, b) == Some(trimmed(raw)),
        !blank(raw) ==> first_key(None, Some(raw), a) == Some(trimmed(raw)),
        !blank(raw) ==> first_key(None, None, Some(raw)) == Some(trimmed(raw)),
        blank(raw) ==> first_key(Some(raw), a, b) == first_key(None, a, b),
        blank(raw) ==> first_key(a, Some(raw), b) == first_key(a, None, b),
        blank(raw) ==> first_key(a, b, Some(raw)) == first_key(a, b, None),
        first_key(None, None, None) is None,
{
    law_key_is_what_is_not_blank(raw);
}

/// The plan that writes a key makes the directory, writes the key whole to the
/// file in it, and then makes that file private, in this order, and does nothing
/// else. Where a step fails, what is said names the place.
pub proof fn law_key_goes_to_its_file(dir: Seq<char>, key: Seq<char>)
    ensures
        ({
            let plan = key_file_plan(dir, key);
            let path = path_in(dir, "api-key"@);
            &&& plan.len() == 3
            &&& plan[0].op == Op::CreateDir(dir)
            &&& plan[1].op == (Op::Write { path, text: key })
            &&& plan[2].op == (Op::SetMode { path, mode: 0o600 })
            &&& dir.is_suffix_of(plan[0].on_failure)
            &&& path.is_suffix_of(plan[1].on_failure)
        }),
{
    let plan = key_file_plan(dir, key);
    let path = path_in(dir, "api-key"@);
    let (m, n) = (plan[0].on_failure, plan[1].on_failure);
    assert(m.subrange(m.len() - dir.len(), m.len() as int) =~= dir);
    assert(n.subrange(n.len() - path.len(), n.len() as int) =~= path);
}

/// A step is seen whole: what is done, to which path, with which text.
pub proof fn law_step_is_seen_whole(path: String, text: String, mode: u32)
    ensures
        FileOp::CreateDir(path)@ == Op::CreateDir(path@),
        (FileOp::Write { path, text })@ == (Op::Write { path: path@, text: text@ }),
        (FileOp::SetMode { path, mode })@ == (Op::SetMode { path: path@, mode }),
        (FileStep { op: FileOp::CreateDir(path), on_failure: text })@.on_failure == text@,
        KeyLookup::Found(text)@ == Lookup::Found(text@),
{
}

/// A plan is seen whole, step by step.
pub proof fn law_plan_is_seen_whole(plan: Seq<FileStep>, i: int)
    requires
        0 <= i < plan.len(),
    ensures
        steps(plan).len() == plan.len(),
        steps(plan)[i] == plan[i]@,
{
}

/// The search asks the sources in their order, and none behind the one that holds
/// a key.
pub proof fn law_search_asks_in_order(raw: Seq<char>, source: KeySource)
    ensures
        !blank(raw) ==> after_answer(source, Some(raw)) == Lookup::Found(trimmed(raw)),
        blank(raw) ==> after_answer(source, Some(raw)) == after_answer(source, None),
        after_answer(KeySource::Environment, None) == Lookup::Ask(KeySource::Keyring),
        after_answer(KeySource::Keyring, None) == Lookup::Ask(KeySource::ConfigFile),
        after_answer(KeySource::ConfigFile, None) == Lookup::Missing,
{
    law_key_is_what_is_not_blank(raw);
}

} // verus!
