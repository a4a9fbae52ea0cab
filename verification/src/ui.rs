//! What the user interface does. A `Chat` decides; whoever draws the interface
//! tells it what the user did or what arrived, and carries out its commands.

use vstd::prelude::*;

use crate::api::{copy_history, message, messages, Content, Message, UiEvent};
use crate::history::{
    from_user, law_latest_message_stays, law_pruned_is_bounded, law_pruned_is_the_end,
    law_pruned_starts_with_user, law_user_messages_within_limit_are_left, prune, pruned,
    MAX_HISTORY_LEN,
};
use crate::text::{
    blank, concat, decimal, decimal_value, law_decimal_reads_back, law_decimal_tells_numbers_apart,
    law_trim_empties_blank, same_text, to_decimal, trim, trimmed,
};

verus! {

/// The model that is used when none is chosen.
pub const DEFAULT_MODEL: &'static str = "gemini-2.5-flash";

/// The pages of the window.
#[derive(Debug, Clone, Copy, PartialEq, Eq, Structural)]
pub enum Page {
    /// Where the API key is entered.
    Setup,
    /// The conversation.
    Chat,
}

/// What is to be done in the window.
#[derive(Debug)]
pub enum UiCommand {
    /// Show this page.
    ShowPage(Page),
    /// Empty the line that messages are entered in.
    ClearInput,
    /// Let messages be entered, or not.
    EnableInput(bool),
    /// Let the send button be pressed, or not.
    EnableSend(bool),
    /// Let a model be chosen, or not.
    EnableModelChoice(bool),
    /// Add this text to the conversation on the page.
    Append(String),
    /// Take all text of the conversation off the page.
    ClearTranscript,
    /// Show this about tokens.
    ShowTokens(String),
    /// Show this about the key that was entered.
    ShowKeyError(String),
    /// Ask the model to go on with this conversation.
    Request { api_key: String, model: String, history: Vec<Content> },
}

/// A `UiCommand` as characters.
pub enum Command {
    ShowPage(Page),
    ClearInput,
    EnableInput(bool),
    EnableSend(bool),
    EnableModelChoice(bool),
    Append(Seq<char>),
    ClearTranscript,
    ShowTokens(Seq<char>),
    ShowKeyError(Seq<char>),
    Request { api_key: Seq<char>, model: Seq<char>, history: Seq<Message> },
}

impl View for UiCommand {
    type V = Command;

    open spec fn view(&self) -> Command {
        match self {
            UiCommand::ShowPage(page) => Command::ShowPage(*page),
            UiCommand::ClearInput => Command::ClearInput,
            UiCommand::EnableInput(on) => Command::EnableInput(*on),
            UiCommand::EnableSend(on) => Command::EnableSend(*on),
            UiCommand::EnableModelChoice(on) => Command::EnableModelChoice(*on),
            UiCommand::Append(text) => Command::Append(text@),
            UiCommand::ClearTranscript => Command::ClearTranscript,
            UiCommand::ShowTokens(text) => Command::ShowTokens(text@),
            UiCommand::ShowKeyError(text) => Command::ShowKeyError(text@),
            UiCommand::Request { api_key, model, history } => Command::Request {
                api_key: api_key@,
                model: model@,
                history: messages(history@),
            },
        }
    }
}

/// The commands of a list.
pub open spec fn commands(cs: Seq<UiCommand>) -> Seq<Command> {
    cs.map_values(|c: UiCommand| c@)
}

/// A `UiEvent` as characters.
pub enum Notice {
    Delta(Seq<char>),
    Done(Seq<char>, u32),
    Error(Seq<char>),
}

impl View for UiEvent {
    type V = Notice;

    open spec fn view(&self) -> Notice {
        match self {
            UiEvent::Delta(text) => Notice::Delta(text@),
            UiEvent::Done(text, tokens) => Notice::Done(text@, *tokens),
            UiEvent::Error(text) => Notice::Error(text@),
        }
    }
}

/// The name that a message is headed with.
pub open spec fn author(role: Seq<char>) -> Seq<char> {
    if role == "user"@ {
        "▶  You"@
    } else {
        "◆  Gemini"@
    }
}

/// A whole message as it stands on the page.
pub open spec fn message_block(role: Seq<char>, text: Seq<char>) -> Seq<char> {
    "\n"@ + author(role) + "\n"@ + text + "\n"@
}

/// What is shown about tokens.
pub open spec fn token_text(tokens: u32) -> Seq<char> {
    "Context: "@ + decimal(tokens as nat) + " tokens"@
}

/// The state of the interface: the key, the conversation, and whether a message
/// of the model is being written on the page.
pub struct Session {
    pub api_key: Seq<char>,
    pub history: Seq<Message>,
    pub open: bool,
}

impl Session {
    /// The commands that open the window.
    pub open spec fn opening(self) -> Seq<Command> {
        if self.api_key.len() == 0 {
            seq![
                Command::ShowPage(Page::Setup),
                Command::EnableInput(false),
                Command::EnableSend(false),
            ]
        } else {
            seq![Command::ShowPage(Page::Chat)]
        }
    }

    /// Whether there is anything to send, and a key to send it with.
    pub open spec fn can_send(self, entry: Seq<char>) -> bool {
        trimmed(entry).len() > 0 && self.api_key.len() > 0
    }

    /// Sending what was entered: it becomes the user's next message, the history
    /// is pruned, and the model is asked.
    pub open spec fn send(self, entry: Seq<char>, chosen: Option<Seq<char>>) -> (
        Session,
        Seq<Command>,
    ) {
        if !self.can_send(entry) {
            (self, seq![])
        } else {
            let text = trimmed(entry);
            let history = pruned(self.history.push(message("user"@, text)));
            let model = match chosen {
                Some(id) => id,
                None => DEFAULT_MODEL@,
            };
            (
                Session { history, ..self },
                seq![
                    Command::ClearInput,
                    Command::EnableSend(false),
                    Command::EnableModelChoice(false),
                    Command::Append(message_block("user"@, text)),
                    Command::Request { api_key: self.api_key, model, history },
                ],
            )
        }
    }

    /// Forgetting the conversation.
    pub open spec fn clear(self) -> (Session, Seq<Command>) {
        (
            Session { history: seq![], ..self },
            seq![Command::ClearTranscript, Command::ShowTokens(token_text(0))],
        )
    }

    /// Hearing of the reply.
    pub open spec fn receive(self, notice: Notice) -> (Session, Seq<Command>) {
        match notice {
            Notice::Delta(text) => (
                Session { open: true, ..self },
                if self.open {
                    seq![Command::Append(text)]
                } else {
                    seq![
                        Command::Append("\n"@ + author("model"@) + "\n"@),
                        Command::Append(text),
                    ]
                },
            ),
            Notice::Done(text, tokens) => (
                Session {
                    history: self.history.push(message("model"@, text)),
                    open: false,
                    ..self
                },
                seq![
                    Command::Append("\n"@),
                    Command::ShowTokens(token_text(tokens)),
                    Command::EnableSend(true),
                    Command::EnableModelChoice(true),
                ],
            ),
            Notice::Error(text) => (
                Session { open: false, ..self },
                seq![
                    Command::Append("\n⚠  Error: "@ + text + "\n"@),
                    Command::EnableSend(true),
                    Command::EnableModelChoice(true),
                ],
            ),
        }
    }

    /// Going to the conversation with a key that was saved.
    pub open spec fn key_saved(self, key: Seq<char>) -> (Session, Seq<Command>) {
        (
            Session { api_key: key, ..self },
            seq![
                Command::EnableInput(true),
                Command::EnableSend(true),
                Command::ShowPage(Page::Chat),
            ],
        )
    }
}

/// The interface of one window.
#[derive(Debug)]
pub struct Chat {
    api_key: String,
    history: Vec<Content>,
    model_message_open: bool,
}

impl View for Chat {
    type V = Session;

    closed spec fn view(&self) -> Session {
        Session {
            api_key: self.api_key@,
            history: messages(self.history@),
            open: self.model_message_open,
        }
    }
}

/// A whole message as it stands on the page.
pub fn show_message(role: &str, text: &str) -> (block: String)
    ensures
        block@ == message_block(role@, text@),
{
    let mut block = "\n".to_string();
    if same_text(role, "user") {
        block.append("▶  You");
    } else {
        block.append("◆  Gemini");
    }
    block.append("\n");
    block.append(text);
    block.append("\n");
    block
}

/// What is shown about tokens.
pub fn show_tokens(tokens: u32) -> (text: String)
    ensures
        text@ == token_text(tokens),
{
    let mut text = "Context: ".to_string();
    let count = to_decimal(tokens);
    text.append(count.as_str());
    text.append(" tokens");
    text
}

impl Chat {
    /// The interface with an empty conversation, and with the key if there is
    /// one.
    pub fn new(api_key: Option<String>) -> (c: Chat)
        ensures
            c@ == (Session {
                api_key: match api_key {
                    Some(key) => key@,
                    None => seq![],
                },
                history: seq![],
                open: false,
            }),
    {
        let key = match api_key {
            Some(key) => key,
            None => String::new(),
        };
        let c = Chat { api_key: key, history: Vec::new(), model_message_open: false };
        assert(c@.history =~= seq![]);
        c
    }

    /// The commands that open the window: on the setup page without a key, else
    /// on the conversation.
    pub fn opening(&self) -> (cs: Vec<UiCommand>)
        ensures
            commands(cs@) == self@.opening(),
    {
        let mut cs: Vec<UiCommand> = Vec::new();
        if self.api_key.as_str().is_empty() {
            cs.push(UiCommand::ShowPage(Page::Setup));
            cs.push(UiCommand::EnableInput(false));
            cs.push(UiCommand::EnableSend(false));
        } else {
            cs.push(UiCommand::ShowPage(Page::Chat));
        }
        assert(commands(cs@) =~= self@.opening());
        cs
    }

    /// The user sends what was entered, to the model that is chosen.
    pub fn send(&mut self, entry: &str, chosen: Option<&str>) -> (cs: Vec<UiCommand>)
        ensures
            (final(self)@, commands(cs@)) == old(self)@.send(
                entry@,
                match chosen {
                    Some(id) => Some(id@),
                    None => None,
                },
            ),
    {
        let mut cs: Vec<UiCommand> = Vec::new();
        let text = trim(entry);
        if text.as_str().is_empty() || self.api_key.as_str().is_empty() {
            assert(commands(cs@) =~= seq![]);
            return cs;
        }
        let model = match chosen {
            Some(id) => id.to_string(),
            None => DEFAULT_MODEL.to_string(),
        };
        let ghost before = messages(self.history@);
        self.history.push(Content::new("user", text.as_str()));
        assert(messages(self.history@) == before.push(message("user"@, text@)));
        prune(&mut self.history);
        cs.push(UiCommand::ClearInput);
        cs.push(UiCommand::EnableSend(false));
        cs.push(UiCommand::EnableModelChoice(false));
        cs.push(UiCommand::Append(show_message("user", text.as_str())));
        cs.push(
            UiCommand::Request {
                api_key: self.api_key.clone(),
                model,
                history: copy_history(&self.history),
            },
        );
        cs
    }

    /// The user asks to forget the conversation.
    pub fn clear(&mut self) -> (cs: Vec<UiCommand>)
        ensures
            (final(self)@, commands(cs@)) == old(self)@.clear(),
    {
        self.history.clear();
        assert(messages(self.history@) =~= seq![]);
        let mut cs: Vec<UiCommand> = Vec::new();
        cs.push(UiCommand::ClearTranscript);
        cs.push(UiCommand::ShowTokens(show_tokens(0)));
        cs
    }

    /// Something is heard of the reply.
    pub fn receive(&mut self, event: UiEvent) -> (cs: Vec<UiCommand>)
        ensures
            (final(self)@, commands(cs@)) == old(self)@.receive(event@),
    {
        let mut cs: Vec<UiCommand> = Vec::new();
        match event {
            UiEvent::Delta(text) => {
                if !self.model_message_open {
                    let mut header = "\n".to_string();
                    header.append("◆  Gemini");
                    header.append("\n");
                    proof {
                        reveal_strlit("model");
                        reveal_strlit("user");
                        assert("model"@.len() != "user"@.len());
                    }
                    cs.push(UiCommand::Append(header));
                    self.model_message_open = true;
                }
                cs.push(UiCommand::Append(text));
            },
            UiEvent::Done(text, tokens) => {
                cs.push(UiCommand::Append("\n".to_string()));
                let ghost before = messages(self.history@);
                self.history.push(Content::new("model", text.as_str()));
                assert(messages(self.history@) == before.push(message("model"@, text@)));
                cs.push(UiCommand::ShowTokens(show_tokens(tokens)));
                cs.push(UiCommand::EnableSend(true));
                cs.push(UiCommand::EnableModelChoice(true));
                self.model_message_open = false;
            },
            UiEvent::Error(text) => {
                let mut block = "\n⚠  Error: ".to_string();
                block.append(text.as_str());
                block.append("\n");
                cs.push(UiCommand::Append(block));
                cs.push(UiCommand::EnableSend(true));
                cs.push(UiCommand::EnableModelChoice(true));
                self.model_message_open = false;
            },
        }
        assert(commands(cs@) =~= old(self)@.receive(event@).1);
        cs
    }

    /// The key was saved.
    pub fn key_saved(&mut self, key: String) -> (cs: Vec<UiCommand>)
        ensures
            (final(self)@, commands(cs@)) == old(self)@.key_saved(key@),
    {
        self.api_key = key;
        let mut cs: Vec<UiCommand> = Vec::new();
        cs.push(UiCommand::EnableInput(true));
        cs.push(UiCommand::EnableSend(true));
        cs.push(UiCommand::ShowPage(Page::Chat));
        cs
    }
}

/// The user submits a key: it is to be saved, without white space around it,
/// unless there is nothing else.
pub fn submit_key(entry: &str) -> (r: Result<String, UiCommand>)
    ensures
        match r {
            Ok(key) => trimmed(entry@).len() > 0 && key@ == trimmed(entry@),
            Err(c) => trimmed(entry@).len() == 0 && c@ == Command::ShowKeyError(
                "Key cannot be empty."@,
            ),
        },
        r is Ok <==> !blank(entry@),
{
    proof {
        law_trim_empties_blank(entry@);
    }
    let key = trim(entry);
    if key.as_str().is_empty() {
        Err(UiCommand::ShowKeyError("Key cannot be empty.".to_string()))
    } else {
        Ok(key)
    }
}

/// The key could not be saved.
pub fn key_not_saved(detail: &str) -> (c: UiCommand)
    ensures
        c@ == Command::ShowKeyError("Could not save key: "@ + detail@),
{
    let mut text = "Could not save key: ".to_string();
    text.append(detail);
    UiCommand::ShowKeyError(text)
}

/// What a key of the keyboard stands for.
#[derive(Debug, Clone, Copy, PartialEq, Eq, Structural)]
pub enum Shortcut {
    /// Close the window.
    Close,
    /// Forget the conversation.
    Clear,
}

/// The shortcut that a key is. `keyval` is its key symbol, which for a Latin
/// letter is the letter's code.
pub fn shortcut(control: bool, keyval: u32) -> (s: Option<Shortcut>)
    ensures
        s == if control && keyval == 'q' as u32 {
            Some(Shortcut::Close)
        } else if control && keyval == 'k' as u32 {
            Some(Shortcut::Clear)
        } else {
            None
        },
{
    if control && keyval == 'q' as u32 {
        Some(Shortcut::Close)
    } else if control && keyval == 'k' as u32 {
        Some(Shortcut::Clear)
    } else {
        None
    }
}

/// Nothing is sent that is blank, and nothing without a key: nothing changes
/// then, and nothing is done.
pub proof fn law_nothing_is_sent_without_text_and_key(
    s: Session,
    entry: Seq<char>,
    chosen: Option<Seq<char>>,
)
    requires
        blank(entry) || s.api_key.len() == 0,
    ensures
        s.send(entry, chosen) == (s, Seq::<Command>::empty()),
{
    law_trim_empties_blank(entry);
}

/// Every request carries at most `MAX_HISTORY_LEN` messages, the last of them
/// the user's own, and it is what the history then holds.
pub proof fn law_requests_are_bounded(s: Session, entry: Seq<char>, chosen: Option<Seq<char>>)
    requires
        s.can_send(entry),
    ensures
        ({
            let (next, cs) = s.send(entry, chosen);
            &&& cs.last() matches Command::Request { api_key, model, history } && {
                &&& api_key == s.api_key
                &&& history == next.history
                &&& 0 < history.len() <= MAX_HISTORY_LEN
                &&& history.last() == message("user"@, trimmed(entry))
                &&& from_user(history.last())
            }
        }),
{
    let grown = s.history.push(message("user"@, trimmed(entry)));
    law_pruned_is_bounded(grown);
    law_latest_message_stays(grown);
}

/// Every request starts with a message of the user, as the API asks for. That
/// of a conversation too long to be sent whole does so always; a shorter one
/// must start with such a message itself.
pub proof fn law_requests_start_with_user(s: Session, entry: Seq<char>, chosen: Option<Seq<char>>)
    requires
        s.can_send(entry),
        0 < s.history.len() < MAX_HISTORY_LEN ==> from_user(s.history[0]),
    ensures
        s.send(entry, chosen).1.last() matches Command::Request { history, .. } && history.len() > 0
            && from_user(history[0]),
{
    let grown = s.history.push(message("user"@, trimmed(entry)));
    assert(from_user(grown[grown.len() - 1]));
    law_pruned_starts_with_user(grown);
}

/// A conversation that starts with a message of the user goes on to do so,
/// whatever is sent, heard or cleared, in whatever order requests overlap. Only
/// a reply to what was cleared away before it came must not be heard.
pub proof fn law_conversation_starts_with_user(
    s: Session,
    entry: Seq<char>,
    chosen: Option<Seq<char>>,
    notice: Notice,
)
    requires
        s.history.len() > 0 ==> from_user(s.history[0]),
    ensures
        ({
            let sent = s.send(entry, chosen).0.history;
            sent.len() > 0 ==> from_user(sent[0])
        }),
        !(notice is Done && s.history.len() == 0) ==> {
            let heard = s.receive(notice).0.history;
            heard.len() > 0 ==> from_user(heard[0])
        },
        s.clear().0.history.len() == 0,
{
    if s.can_send(entry) {
        law_requests_start_with_user(s, entry, chosen);
    }
}

/// An exchange is remembered: after a message was sent and its reply has come,
/// the history ends with the two.
pub proof fn law_exchange_is_remembered(
    s: Session,
    entry: Seq<char>,
    chosen: Option<Seq<char>>,
    reply: Seq<char>,
    tokens: u32,
)
    requires
        s.can_send(entry),
    ensures
        ({
            let history = s.send(entry, chosen).0.receive(Notice::Done(reply, tokens)).0.history;
            &&& history.len() >= 2
            &&& history[history.len() - 2] == message("user"@, trimmed(entry))
            &&& history.last() == message("model"@, reply)
        }),
{
    law_requests_are_bounded(s, entry, chosen);
}

/// Clearing forgets: the request after it carries the new message alone.
pub proof fn law_clear_forgets(s: Session, entry: Seq<char>, chosen: Option<Seq<char>>)
    requires
        s.can_send(entry),
    ensures
        s.clear().0.history.len() == 0,
        s.clear().0.send(entry, chosen).0.history == seq![message("user"@, trimmed(entry))],
{
    let one = s.clear().0.history.push(message("user"@, trimmed(entry)));
    assert(one == seq![message("user"@, trimmed(entry))]);
    assert(one.skip(0) == one);
}

/// However a request ends, sending and the choice of a model are possible again,
/// and the next reply starts a message of its own.
pub proof fn law_end_of_request_frees_the_interface(s: Session, notice: Notice)
    requires
        !(notice is Delta),
    ensures
        s.receive(notice).1.contains(Command::EnableSend(true)),
        s.receive(notice).1.contains(Command::EnableModelChoice(true)),
        !s.receive(notice).0.open,
{
    let cs = s.receive(notice).1;
    let n = cs.len();
    assert(cs[n - 2] == Command::EnableSend(true));
    assert(cs[n - 1] == Command::EnableModelChoice(true));
}

/// The text that commands add to the page.
pub open spec fn shown(cs: Seq<Command>) -> Seq<char>
    decreases cs.len(),
{
    if cs.len() == 0 {
        seq![]
    } else {
        match cs.last() {
            Command::Append(text) => shown(cs.drop_last()) + text,
            _ => shown(cs.drop_last()),
        }
    }
}

/// The state after new text came in pieces, and the commands to show it.
pub open spec fn receive_deltas(s: Session, deltas: Seq<Seq<char>>) -> (Session, Seq<Command>)
    decreases deltas.len(),
{
    if deltas.len() == 0 {
        (s, seq![])
    } else {
        let (t, cs) = receive_deltas(s, deltas.drop_last());
        let (u, ds) = t.receive(Notice::Delta(deltas.last()));
        (u, cs + ds)
    }
}

/// The text of two lists of commands.
proof fn lemma_shown_add(a: Seq<Command>, b: Seq<Command>)
    ensures
        shown(a + b) == shown(a) + shown(b),
    decreases b.len(),
{
    if b.len() == 0 {
        assert(a + b == a);
        assert(shown(a) + shown(b) == shown(a));
    } else {
        lemma_shown_add(a, b.drop_last());
        assert((a + b).drop_last() == a + b.drop_last());
        match b.last() {
            Command::Append(text) => {
                assert(shown(a) + shown(b.drop_last()) + text == shown(a) + (shown(b.drop_last())
                    + text));
            },
            _ => {},
        }
    }
}

/// The pieces of a reply are shown under one heading.
proof fn lemma_deltas_are_shown(s: Session, deltas: Seq<Seq<char>>)
    requires
        !s.open,
        deltas.len() > 0,
    ensures
        receive_deltas(s, deltas).0 == (Session { open: true, ..s }),
        shown(receive_deltas(s, deltas).1) == "\n"@ + author("model"@) + "\n"@ + concat(deltas),
    decreases deltas.len(),
{
    reveal_with_fuel(shown, 3);
    let before = deltas.drop_last();
    let (t, cs) = receive_deltas(s, before);
    let (u, ds) = t.receive(Notice::Delta(deltas.last()));
    let header = "\n"@ + author("model"@) + "\n"@;
    lemma_shown_add(cs, ds);
    if before.len() > 0 {
        lemma_deltas_are_shown(s, before);
        assert(ds.drop_last() == Seq::<Command>::empty());
        assert(shown(ds) == deltas.last());
        assert(header + concat(before) + deltas.last() == header + (concat(before)
            + deltas.last()));
    } else {
        assert(ds.drop_last().drop_last() == Seq::<Command>::empty());
        assert(ds.drop_last()[0] == ds[0]);
        assert(shown(ds.drop_last()) == header);
        assert(concat(before) == Seq::<char>::empty());
        assert(concat(deltas) == deltas.last());
        assert(shown(ds) == header + deltas.last());
        assert(shown(cs) + shown(ds) == shown(ds));
    }
}

/// A reply is shown once and whole: when it comes in pieces that are its text,
/// the page gains exactly what a message of the model looks like.
pub proof fn law_reply_is_shown_as_one_message(
    s: Session,
    deltas: Seq<Seq<char>>,
    tokens: u32,
)
    requires
        !s.open,
        deltas.len() > 0,
    ensures
        ({
            let (t, cs) = receive_deltas(s, deltas);
            let (u, ds) = t.receive(Notice::Done(concat(deltas), tokens));
            shown(cs + ds) == message_block("model"@, concat(deltas))
        }),
{
    reveal_with_fuel(shown, 5);
    let (t, cs) = receive_deltas(s, deltas);
    let (u, ds) = t.receive(Notice::Done(concat(deltas), tokens));
    lemma_deltas_are_shown(s, deltas);
    lemma_shown_add(cs, ds);
    let first = ds.drop_last().drop_last().drop_last();
    assert(first == seq![Command::Append("\n"@)]);
    assert(first.drop_last() == Seq::<Command>::empty());
    assert(shown(first) == "\n"@);
    assert(ds.drop_last().drop_last().last() == ds[1]);
    assert(ds.drop_last().last() == ds[2]);
    assert(shown(ds) == "\n"@);
}

/// Anything but white space is sent, if there is a key, and nothing else matters.
pub proof fn law_text_and_key_suffice(s: Session, entry: Seq<char>)
    ensures
        s.can_send(entry) <==> !blank(entry) && s.api_key.len() > 0,
{
    law_trim_empties_blank(entry);
}

/// Sending keeps the context. The conversation, with the new message behind it,
/// is sent whole as long as it is within the limit. Of a longer one the end is
/// sent, within the limit and without the loss of a user's message there. What is
/// sent is what the history then holds, and nothing else of the session changes.
pub proof fn law_sending_keeps_the_context(
    s: Session,
    entry: Seq<char>,
    chosen: Option<Seq<char>>,
    i: int,
)
    requires
        !blank(entry),
        s.api_key.len() > 0,
    ensures
        ({
            let all = s.history.push(message("user"@, trimmed(entry)));
            let (next, cs) = s.send(entry, chosen);
            let sent = next.history;
            &&& cs.last() matches Command::Request { history, .. } && history == sent
            &&& all.len() <= MAX_HISTORY_LEN ==> sent == all
            &&& sent.is_suffix_of(all)
            &&& 0 < sent.len() <= MAX_HISTORY_LEN
            &&& all.len() - MAX_HISTORY_LEN <= i < all.len() && 0 <= i && all[i].role == "user"@
                ==> all.len() - sent.len() <= i
            &&& next.api_key == s.api_key
            &&& next.open == s.open
        }),
{
    let all = s.history.push(message("user"@, trimmed(entry)));
    law_text_and_key_suffice(s, entry);
    law_pruned_is_the_end(all);
    law_pruned_is_bounded(all);
    if all.len() - MAX_HISTORY_LEN <= i < all.len() && 0 <= i && all[i].role == "user"@ {
        law_user_messages_within_limit_are_left(all, i);
    }
}

/// A request goes to the model that is chosen, whichever that is, and to the
/// default one only where none is; it carries the key of the session. One request
/// is made, and it is the last command.
pub proof fn law_request_goes_to_chosen_model(s: Session, entry: Seq<char>, id: Seq<char>)
    requires
        !blank(entry),
        s.api_key.len() > 0,
    ensures
        ({
            let cs = s.send(entry, Some(id)).1;
            &&& cs.last() matches Command::Request { model, api_key, .. } && model == id && api_key
                == s.api_key
            &&& forall|i: int| 0 <= i < cs.len() - 1 ==> !(#[trigger] cs[i] is Request)
        }),
        s.send(entry, None) == s.send(entry, Some("gemini-2.5-flash"@)),
{
    law_text_and_key_suffice(s, entry);
}

/// The choice of a model changes the model of the request and nothing else.
pub proof fn law_choice_changes_only_the_model(
    s: Session,
    entry: Seq<char>,
    one: Seq<char>,
    other: Seq<char>,
)
    ensures
        s.send(entry, Some(one)).0 == s.send(entry, Some(other)).0,
        s.send(entry, Some(one)).1.len() == s.send(entry, Some(other)).1.len(),
        shown(s.send(entry, Some(one)).1) == shown(s.send(entry, Some(other)).1),
{
    let (a, b) = (s.send(entry, Some(one)).1, s.send(entry, Some(other)).1);
    if s.can_send(entry) {
        assert(a.drop_last() =~= b.drop_last());
    }
}

/// A message that is sent is shown as the user's, whole but for the white space
/// around it.
pub proof fn law_sent_message_is_shown(s: Session, entry: Seq<char>, chosen: Option<Seq<char>>)
    requires
        !blank(entry),
        s.api_key.len() > 0,
    ensures
        shown(s.send(entry, chosen).1) == "\n▶  You\n"@ + trimmed(entry) + "\n"@,
{
    law_text_and_key_suffice(s, entry);
    reveal_strlit("\n");
    reveal_strlit("▶  You");
    reveal_strlit("\n▶  You\n");
    let cs = s.send(entry, chosen).1;
    let block = message_block("user"@, trimmed(entry));
    assert(cs =~= seq![cs[0], cs[1], cs[2]] + seq![cs[3]] + seq![cs[4]]);
    lemma_shown_add(seq![cs[0], cs[1], cs[2]] + seq![cs[3]], seq![cs[4]]);
    lemma_shown_add(seq![cs[0], cs[1], cs[2]], seq![cs[3]]);
    assert(seq![cs[0], cs[1], cs[2]] =~= seq![cs[0]] + seq![cs[1]] + seq![cs[2]]);
    lemma_shown_add(seq![cs[0]] + seq![cs[1]], seq![cs[2]]);
    lemma_shown_add(seq![cs[0]], seq![cs[1]]);
    law_shown_is_what_is_appended(cs[0]);
    law_shown_is_what_is_appended(cs[1]);
    law_shown_is_what_is_appended(cs[2]);
    law_shown_is_what_is_appended(cs[3]);
    law_shown_is_what_is_appended(cs[4]);
    assert(shown(cs) =~= block);
    assert("\n"@ + "▶  You"@ + "\n"@ =~= "\n▶  You\n"@);
}

/// What two lists of commands show is what each shows, one behind the other.
pub proof fn law_shown_one_behind_the_other(a: Seq<Command>, b: Seq<Command>)
    ensures
        shown(a + b) == shown(a) + shown(b),
{
    lemma_shown_add(a, b);
}

/// A command shows the text that it appends, and any other one shows none.
pub proof fn law_shown_is_what_is_appended(c: Command)
    ensures
        shown(seq![c]) == match c {
            Command::Append(text) => text,
            _ => Seq::<char>::empty(),
        },
{
    let one = seq![c];
    assert(one.drop_last() =~= seq![]);
    assert(shown(one.drop_last()) =~= seq![]);
    assert(shown(one) =~= match c {
        Command::Append(text) => text,
        _ => Seq::<char>::empty(),
    });
}

/// While a request runs the line is empty, and neither sending nor the choice of
/// a model is offered; nothing is taken off the page, and no other page is shown.
pub proof fn law_sending_waits_for_the_reply(
    s: Session,
    entry: Seq<char>,
    chosen: Option<Seq<char>>,
    i: int,
)
    requires
        !blank(entry),
        s.api_key.len() > 0,
        0 <= i < s.send(entry, chosen).1.len(),
    ensures
        ({
            let cs = s.send(entry, chosen).1;
            &&& cs.contains(Command::ClearInput)
            &&& cs.contains(Command::EnableSend(false))
            &&& cs.contains(Command::EnableModelChoice(false))
            &&& cs[i] matches Command::EnableSend(on) ==> !on
            &&& cs[i] matches Command::EnableModelChoice(on) ==> !on
            &&& !(cs[i] is ShowPage || cs[i] is EnableInput || cs[i] is ClearTranscript
                || cs[i] is ShowTokens || cs[i] is ShowKeyError)
        }),
{
    law_text_and_key_suffice(s, entry);
    let cs = s.send(entry, chosen).1;
    assert(cs[0] == Command::ClearInput);
    assert(cs[1] == Command::EnableSend(false));
    assert(cs[2] == Command::EnableModelChoice(false));
}

/// New text of a reply is shown whole as it comes, under the model's name if it
/// is the first of its message, and nothing else happens. The conversation does
/// not change yet.
pub proof fn law_new_text_is_shown(s: Session, text: Seq<char>, i: int)
    requires
        0 <= i < s.receive(Notice::Delta(text)).1.len(),
    ensures
        ({
            let (next, cs) = s.receive(Notice::Delta(text));
            &&& s.open ==> shown(cs) == text
            &&& !s.open ==> shown(cs) == "\n◆  Gemini\n"@ + text
            &&& cs[i] is Append
            &&& next == (Session { open: true, ..s })
        }),
{
    reveal_strlit("\n");
    reveal_strlit("◆  Gemini");
    reveal_strlit("\n◆  Gemini\n");
    reveal_strlit("user");
    reveal_strlit("model");
    assert("user"@.len() != "model"@.len());
    let cs = s.receive(Notice::Delta(text)).1;
    let last = Command::Append(text);
    law_shown_is_what_is_appended(last);
    if !s.open {
        assert(cs =~= seq![cs[0]] + seq![last]);
        law_shown_is_what_is_appended(cs[0]);
        lemma_shown_add(seq![cs[0]], seq![last]);
        assert("\n"@ + "◆  Gemini"@ + "\n"@ =~= "\n◆  Gemini\n"@);
    }
}

/// A reply that is done joins the conversation whole, as the model's, behind all
/// that was there, and nothing else of the session changes but that its message
/// is closed.
pub proof fn law_reply_joins_the_conversation(s: Session, text: Seq<char>, tokens: u32, i: int)
    ensures
        ({
            let next = s.receive(Notice::Done(text, tokens)).0;
            &&& next.history.len() == s.history.len() + 1
            &&& 0 <= i < s.history.len() ==> next.history[i] == s.history[i]
            &&& next.history.last() == message("model"@, text)
            &&& next.api_key == s.api_key
            &&& !next.open
        }),
{
}

/// When a reply is done the token count is shown, once, as the API reported it:
/// in digits whose value it is, so that different counts look different. A line
/// feed ends the message, and nothing is taken off the page.
pub proof fn law_token_count_is_shown(s: Session, text: Seq<char>, tokens: u32, other: u32)
    ensures
        ({
            let cs = s.receive(Notice::Done(text, tokens)).1;
            let count = "Context: "@ + decimal(tokens as nat) + " tokens"@;
            &&& exists|k: int|
                0 <= k < cs.len() && #[trigger] cs[k] == Command::ShowTokens(count) && forall|i: int|
                    0 <= i < cs.len() && #[trigger] cs[i] is ShowTokens ==> i == k
            &&& shown(cs) == "\n"@
            &&& forall|i: int|
                0 <= i < cs.len() ==> {
                    ||| #[trigger] cs[i] is Append
                    ||| cs[i] is ShowTokens
                    ||| cs[i] == Command::EnableSend(true)
                    ||| cs[i] == Command::EnableModelChoice(true)
                }
        }),
        decimal_value(decimal(tokens as nat)) == tokens,
        tokens != other ==> token_text(tokens) != token_text(other),
{
    let cs = s.receive(Notice::Done(text, tokens)).1;
    let count = "Context: "@ + decimal(tokens as nat) + " tokens"@;
    law_decimal_reads_back(tokens as nat);
    assert(cs[1] == Command::ShowTokens(count));
    if tokens != other {
        law_token_texts_differ(tokens, other);
    }
    law_shown_is_what_is_appended(cs[0]);
    law_shown_is_what_is_appended(cs[1]);
    law_shown_is_what_is_appended(cs[2]);
    law_shown_is_what_is_appended(cs[3]);
    assert(cs =~= seq![cs[0]] + seq![cs[1]] + seq![cs[2]] + seq![cs[3]]);
    lemma_shown_add(seq![cs[0]] + seq![cs[1]] + seq![cs[2]], seq![cs[3]]);
    lemma_shown_add(seq![cs[0]] + seq![cs[1]], seq![cs[2]]);
    lemma_shown_add(seq![cs[0]], seq![cs[1]]);
    assert(shown(cs) =~= "\n"@);
}

/// Different token counts are shown as different texts.
pub proof fn law_token_texts_differ(m: u32, n: u32)
    requires
        m != n,
    ensures
        token_text(m) != token_text(n),
{
    law_decimal_tells_numbers_apart(m as nat, n as nat);
    let (a, b) = (token_text(m), token_text(n));
    let k = "Context: "@.len() as int;
    let l = " tokens"@.len() as int;
    assert(a.subrange(k, a.len() - l) =~= decimal(m as nat));
    assert(b.subrange(k, b.len() - l) =~= decimal(n as nat));
}

/// An error is shown whole, and as one; the conversation stays as it was, and
/// nothing is taken off the page.
pub proof fn law_error_is_shown(s: Session, text: Seq<char>)
    ensures
        ({
            let (next, cs) = s.receive(Notice::Error(text));
            &&& shown(cs) == "\n⚠  Error: "@ + text + "\n"@
            &&& forall|i: int|
                0 <= i < cs.len() ==> {
                    ||| #[trigger] cs[i] is Append
                    ||| cs[i] == Command::EnableSend(true)
                    ||| cs[i] == Command::EnableModelChoice(true)
                }
            &&& next == (Session { open: false, ..s })
        }),
{
    let cs = s.receive(Notice::Error(text)).1;
    law_shown_is_what_is_appended(cs[0]);
    law_shown_is_what_is_appended(cs[1]);
    law_shown_is_what_is_appended(cs[2]);
    assert(cs =~= seq![cs[0]] + seq![cs[1]] + seq![cs[2]]);
    lemma_shown_add(seq![cs[0]] + seq![cs[1]], seq![cs[2]]);
    lemma_shown_add(seq![cs[0]], seq![cs[1]]);
    assert(shown(cs) =~= "\n⚠  Error: "@ + text + "\n"@);
}

/// Clearing takes the conversation off the page and the count back to nothing;
/// the key stays, and so does a message that is being written.
pub proof fn law_clear_empties_the_page(s: Session, i: int)
    requires
        0 <= i < s.clear().1.len(),
    ensures
        ({
            let (next, cs) = s.clear();
            &&& cs.contains(Command::ClearTranscript)
            &&& cs.contains(Command::ShowTokens("Context: "@ + decimal(0) + " tokens"@))
            &&& cs[i] is ClearTranscript || cs[i] is ShowTokens
            &&& next.history.len() == 0
            &&& next.api_key == s.api_key
            &&& next.open == s.open
        }),
{
    let cs = s.clear().1;
    assert(cs[0] == Command::ClearTranscript);
    assert(cs[1] == Command::ShowTokens(token_text(0)));
}

/// A key that was saved is the one that requests carry from then on, and it opens
/// the conversation, where messages can be entered and sent.
pub proof fn law_saved_key_opens_the_conversation(s: Session, key: Seq<char>, i: int)
    requires
        0 <= i < s.key_saved(key).1.len(),
    ensures
        ({
            let (next, cs) = s.key_saved(key);
            &&& next.api_key == key
            &&& next.history == s.history
            &&& next.open == s.open
            &&& cs.contains(Command::EnableInput(true))
            &&& cs.contains(Command::EnableSend(true))
            &&& cs.contains(Command::ShowPage(Page::Chat))
            &&& {
                ||| cs[i] == Command::EnableInput(true)
                ||| cs[i] == Command::EnableSend(true)
                ||| cs[i] == Command::ShowPage(Page::Chat)
            }
        }),
{
    let cs = s.key_saved(key).1;
    assert(cs[0] == Command::EnableInput(true));
    assert(cs[1] == Command::EnableSend(true));
    assert(cs[2] == Command::ShowPage(Page::Chat));
}

/// The window opens where the key decides: on the conversation if there is one,
/// else on the page where it is entered, and then nothing can be sent.
pub proof fn law_key_decides_the_first_page(s: Session)
    ensures
        s.opening().contains(Command::ShowPage(Page::Chat)) <==> s.api_key.len() > 0,
        s.opening().contains(Command::ShowPage(Page::Setup)) <==> s.api_key.len() == 0,
        s.opening().contains(Command::EnableInput(false)) <==> s.api_key.len() == 0,
        s.opening().contains(Command::EnableSend(false)) <==> s.api_key.len() == 0,
{
    let cs = s.opening();
    if s.api_key.len() == 0 {
        assert(cs[0] == Command::ShowPage(Page::Setup));
        assert(cs[1] == Command::EnableInput(false));
        assert(cs[2] == Command::EnableSend(false));
    } else {
        assert(cs[0] == Command::ShowPage(Page::Chat));
    }
}

/// A message stands on the page whole, under its author's name, which is the
/// user's exactly if the role is.
pub proof fn law_message_stands_under_its_author(role: Seq<char>, text: Seq<char>)
    ensures
        message_block("user"@, text) == "\n▶  You\n"@ + text + "\n"@,
        role != "user"@ ==> message_block(role, text) == "\n◆  Gemini\n"@ + text + "\n"@,
{
    reveal_strlit("\n");
    reveal_strlit("▶  You");
    reveal_strlit("\n▶  You\n");
    reveal_strlit("◆  Gemini");
    reveal_strlit("\n◆  Gemini\n");
    assert("\n"@ + "▶  You"@ + "\n"@ =~= "\n▶  You\n"@);
    assert("\n"@ + "◆  Gemini"@ + "\n"@ =~= "\n◆  Gemini\n"@);
}

/// What is heard of a reply is seen whole, and so are commands with their texts.
pub proof fn law_notices_and_commands_are_seen_whole(
    text: String,
    tokens: u32,
    api_key: String,
    model: String,
    history: Vec<Content>,
)
    ensures
        UiEvent::Delta(text)@ == Notice::Delta(text@),
        UiEvent::Done(text, tokens)@ == Notice::Done(text@, tokens),
        UiEvent::Error(text)@ == Notice::Error(text@),
        UiCommand::Append(text)@ == Command::Append(text@),
        UiCommand::ShowTokens(text)@ == Command::ShowTokens(text@),
        UiCommand::ShowKeyError(text)@ == Command::ShowKeyError(text@),
        (UiCommand::Request { api_key, model, history })@ == (Command::Request {
            api_key: api_key@,
            model: model@,
            history: messages(history@),
        }),
{
}

/// Every command of a list is seen, in its place.
pub proof fn law_commands_are_seen_one_by_one(cs: Seq<UiCommand>, i: int)
    requires
        0 <= i < cs.len(),
    ensures
        commands(cs).len() == cs.len(),
        commands(cs)[i] == cs[i]@,
{
}

} // verus!
