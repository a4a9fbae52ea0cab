//! The course of one streamed request. A `Stream` decides; whoever runs it does
//! what it asks for and tells it how that went.

use vstd::prelude::*;
use vstd::utf8::encode_utf8;

use crate::api::{extract_text_and_tokens, response_text, response_tokens, StreamResponse};
use crate::error::{Failure, StreamError};
use crate::refusal::{
    is_success, message_of, parsed_strings, refusal, refused, status_line, successful,
};
use crate::reply::{
    law_growing_fragments_come_to_the_last, law_last_token_count_stands,
    law_new_fragments_are_the_pieces, law_text_only_grows, law_token_count_stays, Fragment, Reply,
    Transcript,
};
use crate::sse::{
    append_chunk, events, extract_events, fits_frame, framed, framed_all, has_crlf,
    law_crlf_reads_as_line_feed, law_events_come_as_received, law_events_do_not_depend_on_chunks,
    law_frames_give_back_payloads, law_line_feeds_stay, lemma_next_break, lemma_unified_add,
    lemma_unified_last, lemma_used_up_text_ends_with_line_feed, next_break,
    unfinished, unified, with_crlf, Received,
};
use crate::text::{
    blank, concat, contents, decimal, is_blank, law_concat_flattens, same_text, white_space,
};
use crate::utf8::{decoded, lemma_decode_encoded, lemma_decode_in_two, undecoded};

verus! {

/// What a stream waits for.
#[derive(Clone, Copy, Debug)]
pub enum Awaiting {
    /// The response to the request.
    Response,
    /// The body of an unsuccessful response with this status.
    ErrorBody { status: u16 },
    /// The next chunk of a successful response.
    Chunk,
    /// The payload that it asked to be parsed.
    Payload { trailing: bool },
    /// The text that it asked to be delivered.
    Delivery { trailing: bool },
    /// Nothing: it has ended.
    Nothing,
}

/// What happened.
#[derive(Debug)]
pub enum StreamInput {
    /// The request could not be sent.
    RequestFailed,
    /// A response came, with this status.
    Responded(u16),
    /// The body of an unsuccessful response, unless reading it failed.
    ErrorBody(Option<Vec<u8>>),
    /// A chunk of a successful response.
    Chunk(Vec<u8>),
    /// Reading the next chunk failed.
    ChunkFailed,
    /// There are no more chunks.
    EndOfStream,
    /// The payload, parsed.
    Parsed(StreamResponse),
    /// The payload does not parse.
    ParseFailed,
    /// The text was delivered.
    Delivered,
    /// The text could not be delivered.
    DeliveryFailed,
}

/// What is to be done next.
#[derive(Debug)]
pub enum StreamAction {
    /// Read the body of the unsuccessful response.
    ReadErrorBody,
    /// Read the next chunk.
    ReadChunk,
    /// Parse this payload.
    Parse(String),
    /// Deliver this new text.
    Deliver(String),
    /// Nothing more: this is the reply and the token count.
    Complete(String, u32),
    /// Nothing more: the request failed.
    Fail(StreamError),
}

/// A `StreamInput` as bytes and characters.
pub enum Arrival {
    RequestFailed,
    Responded(u16),
    ErrorBody(Option<Seq<u8>>),
    Chunk(Seq<u8>),
    ChunkFailed,
    EndOfStream,
    Parsed(Fragment),
    ParseFailed,
    Delivered,
    DeliveryFailed,
}

/// A `StreamAction` as characters.
pub enum Action {
    ReadErrorBody,
    ReadChunk,
    Parse(Seq<char>),
    Deliver(Seq<char>),
    Complete(Seq<char>, u32),
    Fail(Failure),
}

impl View for StreamInput {
    type V = Arrival;

    open spec fn view(&self) -> Arrival {
        match self {
            StreamInput::RequestFailed => Arrival::RequestFailed,
            StreamInput::Responded(status) => Arrival::Responded(*status),
            StreamInput::ErrorBody(Some(body)) => Arrival::ErrorBody(Some(body@)),
            StreamInput::ErrorBody(None) => Arrival::ErrorBody(None),
            StreamInput::Chunk(bytes) => Arrival::Chunk(bytes@),
            StreamInput::ChunkFailed => Arrival::ChunkFailed,
            StreamInput::EndOfStream => Arrival::EndOfStream,
            StreamInput::Parsed(resp) => Arrival::Parsed(
                (response_text(*resp), response_tokens(*resp)),
            ),
            StreamInput::ParseFailed => Arrival::ParseFailed,
            StreamInput::Delivered => Arrival::Delivered,
            StreamInput::DeliveryFailed => Arrival::DeliveryFailed,
        }
    }
}

impl View for StreamAction {
    type V = Action;

    open spec fn view(&self) -> Action {
        match self {
            StreamAction::ReadErrorBody => Action::ReadErrorBody,
            StreamAction::ReadChunk => Action::ReadChunk,
            StreamAction::Parse(payload) => Action::Parse(payload@),
            StreamAction::Deliver(text) => Action::Deliver(text@),
            StreamAction::Complete(text, tokens) => Action::Complete(text@, *tokens),
            StreamAction::Fail(e) => Action::Fail(e@),
        }
    }
}

/// Those of `es` that are payloads: all but the mark of the end.
pub open spec fn payloads(es: Seq<Seq<char>>) -> Seq<Seq<char>>
    decreases es.len(),
{
    if es.len() == 0 {
        seq![]
    } else if es.last() == "[DONE]"@ {
        payloads(es.drop_last())
    } else {
        payloads(es.drop_last()).push(es.last())
    }
}

/// The state of a stream: what it waits for, what it received and did not use
/// yet, the payloads that are still to be parsed, and the reply so far.
pub struct Progress {
    pub awaiting: Awaiting,
    pub received: Received,
    pub pending: Seq<Seq<char>>,
    pub reply: Reply,
}

impl Progress {
    /// The request is on its way.
    pub open spec fn start() -> Progress {
        Progress {
            awaiting: Awaiting::Response,
            received: Received::empty(),
            pending: seq![],
            reply: Reply::empty(),
        }
    }

    /// Whether `arrival` is of the kind that the stream waits for.
    pub open spec fn expects(self, arrival: Arrival) -> bool {
        match (self.awaiting, arrival) {
            (Awaiting::Response, Arrival::RequestFailed) => true,
            (Awaiting::Response, Arrival::Responded(status)) => 100 <= status <= 999,
            (Awaiting::ErrorBody { .. }, Arrival::ErrorBody(_)) => true,
            (Awaiting::Chunk, Arrival::Chunk(_)) => true,
            (Awaiting::Chunk, Arrival::ChunkFailed) => true,
            (Awaiting::Chunk, Arrival::EndOfStream) => true,
            (Awaiting::Payload { .. }, Arrival::Parsed(_)) => true,
            (Awaiting::Payload { .. }, Arrival::ParseFailed) => true,
            (Awaiting::Delivery { .. }, Arrival::Delivered) => true,
            (Awaiting::Delivery { .. }, Arrival::DeliveryFailed) => true,
            _ => false,
        }
    }

    /// Whether the stream can be in this state.
    pub open spec fn valid(self) -> bool {
        self.awaiting matches Awaiting::ErrorBody { status } ==> 100 <= status <= 999
    }

    /// Ends in a failure.
    pub open spec fn fail(self, f: Failure) -> (Progress, Action) {
        (Progress { awaiting: Awaiting::Nothing, ..self }, Action::Fail(f))
    }

    /// Ends with the reply, if the model said anything.
    pub open spec fn finish(self) -> (Progress, Action) {
        if self.reply.text.len() == 0 {
            self.fail(Failure::NoModelText)
        } else {
            (
                Progress { awaiting: Awaiting::Nothing, ..self },
                Action::Complete(self.reply.text, self.reply.tokens),
            )
        }
    }

    /// Goes on to the next payload; behind the last one, to the next chunk or,
    /// if the stream has ended, to the end.
    pub open spec fn advance(self, trailing: bool) -> (Progress, Action) {
        if self.pending.len() > 0 {
            (
                Progress {
                    awaiting: Awaiting::Payload { trailing },
                    pending: self.pending.drop_first(),
                    ..self
                },
                Action::Parse(self.pending[0]),
            )
        } else if trailing {
            self.finish()
        } else {
            (Progress { awaiting: Awaiting::Chunk, ..self }, Action::ReadChunk)
        }
    }

    /// Takes the events out of what was received and goes on to their payloads.
    pub open spec fn extract(self, trailing: bool) -> (Progress, Action) {
        Progress {
            pending: payloads(events(self.received.buffer)),
            received: self.received.drain(),
            ..self
        }.advance(trailing)
    }

    /// What follows when `arrival` comes.
    pub open spec fn step(self, arrival: Arrival) -> (Progress, Action)
        recommends
            self.expects(arrival),
    {
        match (self.awaiting, arrival) {
            (Awaiting::Response, Arrival::RequestFailed) => self.fail(Failure::RequestFailed),
            (Awaiting::Response, Arrival::Responded(status)) => if successful(status) {
                (Progress { awaiting: Awaiting::Chunk, ..self }, Action::ReadChunk)
            } else {
                (
                    Progress { awaiting: Awaiting::ErrorBody { status }, ..self },
                    Action::ReadErrorBody,
                )
            },
            (Awaiting::ErrorBody { status }, Arrival::ErrorBody(Some(body))) => self.fail(
                refusal(status_line(status), message_of(parsed_strings(body))),
            ),
            (Awaiting::ErrorBody { .. }, Arrival::ErrorBody(None)) => self.fail(
                Failure::BadErrorBody(None),
            ),
            (Awaiting::Chunk, Arrival::Chunk(bytes)) => Progress {
                received: self.received.append(bytes),
                ..self
            }.extract(false),
            (Awaiting::Chunk, Arrival::ChunkFailed) => self.fail(Failure::ChunkFailed),
            (Awaiting::Chunk, Arrival::EndOfStream) => if blank(self.received.buffer) {
                self.finish()
            } else {
                Progress {
                    received: Received {
                        buffer: self.received.buffer + seq!['\n', '\n'],
                        ..self.received
                    },
                    ..self
                }.extract(true)
            },
            (Awaiting::Payload { trailing }, Arrival::Parsed(fragment)) => {
                let delta = self.reply.delta(fragment.0);
                let next = Progress { reply: self.reply.absorb(fragment), ..self };
                if delta.len() == 0 {
                    next.advance(trailing)
                } else {
                    (
                        Progress { awaiting: Awaiting::Delivery { trailing }, ..next },
                        Action::Deliver(delta),
                    )
                }
            },
            (Awaiting::Payload { trailing }, Arrival::ParseFailed) => self.fail(
                Failure::InvalidPayload { trailing },
            ),
            (Awaiting::Delivery { trailing }, Arrival::Delivered) => self.advance(trailing),
            (Awaiting::Delivery { trailing }, Arrival::DeliveryFailed) => self.fail(
                Failure::DeliveryFailed { trailing },
            ),
            _ => arbitrary(),
        }
    }
}

/// Whether `action` is a failure whose message names a status code.
pub open spec fn names_status(action: Action, status: u16) -> bool {
    action matches Action::Fail(f) && ("API "@ + decimal(status as nat) + seq![' ']).is_prefix_of(
        f.message(),
    )
}

/// One streamed request.
#[derive(Debug)]
pub struct Stream {
    awaiting: Awaiting,
    buffer: String,
    residual: Vec<u8>,
    pending: Vec<String>,
    transcript: Transcript,
}

impl View for Stream {
    type V = Progress;

    closed spec fn view(&self) -> Progress {
        Progress {
            awaiting: self.awaiting,
            received: Received { buffer: self.buffer@, residual: self.residual@ },
            pending: contents(self.pending@),
            reply: self.transcript@,
        }
    }
}

/// Those of `found` that are payloads.
fn payloads_of(found: Vec<String>) -> (kept: Vec<String>)
    ensures
        contents(kept@) == payloads(contents(found@)),
{
    let ghost all = contents(found@);
    let mut kept: Vec<String> = Vec::new();
    let mut i: usize = 0;
    assert(contents(kept@) =~= seq![]);
    while i < found.len()
        invariant
            i <= found@.len(),
            all == contents(found@),
            contents(kept@) == payloads(all.take(i as int)),
        decreases found@.len() - i,
    {
        proof {
            assert(all.take(i + 1).drop_last() == all.take(i as int));
            assert(all.take(i + 1).last() == found@[i as int]@);
        }
        if !same_text(found[i].as_str(), "[DONE]") {
            let ghost before = contents(kept@);
            kept.push(found[i].clone());
            assert(contents(kept@) == before.push(found@[i as int]@));
        }
        i = i + 1;
    }
    assert(all.take(i as int) == all);
    kept
}

impl Stream {
    /// The stream of a request that is on its way.
    pub fn new() -> (s: Stream)
        ensures
            s@ == Progress::start(),
            s@.valid(),
    {
        let s = Stream {
            awaiting: Awaiting::Response,
            buffer: String::new(),
            residual: Vec::new(),
            pending: Vec::new(),
            transcript: Transcript::new(),
        };
        assert(s@.pending =~= seq![]);
        assert(s@.received.residual =~= seq![]);
        s
    }

    /// Whether `input` is of the kind that the stream waits for.
    pub fn expects(&self, input: &StreamInput) -> (b: bool)
        ensures
            b == self@.expects(input@),
    {
        match (self.awaiting, input) {
            (Awaiting::Response, StreamInput::RequestFailed) => true,
            (Awaiting::Response, StreamInput::Responded(status)) => 100 <= *status && *status
                <= 999,
            (Awaiting::ErrorBody { .. }, StreamInput::ErrorBody(_)) => true,
            (Awaiting::Chunk, StreamInput::Chunk(_)) => true,
            (Awaiting::Chunk, StreamInput::ChunkFailed) => true,
            (Awaiting::Chunk, StreamInput::EndOfStream) => true,
            (Awaiting::Payload { .. }, StreamInput::Parsed(_)) => true,
            (Awaiting::Payload { .. }, StreamInput::ParseFailed) => true,
            (Awaiting::Delivery { .. }, StreamInput::Delivered) => true,
            (Awaiting::Delivery { .. }, StreamInput::DeliveryFailed) => true,
            _ => false,
        }
    }

    fn fail(&mut self, e: StreamError) -> (action: StreamAction)
        ensures
            (final(self)@, action@) == old(self)@.fail(e@),
    {
        self.awaiting = Awaiting::Nothing;
        StreamAction::Fail(e)
    }

    fn finish(&mut self) -> (action: StreamAction)
        ensures
            (final(self)@, action@) == old(self)@.finish(),
    {
        if self.transcript.full_text.as_str().is_empty() {
            return self.fail(StreamError::NoModelText);
        }
        self.awaiting = Awaiting::Nothing;
        StreamAction::Complete(self.transcript.full_text.clone(), self.transcript.final_tokens)
    }

    fn advance(&mut self, trailing: bool) -> (action: StreamAction)
        ensures
            (final(self)@, action@) == old(self)@.advance(trailing),
    {
        if self.pending.len() > 0 {
            let payload = self.pending.remove(0);
            self.awaiting = Awaiting::Payload { trailing };
            assert(contents(self.pending@) =~= contents(old(self).pending@).drop_first());
            StreamAction::Parse(payload)
        } else if trailing {
            self.finish()
        } else {
            self.awaiting = Awaiting::Chunk;
            StreamAction::ReadChunk
        }
    }

    fn extract(&mut self, trailing: bool) -> (action: StreamAction)
        ensures
            (final(self)@, action@) == old(self)@.extract(trailing),
    {
        let found = extract_events(&mut self.buffer);
        self.pending = payloads_of(found);
        self.advance(trailing)
    }

    /// Takes in what happened and says what is to be done next. `input` must be
    /// of the kind that the stream waits for. The failure of a request that the
    /// API refused names the status code, unless the body is no JSON.
    pub fn step(&mut self, input: StreamInput) -> (action: StreamAction)
        requires
            old(self)@.valid(),
            old(self)@.expects(input@),
        ensures
            (final(self)@, action@) == old(self)@.step(input@),
            final(self)@.valid(),
            match (old(self)@.awaiting, input@) {
                (Awaiting::ErrorBody { status }, Arrival::ErrorBody(Some(body))) =>
                    parsed_strings(body) is Ok ==> names_status(action@, status),
                _ => true,
            },
    {
        match input {
            StreamInput::RequestFailed => self.fail(StreamError::RequestFailed),
            StreamInput::Responded(status) => {
                if is_success(status) {
                    self.awaiting = Awaiting::Chunk;
                    StreamAction::ReadChunk
                } else {
                    self.awaiting = Awaiting::ErrorBody { status };
                    StreamAction::ReadErrorBody
                }
            },
            StreamInput::ErrorBody(Some(body)) => {
                let status: u16 = match self.awaiting {
                    Awaiting::ErrorBody { status } => status,
                    _ => 100,
                };
                let e = refused(status, body.as_slice());
                self.fail(e)
            },
            StreamInput::ErrorBody(None) => self.fail(StreamError::BadErrorBody(None)),
            StreamInput::Chunk(bytes) => {
                append_chunk(&mut self.buffer, &mut self.residual, bytes.as_slice());
                self.extract(false)
            },
            StreamInput::ChunkFailed => self.fail(StreamError::ChunkFailed),
            StreamInput::EndOfStream => {
                if is_blank(self.buffer.as_str()) {
                    self.finish()
                } else {
                    self.buffer.push('\n');
                    self.buffer.push('\n');
                    assert(self.buffer@ == old(self).buffer@ + seq!['\n', '\n']);
                    self.extract(true)
                }
            },
            StreamInput::Parsed(resp) => {
                let trailing = self.trailing();
                let (fragment, tokens) = extract_text_and_tokens(&resp);
                match self.transcript.absorb(fragment, tokens) {
                    Some(delta) => {
                        self.awaiting = Awaiting::Delivery { trailing };
                        StreamAction::Deliver(delta)
                    },
                    None => self.advance(trailing),
                }
            },
            StreamInput::ParseFailed => {
                let trailing = self.trailing();
                self.fail(StreamError::InvalidPayload { trailing })
            },
            StreamInput::Delivered => {
                let trailing = self.trailing();
                self.advance(trailing)
            },
            StreamInput::DeliveryFailed => {
                let trailing = self.trailing();
                self.fail(StreamError::DeliveryFailed { trailing })
            },
        }
    }

    /// Whether the stream has ended and its last text is being used.
    fn trailing(&self) -> (b: bool)
        ensures
            match self@.awaiting {
                Awaiting::Payload { trailing } => b == trailing,
                Awaiting::Delivery { trailing } => b == trailing,
                _ => !b,
            },
    {
        match self.awaiting {
            Awaiting::Payload { trailing } => trailing,
            Awaiting::Delivery { trailing } => trailing,
            _ => false,
        }
    }
}

/// What parsing makes of a payload: the fragment that it holds, or nothing.
pub type Parser = spec_fn(Seq<char>) -> Option<Fragment>;

/// Runs a stream to its end: the chunks come in order, payloads are parsed by
/// `parse`, and every delivery succeeds. Gives the last action and all the text
/// that was delivered, beginning with `delivered`.
pub open spec fn run(
    p: Progress,
    action: Action,
    chunks: Seq<Seq<u8>>,
    parse: Parser,
    delivered: Seq<Seq<char>>,
) -> (Action, Seq<Seq<char>>)
    decreases
            chunks.len(),
            match p.awaiting {
                Awaiting::Chunk => 1int,
                Awaiting::Payload { trailing: false } => 1,
                Awaiting::Delivery { trailing: false } => 1,
                _ => 0,
            },
            p.pending.len(),
            match p.awaiting {
                Awaiting::Payload { .. } => 2int,
                Awaiting::Delivery { .. } => 1,
                _ => 0,
            },
{
    match (p.awaiting, action) {
        (Awaiting::Chunk, Action::ReadChunk) => if chunks.len() > 0 {
            let (q, next) = p.step(Arrival::Chunk(chunks[0]));
            run(q, next, chunks.drop_first(), parse, delivered)
        } else {
            let (q, next) = p.step(Arrival::EndOfStream);
            run(q, next, chunks, parse, delivered)
        },
        (Awaiting::Payload { .. }, Action::Parse(payload)) => match parse(payload) {
            Some(fragment) => {
                let (q, next) = p.step(Arrival::Parsed(fragment));
                run(q, next, chunks, parse, delivered)
            },
            None => (p.step(Arrival::ParseFailed).1, delivered),
        },
        (Awaiting::Delivery { .. }, Action::Deliver(text)) => {
            let (q, next) = p.step(Arrival::Delivered);
            run(q, next, chunks, parse, delivered.push(text))
        },
        _ => (action, delivered),
    }
}

/// The fragments of payloads, in order, if all of them parse.
pub open spec fn parse_all(ps: Seq<Seq<char>>, parse: Parser) -> Option<Seq<Fragment>>
    decreases ps.len(),
{
    if ps.len() == 0 {
        Some(seq![])
    } else {
        match (parse(ps[0]), parse_all(ps.drop_first(), parse)) {
            (Some(f), Some(fs)) => Some(seq![f] + fs),
            _ => None,
        }
    }
}

/// The fragments of payloads, in order, up to the first one that does not parse.
pub open spec fn parsed_until_failure(ps: Seq<Seq<char>>, parse: Parser) -> Seq<Fragment>
    decreases ps.len(),
{
    if ps.len() == 0 {
        seq![]
    } else {
        match parse(ps[0]) {
            Some(f) => seq![f] + parsed_until_failure(ps.drop_first(), parse),
            None => seq![],
        }
    }
}

/// All payloads of a stream that comes in `chunks`, up to its last break.
pub open spec fn stream_payloads(r: Received, chunks: Seq<Seq<u8>>) -> Seq<Seq<char>>
    decreases chunks.len(),
{
    if chunks.len() == 0 {
        seq![]
    } else {
        let next = r.append(chunks[0]);
        payloads(events(next.buffer)) + stream_payloads(next.drain(), chunks.drop_first())
    }
}

/// What is left of a stream that comes in `chunks`, behind its last break.
pub open spec fn stream_rest(r: Received, chunks: Seq<Seq<u8>>) -> Received
    decreases chunks.len(),
{
    if chunks.len() == 0 {
        r
    } else {
        stream_rest(r.append(chunks[0]).drain(), chunks.drop_first())
    }
}

/// The payloads in text that no break ended when the stream did.
pub open spec fn trailing_payloads(rest: Seq<char>) -> Seq<Seq<char>> {
    if blank(rest) {
        seq![]
    } else {
        payloads(events(rest + seq!['\n', '\n']))
    }
}

/// All payloads of a stream that comes in `chunks`, those behind its last break
/// too.
pub open spec fn all_payloads(r: Received, chunks: Seq<Seq<u8>>) -> Seq<Seq<char>> {
    stream_payloads(r, chunks) + trailing_payloads(stream_rest(r, chunks).buffer)
}

/// How a stream ends whose payloads were all used.
pub open spec fn conclusion(reply: Reply) -> Action {
    if reply.text.len() == 0 {
        Action::Fail(Failure::NoModelText)
    } else {
        Action::Complete(reply.text, reply.tokens)
    }
}

/// How a stream ends when, after `reply`, these payloads are its last.
pub open spec fn trailing_outcome(reply: Reply, last: Seq<Seq<char>>, parse: Parser) -> Action {
    match parse_all(last, parse) {
        None => Action::Fail(Failure::InvalidPayload { trailing: true }),
        Some(fragments) => conclusion(reply.absorb_each(fragments)),
    }
}

/// How a stream ends when, after `reply`, these payloads are to be used and then
/// what comes in `chunks`.
pub open spec fn outcome(
    reply: Reply,
    ps: Seq<Seq<char>>,
    r: Received,
    chunks: Seq<Seq<u8>>,
    parse: Parser,
) -> Action {
    match parse_all(ps + stream_payloads(r, chunks), parse) {
        None => Action::Fail(Failure::InvalidPayload { trailing: false }),
        Some(fragments) => trailing_outcome(
            reply.absorb_each(fragments),
            trailing_payloads(stream_rest(r, chunks).buffer),
            parse,
        ),
    }
}

/// What a run from `p` and `action` comes to.
spec fn prospect(p: Progress, action: Action, chunks: Seq<Seq<u8>>, parse: Parser) -> Action {
    match (p.awaiting, action) {
        (Awaiting::Chunk, Action::ReadChunk) => outcome(
            p.reply,
            seq![],
            p.received,
            chunks,
            parse,
        ),
        (Awaiting::Payload { trailing: false }, Action::Parse(payload)) => outcome(
            p.reply,
            seq![payload] + p.pending,
            p.received,
            chunks,
            parse,
        ),
        (Awaiting::Payload { trailing: true }, Action::Parse(payload)) => trailing_outcome(
            p.reply,
            seq![payload] + p.pending,
            parse,
        ),
        (Awaiting::Delivery { trailing: false }, Action::Deliver(_)) => outcome(
            p.reply,
            p.pending,
            p.received,
            chunks,
            parse,
        ),
        (Awaiting::Delivery { trailing: true }, Action::Deliver(_)) => trailing_outcome(
            p.reply,
            p.pending,
            parse,
        ),
        _ => action,
    }
}

/// The payloads that a run from `p` and `action` has before it.
spec fn ahead(p: Progress, action: Action, chunks: Seq<Seq<u8>>) -> Seq<Seq<char>> {
    match (p.awaiting, action) {
        (Awaiting::Chunk, Action::ReadChunk) => all_payloads(p.received, chunks),
        (Awaiting::Payload { trailing }, Action::Parse(payload)) => seq![payload] + queued(
            p,
            trailing,
            chunks,
        ),
        (Awaiting::Delivery { trailing }, Action::Deliver(_)) => queued(p, trailing, chunks),
        _ => seq![],
    }
}

/// The payloads behind the one that is being used.
spec fn queued(p: Progress, trailing: bool, chunks: Seq<Seq<u8>>) -> Seq<Seq<char>> {
    if trailing {
        p.pending
    } else {
        p.pending + all_payloads(p.received, chunks)
    }
}

/// What a run from `p` and `action` is still to deliver.
spec fn undelivered(p: Progress, action: Action, chunks: Seq<Seq<u8>>, parse: Parser) -> Seq<
    Seq<char>,
> {
    let later = p.reply.deltas(parsed_until_failure(ahead(p, action, chunks), parse));
    match action {
        Action::Deliver(text) => seq![text] + later,
        _ => later,
    }
}

/// Whether `delivered`, with what `action` delivers, is the text so far.
spec fn accounted(p: Progress, action: Action, delivered: Seq<Seq<char>>) -> bool {
    match action {
        Action::Deliver(text) => concat(delivered) + text == p.reply.text,
        Action::Complete(text, _) => concat(delivered) == text,
        _ => concat(delivered) == p.reply.text,
    }
}

/// Whether `action` is what a stream in state `p` asks for.
spec fn asks(p: Progress, action: Action) -> bool {
    match (p.awaiting, action) {
        (Awaiting::Chunk, Action::ReadChunk) => p.pending.len() == 0,
        (Awaiting::Payload { .. }, Action::Parse(_)) => true,
        (Awaiting::Delivery { .. }, Action::Deliver(_)) => true,
        (Awaiting::Nothing, Action::Complete(..)) => true,
        (Awaiting::Nothing, Action::Fail(_)) => true,
        _ => false,
    }
}

/// Going on keeps the prospect.
proof fn lemma_advance(
    p: Progress,
    trailing: bool,
    chunks: Seq<Seq<u8>>,
    parse: Parser,
)
    ensures
        ({
            let (q, action) = p.advance(trailing);
            &&& asks(q, action)
            &&& q.reply == p.reply
            &&& prospect(q, action, chunks, parse) == if trailing {
                trailing_outcome(p.reply, p.pending, parse)
            } else {
                outcome(p.reply, p.pending, p.received, chunks, parse)
            }
            &&& ahead(q, action, chunks) == queued(p, trailing, chunks)
        }),
{
    let (q, action) = p.advance(trailing);
    if p.pending.len() > 0 {
        assert(seq![p.pending[0]] + p.pending.drop_first() == p.pending);
        assert(seq![p.pending[0]] + queued(q, trailing, chunks) == queued(p, trailing, chunks));
    } else {
        assert(p.pending =~= seq![]);
        assert(p.reply.absorb_each(seq![]) == p.reply);
        assert(p.pending + all_payloads(p.received, chunks) == all_payloads(p.received, chunks));
    }
}

/// Using the first of some payloads.
proof fn lemma_parse_first(
    reply: Reply,
    first: Seq<char>,
    more: Seq<Seq<char>>,
    parse: Parser,
)
    ensures
        match (parse(first), parse_all(more, parse)) {
            (Some(f), Some(fs)) => parse_all(seq![first] + more, parse) == Some(seq![f] + fs)
                && reply.absorb_each(seq![f] + fs) == reply.absorb(f).absorb_each(fs),
            _ => parse_all(seq![first] + more, parse) is None,
        },
{
    let ps = seq![first] + more;
    assert(ps[0] == first);
    assert(ps.drop_first() == more);
    match (parse(first), parse_all(more, parse)) {
        (Some(f), Some(fs)) => {
            assert((seq![f] + fs).drop_first() == fs);
        },
        _ => {},
    }
}

/// What is delivered of the first of some payloads and of the others.
proof fn lemma_deliver_first(
    reply: Reply,
    first: Seq<char>,
    more: Seq<Seq<char>>,
    parse: Parser,
)
    ensures
        reply.deltas(parsed_until_failure(seq![first] + more, parse)) == match parse(first) {
            Some(f) => {
                let later = reply.absorb(f).deltas(parsed_until_failure(more, parse));
                if reply.delta(f.0).len() == 0 {
                    later
                } else {
                    seq![reply.delta(f.0)] + later
                }
            },
            None => seq![],
        },
{
    let ps = seq![first] + more;
    assert(ps[0] == first);
    assert(ps.drop_first() == more);
    if let Some(f) = parse(first) {
        let fs = parsed_until_failure(more, parse);
        assert((seq![f] + fs)[0] == f);
        assert((seq![f] + fs).drop_first() == fs);
    }
}

/// Every run comes to its prospect, and delivers what it is still to deliver,
/// which makes up the text of the reply.
proof fn lemma_run(
    p: Progress,
    action: Action,
    chunks: Seq<Seq<u8>>,
    parse: Parser,
    delivered: Seq<Seq<char>>,
)
    requires
        asks(p, action),
        accounted(p, action, delivered),
    ensures
        run(p, action, chunks, parse, delivered).0 == prospect(p, action, chunks, parse),
        run(p, action, chunks, parse, delivered).1 == delivered + undelivered(
            p,
            action,
            chunks,
            parse,
        ),
        run(p, action, chunks, parse, delivered).0 matches Action::Complete(text, _)
            ==> concat(run(p, action, chunks, parse, delivered).1) == text,
    decreases
            chunks.len(),
            match p.awaiting {
                Awaiting::Chunk => 1int,
                Awaiting::Payload { trailing: false } => 1,
                Awaiting::Delivery { trailing: false } => 1,
                _ => 0,
            },
            p.pending.len(),
            match p.awaiting {
                Awaiting::Payload { .. } => 2int,
                Awaiting::Delivery { .. } => 1,
                _ => 0,
            },
{
    match (p.awaiting, action) {
        (Awaiting::Chunk, Action::ReadChunk) => {
            assert(seq![] + stream_payloads(p.received, chunks) =~= stream_payloads(
                p.received,
                chunks,
            ));
            if chunks.len() > 0 {
                let (q, next) = p.step(Arrival::Chunk(chunks[0]));
                let r = p.received.append(chunks[0]);
                let fed = Progress {
                    pending: payloads(events(r.buffer)),
                    received: r.drain(),
                    ..p
                };
                lemma_advance(fed, false, chunks.drop_first(), parse);
                assert(all_payloads(p.received, chunks) == queued(fed, false, chunks.drop_first()));
                lemma_run(q, next, chunks.drop_first(), parse, delivered);
            } else {
                let (q, next) = p.step(Arrival::EndOfStream);
                assert(p.reply.absorb_each(seq![]) == p.reply);
                assert(all_payloads(p.received, chunks) == trailing_payloads(p.received.buffer));
                if !blank(p.received.buffer) {
                    let text = p.received.buffer + seq!['\n', '\n'];
                    let fed = Progress {
                        pending: payloads(events(text)),
                        received: (Received { buffer: text, ..p.received }).drain(),
                        ..p
                    };
                    lemma_advance(fed, true, chunks, parse);
                }
                lemma_run(q, next, chunks, parse, delivered);
            }
        },
        (Awaiting::Payload { trailing }, Action::Parse(payload)) => {
            let later = if trailing {
                p.pending
            } else {
                p.pending + stream_payloads(p.received, chunks)
            };
            lemma_parse_first(p.reply, payload, later, parse);
            lemma_deliver_first(p.reply, payload, queued(p, trailing, chunks), parse);
            assert(seq![payload] + p.pending + stream_payloads(p.received, chunks) =~= seq![payload]
                + (p.pending + stream_payloads(p.received, chunks)));
            match parse(payload) {
                Some(fragment) => {
                    let (q, next) = p.step(Arrival::Parsed(fragment));
                    let absorbed = Progress { reply: p.reply.absorb(fragment), ..p };
                    let delta = p.reply.delta(fragment.0);
                    if delta.len() == 0 {
                        assert(absorbed.reply.text =~= p.reply.text);
                        lemma_advance(absorbed, trailing, chunks, parse);
                        assert(queued(absorbed, trailing, chunks) == queued(p, trailing, chunks));
                    } else {
                        assert(queued(q, trailing, chunks) == queued(p, trailing, chunks));
                    }
                    lemma_run(q, next, chunks, parse, delivered);
                },
                None => {
                    assert(delivered + undelivered(p, action, chunks, parse) == delivered);
                },
            }
        },
        (Awaiting::Delivery { trailing }, Action::Deliver(text)) => {
            let (q, next) = p.step(Arrival::Delivered);
            lemma_advance(p, trailing, chunks, parse);
            assert(delivered.push(text).drop_last() == delivered);
            lemma_run(q, next, chunks, parse, delivered.push(text));
            let later = undelivered(q, next, chunks, parse);
            assert(delivered.push(text) + later == delivered + (seq![text] + later));
        },
        _ => {
            assert(delivered + undelivered(p, action, chunks, parse) == delivered);
        },
    }
}

/// The run of a request that is answered with `status` and then with `chunks`.
pub open spec fn whole_run(status: u16, chunks: Seq<Seq<u8>>, parse: Parser) -> (
    Action,
    Seq<Seq<char>>,
) {
    let (p, action) = Progress::start().step(Arrival::Responded(status));
    run(p, action, chunks, parse, seq![])
}

/// What a successful request comes to: the payloads of the whole stream are
/// used in order, those behind the last break at its end. The first one that
/// does not parse is the failure; without model text there is none to show; else
/// the reply is what all fragments add up to, with the last token count. What is
/// delivered on the way is what each fragment up to that failure brings that is
/// new, piece by piece; if the request completes it is the text of the reply.
pub proof fn law_stream_outcome(status: u16, chunks: Seq<Seq<u8>>, parse: Parser)
    requires
        100 <= status <= 999,
        successful(status),
    ensures
        ({
            let (end, delivered) = whole_run(status, chunks, parse);
            &&& end == outcome(Reply::empty(), seq![], Received::empty(), chunks, parse)
            &&& delivered == Reply::empty().deltas(
                parsed_until_failure(all_payloads(Received::empty(), chunks), parse),
            )
            &&& end matches Action::Complete(text, _) ==> concat(delivered) == text
        }),
{
    let (p, action) = Progress::start().step(Arrival::Responded(status));
    assert(p.pending.len() == 0);
    assert(concat(seq![]) =~= seq![]);
    lemma_run(p, action, chunks, parse, seq![]);
    let delivered = undelivered(p, action, chunks, parse);
    assert(seq![] + delivered =~= delivered);
}

/// Payloads of two runs of events, one behind the other.
proof fn lemma_payloads_add(a: Seq<Seq<char>>, b: Seq<Seq<char>>)
    ensures
        payloads(a + b) == payloads(a) + payloads(b),
    decreases b.len(),
{
    if b.len() == 0 {
        assert(a + b == a);
    } else {
        lemma_payloads_add(a, b.drop_last());
        assert((a + b).drop_last() == a + b.drop_last());
    }
}

/// Two chunks have the payloads of one, and leave the same.
proof fn lemma_two_chunks_as_one(
    r: Received,
    first: Seq<u8>,
    second: Seq<u8>,
    after: Seq<Seq<u8>>,
)
    requires
        !r.splits_line_ending(first, second),
    ensures
        stream_payloads(r, seq![first, second] + after) == stream_payloads(
            r,
            seq![first + second] + after,
        ),
        stream_rest(r, seq![first, second] + after) == stream_rest(
            r,
            seq![first + second] + after,
        ),
{
    let cut = seq![first, second] + after;
    let whole = seq![first + second] + after;
    let early = r.append(first);
    let late = early.drain().append(second);
    law_events_do_not_depend_on_chunks(r, first, second);
    lemma_payloads_add(events(early.buffer), events(late.buffer));
    assert(cut.drop_first() == seq![second] + after);
    assert(cut.drop_first().drop_first() == after);
    assert(whole.drop_first() == after);
    let later = stream_payloads(late.drain(), after);
    assert(stream_payloads(early.drain(), cut.drop_first()) == payloads(events(late.buffer))
        + later);
    assert(payloads(events(early.buffer)) + (payloads(events(late.buffer)) + later) == (payloads(
        events(early.buffer),
    ) + payloads(events(late.buffer))) + later);
    assert(stream_rest(early.drain(), cut.drop_first()) == stream_rest(late.drain(), after));
}

/// The bytes of `chunks`, one behind the other.
pub open spec fn all_bytes(chunks: Seq<Seq<u8>>) -> Seq<u8>
    decreases chunks.len(),
{
    if chunks.len() == 0 {
        seq![]
    } else {
        chunks[0] + all_bytes(chunks.drop_first())
    }
}

/// Whether no cut between `chunks` falls inside a line ending, when they come
/// after `r`.
pub open spec fn keeps_line_endings(r: Received, chunks: Seq<Seq<u8>>) -> bool {
    forall|i: int|
        0 < i < chunks.len() ==> !r.splits_line_ending(
            all_bytes(chunks.take(i)),
            #[trigger] chunks[i],
        )
}

/// Two chunks put together have the bytes that they had.
proof fn lemma_bytes_of_two(a: Seq<u8>, b: Seq<u8>, more: Seq<Seq<u8>>)
    ensures
        all_bytes(seq![a, b] + more) == all_bytes(seq![a + b] + more),
{
    let apart = seq![a, b] + more;
    let together = seq![a + b] + more;
    reveal_with_fuel(all_bytes, 3);
    assert(apart.drop_first() == seq![b] + more);
    assert(apart.drop_first()[0] == b);
    assert(apart.drop_first().drop_first() == more);
    assert(together.drop_first() == more);
    assert(a + (b + all_bytes(more)) == a + b + all_bytes(more));
}

/// Any number of chunks have the payloads of one, and leave the same.
proof fn lemma_chunks_as_one(r: Received, chunks: Seq<Seq<u8>>)
    requires
        chunks.len() > 0,
        keeps_line_endings(r, chunks),
    ensures
        stream_payloads(r, chunks) == stream_payloads(r, seq![all_bytes(chunks)]),
        stream_rest(r, chunks) == stream_rest(r, seq![all_bytes(chunks)]),
    decreases chunks.len(),
{
    let first = chunks[0];
    if chunks.len() == 1 {
        assert(all_bytes(chunks.drop_first()) =~= seq![]);
        assert(all_bytes(chunks) =~= first);
        assert(chunks == seq![all_bytes(chunks)]);
    } else {
        let second = chunks[1];
        let more = chunks.skip(2);
        let merged = seq![first + second] + more;
        assert(chunks == seq![first, second] + more);
        assert forall|i: int| 0 < i < merged.len() implies !r.splits_line_ending(
            all_bytes(merged.take(i)),
            #[trigger] merged[i],
        ) by {
            lemma_bytes_of_two(first, second, more.take(i - 1));
            assert(merged.take(i) == seq![first + second] + more.take(i - 1));
            assert(chunks.take(i + 1) == seq![first, second] + more.take(i - 1));
            assert(chunks[i + 1] == merged[i]);
        }
        lemma_chunks_as_one(r, merged);
        lemma_bytes_of_two(first, second, more);
        assert(!r.splits_line_ending(first, second)) by {
            let head = chunks.take(1);
            assert(head.drop_first() =~= seq![]);
            assert(all_bytes(head.drop_first()) =~= seq![]);
            assert(all_bytes(head) =~= first);
            assert(chunks[1] == second);
        }
        lemma_two_chunks_as_one(r, first, second, more);
    }
}

/// What is read of a stream from its start depends on its bytes alone.
proof fn lemma_stream_of_bytes(chunks: Seq<Seq<u8>>)
    requires
        keeps_line_endings(Received::empty(), chunks),
    ensures
        ({
            let all = Received::empty().append(all_bytes(chunks));
            &&& stream_payloads(Received::empty(), chunks) == payloads(events(all.buffer))
            &&& stream_rest(Received::empty(), chunks) == all.drain()
        }),
{
    let r = Received::empty();
    let bytes = all_bytes(chunks);
    let all = r.append(bytes);
    if chunks.len() == 0 {
        assert(r.residual + bytes =~= seq![]);
        assert(bytes.take(0) =~= seq![]);
        assert(decoded(bytes) =~= seq![]);
        assert(all.buffer =~= seq![]);
        assert(all.residual =~= seq![]);
        assert(events(all.buffer) =~= seq![]);
    } else {
        lemma_chunks_as_one(r, chunks);
        let one = seq![bytes];
        assert(one.drop_first() =~= seq![]);
        assert(stream_payloads(all.drain(), one.drop_first()) =~= seq![]);
        assert(stream_rest(all.drain(), one.drop_first()) == all.drain());
        assert(payloads(events(all.buffer)) + seq![] =~= payloads(events(all.buffer)));
    }
}

/// The network does not change the reply: into however many chunks the bytes of
/// a stream are cut, and wherever, a character's inside not excepted, the
/// request ends in the same way and delivers the same pieces in the same order,
/// unless a cut falls inside a line ending.
pub proof fn law_outcome_does_not_depend_on_chunks(
    status: u16,
    one: Seq<Seq<u8>>,
    other: Seq<Seq<u8>>,
    parse: Parser,
)
    requires
        100 <= status <= 999,
        successful(status),
        all_bytes(one) == all_bytes(other),
        keeps_line_endings(Received::empty(), one),
        keeps_line_endings(Received::empty(), other),
    ensures
        whole_run(status, one, parse) == whole_run(status, other, parse),
{
    lemma_stream_of_bytes(one);
    lemma_stream_of_bytes(other);
    law_stream_outcome(status, one, parse);
    law_stream_outcome(status, other, parse);
}

/// The mark of the end is one event, which a frame can carry.
proof fn lemma_end_mark()
    ensures
        fits_frame("[DONE]"@),
        !has_crlf(framed("[DONE]"@)),
        framed("[DONE]"@).len() > 0,
        framed("[DONE]"@).last() == '\n',
        events(framed("[DONE]"@)) == seq!["[DONE]"@],
        unfinished(framed("[DONE]"@)) == Seq::<char>::empty(),
{
    reveal_strlit("[DONE]");
    let ps = seq!["[DONE]"@];
    assert("[DONE]"@ =~= seq!['[', 'D', 'O', 'N', 'E', ']']);
    assert(ps.drop_last() =~= seq![]);
    assert(framed_all(ps.drop_last()) =~= seq![]);
    assert(framed_all(ps) =~= framed("[DONE]"@));
    lemma_frames_have_no_crlf(ps);
    law_frames_give_back_payloads(ps);
}

/// The mark of the end stops nothing: put at the start of a text, or behind any
/// event that is complete, it changes neither the payloads, before or behind it,
/// nor what is left over.
pub proof fn law_end_mark_is_skipped(before: Seq<char>, after: Seq<char>)
    requires
        unfinished(before).len() == 0,
    ensures
        payloads(events(before + framed("[DONE]"@) + after)) == payloads(events(before + after)),
        unfinished(before + framed("[DONE]"@) + after) == unfinished(before + after),
{
    let mark = framed("[DONE]"@);
    lemma_end_mark();
    assert(unfinished(before) =~= seq![]);
    law_events_come_as_received(before, mark + after);
    law_events_come_as_received(before, after);
    law_events_come_as_received(mark, after);
    assert(before + mark + after == before + (mark + after));
    assert(seq![] + (mark + after) =~= mark + after);
    assert(seq![] + after =~= after);
    lemma_payloads_add(events(before), events(mark + after));
    lemma_payloads_add(events(before), events(after));
    lemma_payloads_add(events(mark), events(after));
    let one = seq!["[DONE]"@];
    assert(payloads(one.drop_last()) =~= seq![]);
    assert(payloads(one) =~= seq![]);
    assert(payloads(one) + payloads(events(after)) =~= payloads(events(after)));
}

/// A mark of the end between events does not end a request: two streams of which
/// one has it at its start, or behind some complete event, and the other has
/// not, end in the same way and deliver the same pieces in the same order, into
/// whatever chunks each of them is cut outside its line endings.
pub proof fn law_end_mark_stops_nothing(
    status: u16,
    before: Seq<u8>,
    after: Seq<u8>,
    plain: Seq<Seq<u8>>,
    marked: Seq<Seq<u8>>,
    parse: Parser,
)
    requires
        100 <= status <= 999,
        successful(status),
        undecoded(before).len() == 0,
        unfinished(unified(decoded(before))).len() == 0,
        all_bytes(plain) == before + after,
        all_bytes(marked) == before + encode_utf8(framed("[DONE]"@)) + after,
        keeps_line_endings(Received::empty(), plain),
        keeps_line_endings(Received::empty(), marked),
    ensures
        whole_run(status, marked, parse) == whole_run(status, plain, parse),
{
    let mark = framed("[DONE]"@);
    let bytes = encode_utf8(mark);
    let (a, b) = (decoded(before), decoded(after));
    lemma_end_mark();
    lemma_decode_encoded(mark);
    law_line_feeds_stay(mark);
    assert(undecoded(before) =~= seq![]);
    assert(seq![] + after =~= after);
    assert(seq![] + (bytes + after) =~= bytes + after);
    assert(before + bytes + after == before + (bytes + after));
    lemma_decode_in_two(before, after);
    lemma_decode_in_two(before, bytes + after);
    lemma_decode_in_two(bytes, after);
    if a.len() > 0 {
        lemma_unified_last(a);
        lemma_used_up_text_ends_with_line_feed(unified(a));
    }
    lemma_unified_add(a, b);
    lemma_unified_add(a, mark + b);
    lemma_unified_add(mark, b);
    law_end_mark_is_skipped(unified(a), unified(b));
    assert(unified(a) + mark + unified(b) == unified(a) + (mark + unified(b)));
    let r = Received::empty();
    assert(r.residual + all_bytes(plain) == all_bytes(plain));
    assert(r.residual + all_bytes(marked) == all_bytes(marked));
    assert(r.append(all_bytes(plain)).buffer =~= unified(a) + unified(b));
    assert(r.append(all_bytes(marked)).buffer =~= unified(a) + mark + unified(b));
    lemma_stream_of_bytes(plain);
    lemma_stream_of_bytes(marked);
    law_stream_outcome(status, plain, parse);
    law_stream_outcome(status, marked, parse);
}

/// Frames hold no line ending but line feeds, unless a payload ends with a
/// carriage return.
proof fn lemma_frames_have_no_crlf(ps: Seq<Seq<char>>)
    requires
        forall|i: int| 0 <= i < ps.len() ==> fits_frame(#[trigger] ps[i]),
        forall|i: int|
            0 <= i < ps.len() && (#[trigger] ps[i]).len() > 0 ==> ps[i].last() != '\r',
    ensures
        !has_crlf(framed_all(ps)),
        framed_all(ps).len() > 0 ==> framed_all(ps).last() == '\n',
    decreases ps.len(),
{
    if ps.len() > 0 {
        let (init, last) = (ps.drop_last(), ps.last());
        assert(ps[ps.len() - 1] == last);
        assert forall|i: int| 0 <= i < init.len() implies fits_frame(#[trigger] init[i]) && (
        init[i].len() > 0 ==> init[i].last() != '\r') by {
            assert(ps[i] == init[i]);
        }
        lemma_frames_have_no_crlf(init);
        reveal_strlit("data: ");
        let (a, b) = (framed_all(init), framed(last));
        let n = a.len();
        assert forall|i: int| 0 <= i && i + 1 < (a + b).len() && #[trigger] (a + b)[i]
            == '\r' implies (a + b)[i + 1] != '\n' by {
            if i + 1 < n {
                assert(a[i] == '\r');
            } else if i >= n {
                let j = i - n;
                assert(b[j] == '\r');
                if j + 1 < b.len() && b[j + 1] == '\n' && j >= 6 && j + 1 < 6 + last.len() {
                    assert(last.contains(last[j + 1 - 6]));
                }
            }
        }
    }
}

/// The bytes of some first chunks and of the others.
proof fn lemma_bytes_of_parts(chunks: Seq<Seq<u8>>, n: int)
    requires
        0 <= n <= chunks.len(),
    ensures
        all_bytes(chunks) == all_bytes(chunks.take(n)) + all_bytes(chunks.skip(n)),
    decreases n,
{
    if n == 0 {
        assert(chunks.skip(0) == chunks);
        assert(all_bytes(chunks.take(0)) + all_bytes(chunks) == all_bytes(chunks));
    } else {
        let rest = chunks.drop_first();
        lemma_bytes_of_parts(rest, n - 1);
        assert(chunks.take(n).drop_first() == rest.take(n - 1));
        assert(chunks.skip(n) == rest.skip(n - 1));
        assert(chunks[0] + (all_bytes(rest.take(n - 1)) + all_bytes(rest.skip(n - 1))) == chunks[0]
            + all_bytes(rest.take(n - 1)) + all_bytes(rest.skip(n - 1)));
    }
}

/// A text without carriage returns before line feeds has no line ending that a
/// cut could fall into.
proof fn lemma_line_feeds_are_kept(text: Seq<char>, chunks: Seq<Seq<u8>>)
    requires
        !has_crlf(text),
        all_bytes(chunks) == encode_utf8(text),
    ensures
        keeps_line_endings(Received::empty(), chunks),
{
    let r = Received::empty();
    assert forall|i: int| 0 < i < chunks.len() implies !r.splits_line_ending(
        all_bytes(chunks.take(i)),
        #[trigger] chunks[i],
    ) by {
        let before = all_bytes(chunks.take(i));
        let after = all_bytes(chunks.skip(i + 1));
        lemma_bytes_of_parts(chunks, i);
        assert(chunks.skip(i).drop_first() == chunks.skip(i + 1));
        assert(before + (chunks[i] + after) == before + chunks[i] + after);
        assert(r.residual + before == before);
        lemma_decode_encoded(text);
        lemma_decode_in_two(before, chunks[i]);
        lemma_decode_in_two(before + chunks[i], after);
        let a = decoded(before);
        let b = decoded(undecoded(before) + chunks[i]);
        if r.splits_line_ending(before, chunks[i]) {
            assert(text[a.len() - 1] == '\r');
            assert(text[a.len() as int] == '\n');
        }
    }
}

/// A stream of frames is read as its payloads: when a server sends the frames of
/// payloads that a frame can carry, and none of them ends with a carriage
/// return, then, into whatever chunks the network cuts them, all of them but the
/// mark of the end are used, in order, and nothing is left over.
pub proof fn law_frames_are_read_as_payloads(ps: Seq<Seq<char>>, chunks: Seq<Seq<u8>>)
    requires
        forall|i: int| 0 <= i < ps.len() ==> fits_frame(#[trigger] ps[i]),
        forall|i: int|
            0 <= i < ps.len() && (#[trigger] ps[i]).len() > 0 ==> ps[i].last() != '\r',
        all_bytes(chunks) == encode_utf8(framed_all(ps)),
    ensures
        ({
            let r = Received::empty();
            &&& stream_payloads(r, chunks) == payloads(ps)
            &&& stream_rest(r, chunks) == r
        }),
{
    let r = Received::empty();
    let body = framed_all(ps);
    let bytes = encode_utf8(body);
    lemma_decode_encoded(body);
    lemma_frames_have_no_crlf(ps);
    law_line_feeds_stay(body);
    law_frames_give_back_payloads(ps);
    assert(r.residual + bytes == bytes);
    assert(r.append(bytes).buffer =~= body);
    lemma_line_feeds_are_kept(body, chunks);
    lemma_stream_of_bytes(chunks);
}

/// What a server says is what the user reads: a successful request whose stream
/// consists of frames, cut into whatever chunks, ends with the reply that the
/// fragments of the payloads add up to. If a payload does not parse it fails,
/// and so it does without any text. What is new in each fragment before such a
/// payload is delivered, piece by piece.
pub proof fn law_framed_reply_is_understood(
    status: u16,
    ps: Seq<Seq<char>>,
    chunks: Seq<Seq<u8>>,
    parse: Parser,
)
    requires
        100 <= status <= 999,
        successful(status),
        forall|i: int| 0 <= i < ps.len() ==> fits_frame(#[trigger] ps[i]),
        forall|i: int|
            0 <= i < ps.len() && (#[trigger] ps[i]).len() > 0 ==> ps[i].last() != '\r',
        all_bytes(chunks) == encode_utf8(framed_all(ps)),
    ensures
        ({
            let (end, delivered) = whole_run(status, chunks, parse);
            &&& end == match parse_all(payloads(ps), parse) {
                None => Action::Fail(Failure::InvalidPayload { trailing: false }),
                Some(fragments) => conclusion(Reply::empty().absorb_each(fragments)),
            }
            &&& delivered == Reply::empty().deltas(parsed_until_failure(payloads(ps), parse))
            &&& end matches Action::Complete(text, _) ==> concat(delivered) == text
        }),
{
    let r = Received::empty();
    law_stream_outcome(status, chunks, parse);
    law_frames_are_read_as_payloads(ps, chunks);
    assert(seq![] + payloads(ps) =~= payloads(ps));
    assert(trailing_payloads(r.buffer) =~= seq![]);
    assert(all_payloads(r, chunks) =~= payloads(ps));
    match parse_all(payloads(ps), parse) {
        None => {},
        Some(fragments) => {
            let reply = Reply::empty().absorb_each(fragments);
            assert(reply.absorb_each(seq![]) == reply);
        },
    }
}

/// A refused request is answered with a failure and nothing else: its body is
/// read, and the request fails with what the body says, or because the body
/// could not be read or parsed. No text is delivered.
pub proof fn law_refused_request_fails(status: u16, body: Option<Seq<u8>>)
    requires
        100 <= status <= 999,
        !successful(status),
    ensures
        ({
            let (p, action) = Progress::start().step(Arrival::Responded(status));
            let (q, end) = p.step(Arrival::ErrorBody(body));
            &&& action == Action::ReadErrorBody
            &&& p.expects(Arrival::ErrorBody(body))
            &&& end == Action::Fail(
                match body {
                    Some(bytes) => refusal(
                        status_line(status),
                        message_of(parsed_strings(bytes)),
                    ),
                    None => Failure::BadErrorBody(None),
                },
            )
            &&& q.awaiting == Awaiting::Nothing
        }),
{
}

/// A stream that has completed or failed waits for nothing more.
pub proof fn law_end_is_final(p: Progress, arrival: Arrival, later: Arrival)
    requires
        p.expects(arrival),
        p.step(arrival).1 is Complete || p.step(arrival).1 is Fail,
    ensures
        !p.step(arrival).0.expects(later),
{
}

/// Whatever goes wrong outside ends the request at once, with the failure that
/// names it.
pub proof fn law_failures_end_the_request(p: Progress, arrival: Arrival)
    requires
        p.expects(arrival),
    ensures
        arrival is RequestFailed ==> p.step(arrival).1 == Action::Fail(Failure::RequestFailed),
        arrival is ChunkFailed ==> p.step(arrival).1 == Action::Fail(Failure::ChunkFailed),
        arrival is ParseFailed ==> p.step(arrival).1 == Action::Fail(
            Failure::InvalidPayload { trailing: p.awaiting == Awaiting::Payload { trailing: true } },
        ),
        arrival is DeliveryFailed ==> p.step(arrival).1 == Action::Fail(
            Failure::DeliveryFailed {
                trailing: p.awaiting == Awaiting::Delivery { trailing: true },
            },
        ),
{
}

/// Only a reply with text completes a request, and that text is all there is.
pub proof fn law_only_text_completes(p: Progress, arrival: Arrival)
    requires
        p.expects(arrival),
    ensures
        p.step(arrival).1 matches Action::Complete(text, tokens) ==> text.len() > 0 && text
            == p.step(arrival).0.reply.text && tokens == p.step(arrival).0.reply.tokens,
{
}

/// Every event but the mark of the end is a payload, as it is and in its place.
pub proof fn law_all_but_the_mark_are_payloads(es: Seq<Seq<char>>)
    ensures
        payloads(es) == es.filter(|e: Seq<char>| e != "[DONE]"@),
    decreases es.len(),
{
    reveal(Seq::filter);
    if es.len() > 0 {
        law_all_but_the_mark_are_payloads(es.drop_last());
    }
}

/// Events without the mark of the end among them are the payloads.
pub proof fn law_without_the_mark_all_are_payloads(es: Seq<Seq<char>>)
    requires
        forall|i: int| 0 <= i < es.len() ==> #[trigger] es[i] != "[DONE]"@,
    ensures
        payloads(es) == es,
    decreases es.len(),
{
    if es.len() > 0 {
        let init = es.drop_last();
        assert forall|i: int| 0 <= i < init.len() implies #[trigger] init[i] != "[DONE]"@ by {
            assert(es[i] == init[i]);
        }
        law_without_the_mark_all_are_payloads(init);
        assert(es[es.len() - 1] == es.last());
        assert(init.push(es.last()) =~= es);
    } else {
        assert(payloads(es) =~= es);
    }
}

/// The bytes of chunks are the chunks one behind the other, each of them whole.
pub proof fn law_bytes_are_those_of_the_chunks(chunks: Seq<Seq<u8>>)
    ensures
        all_bytes(chunks) == chunks.flatten(),
    decreases chunks.len(),
{
    if chunks.len() > 0 {
        law_bytes_are_those_of_the_chunks(chunks.drop_first());
    }
}

/// What is read of frames are their payloads.
proof fn lemma_frames(ps: Seq<Seq<char>>, frames: Seq<Seq<char>>, chunks: Seq<Seq<u8>>)
    requires
        frames.len() == ps.len(),
        forall|i: int|
            0 <= i < ps.len() ==> #[trigger] frames[i] == "data: "@ + ps[i] + seq!['\n', '\n'],
        forall|i: int| 0 <= i < ps.len() ==> !(#[trigger] ps[i]).contains('\n'),
        forall|i: int| 0 <= i < ps.len() ==> #[trigger] ps[i] != "[DONE]"@,
        forall|i: int|
            0 <= i < ps.len() && (#[trigger] ps[i]).len() > 0 ==> !white_space(ps[i][0])
                && ps[i].last() != '\r',
        chunks.flatten() == encode_utf8(frames.flatten()),
    ensures
        frames.flatten() == framed_all(ps),
        forall|i: int|
            0 <= i < ps.len() ==> fits_frame(#[trigger] ps[i]) && (ps[i].len() > 0 ==> ps[i].last()
                != '\r') && ps[i] != "[DONE]"@,
        stream_payloads(Received::empty(), chunks) == ps,
        stream_rest(Received::empty(), chunks) == Received::empty(),
        all_payloads(Received::empty(), chunks) == ps,
{
    assert forall|i: int| 0 <= i < ps.len() implies fits_frame(#[trigger] ps[i]) && (ps[i].len() > 0
        ==> ps[i].last() != '\r') && ps[i] != "[DONE]"@ && frames[i] == framed(ps[i]) by {
        assert(frames[i] == "data: "@ + ps[i] + seq!['\n', '\n']);
    }
    lemma_framed_all_is_concat(ps, frames);
    law_concat_flattens(frames);
    law_bytes_are_those_of_the_chunks(chunks);
    law_frames_are_read_as_payloads(ps, chunks);
    law_without_the_mark_all_are_payloads(ps);
    assert(trailing_payloads(seq![]) =~= seq![]);
    assert(all_payloads(Received::empty(), chunks) =~= ps);
}

/// Frames one behind the other.
proof fn lemma_framed_all_is_concat(ps: Seq<Seq<char>>, frames: Seq<Seq<char>>)
    requires
        frames.len() == ps.len(),
        forall|i: int| 0 <= i < ps.len() ==> #[trigger] frames[i] == framed(ps[i]),
    ensures
        concat(frames) == framed_all(ps),
    decreases ps.len(),
{
    if ps.len() > 0 {
        assert(frames[ps.len() - 1] == framed(ps[ps.len() - 1]));
        assert forall|i: int| 0 <= i < ps.len() - 1 implies #[trigger] frames.drop_last()[i]
            == framed(ps.drop_last()[i]) by {
            assert(frames[i] == framed(ps[i]));
        }
        lemma_framed_all_is_concat(ps.drop_last(), frames.drop_last());
    }
}

/// Payloads that parse up to one that does not, if there is one.
proof fn lemma_parsed(ps: Seq<Seq<char>>, fragments: Seq<Fragment>, parse: Parser)
    requires
        fragments.len() <= ps.len(),
        forall|i: int|
            0 <= i < fragments.len() ==> parse(#[trigger] ps[i]) == Some(fragments[i]),
        fragments.len() < ps.len() ==> parse(ps[fragments.len() as int]) is None,
    ensures
        parsed_until_failure(ps, parse) == fragments,
        fragments.len() == ps.len() ==> parse_all(ps, parse) == Some(fragments),
        fragments.len() < ps.len() ==> parse_all(ps, parse) is None,
    decreases ps.len(),
{
    if fragments.len() > 0 {
        let (rest, later) = (ps.drop_first(), fragments.drop_first());
        assert(parse(ps[0]) == Some(fragments[0]));
        assert forall|i: int| 0 <= i < later.len() implies parse(#[trigger] rest[i]) == Some(
            later[i],
        ) by {
            assert(rest[i] == ps[i + 1]);
        }
        lemma_parsed(rest, later, parse);
        assert(seq![fragments[0]] + later =~= fragments);
    } else {
        assert(parsed_until_failure(ps, parse) =~= fragments);
    }
}

/// A reply is what the server sent. When its payloads, framed and cut into
/// whatever chunks, parse to fragments with text none of which starts with the
/// one before, then each fragment is delivered as it is, in order, the reply is
/// all of them one behind the other, and its token count is the last reported.
pub proof fn law_reply_is_what_the_server_sent(
    status: u16,
    ps: Seq<Seq<char>>,
    frames: Seq<Seq<char>>,
    chunks: Seq<Seq<u8>>,
    parse: Parser,
    fragments: Seq<Fragment>,
    at: int,
)
    requires
        200 <= status < 300,
        frames.len() == ps.len(),
        forall|i: int|
            0 <= i < ps.len() ==> #[trigger] frames[i] == "data: "@ + ps[i] + seq!['\n', '\n'],
        forall|i: int| 0 <= i < ps.len() ==> !(#[trigger] ps[i]).contains('\n'),
        forall|i: int| 0 <= i < ps.len() ==> #[trigger] ps[i] != "[DONE]"@,
        forall|i: int|
            0 <= i < ps.len() && (#[trigger] ps[i]).len() > 0 ==> !white_space(ps[i][0])
                && ps[i].last() != '\r',
        chunks.flatten() == encode_utf8(frames.flatten()),
        ps.len() > 0,
        fragments.len() == ps.len(),
        forall|i: int| 0 <= i < ps.len() ==> parse(#[trigger] ps[i]) == Some(fragments[i]),
        forall|i: int| 0 <= i < fragments.len() ==> (#[trigger] fragments[i]).0.len() > 0,
        forall|i: int, j: int|
            0 <= i < fragments.len() && j == i + 1 && j < fragments.len()
                ==> !(#[trigger] fragments[i]).0.is_prefix_of((#[trigger] fragments[j]).0),
        0 <= at < fragments.len() ==> fragments[at].1 is Some,
        forall|i: int| 0 <= i < fragments.len() && at < i ==> (#[trigger] fragments[i]).1 is None,
    ensures
        ({
            let (end, delivered) = whole_run(status, chunks, parse);
            let texts = fragments.map_values(|f: Fragment| f.0);
            &&& delivered == texts
            &&& end matches Action::Complete(text, tokens) && {
                &&& text == texts.flatten()
                &&& 0 <= at < fragments.len() ==> fragments[at].1 == Some(tokens)
                &&& at < 0 ==> tokens == 0
            }
        }),
{
    let texts = fragments.map_values(|f: Fragment| f.0);
    lemma_frames(ps, frames, chunks);
    lemma_parsed(ps, fragments, parse);
    law_stream_outcome(status, chunks, parse);
    law_new_fragments_are_the_pieces(Reply::empty(), fragments);
    law_concat_flattens(texts);
    let reply = Reply::empty().absorb_each(fragments);
    assert(Reply::empty().text + concat(texts) =~= concat(texts));
    assert(seq![] + ps =~= ps);
    assert(parse_all(seq![], parse) == Some(Seq::<Fragment>::empty()));
    assert(trailing_payloads(seq![]) =~= seq![]);
    assert(reply.absorb_each(seq![]) == reply);
    law_text_only_grows(Reply::empty().absorb(fragments[0]), fragments.drop_first());
    assert(fragments[0].0.len() > 0);
    assert(Reply::empty().delta(fragments[0].0) =~= fragments[0].0);
    assert(reply.text.len() > 0);
    if 0 <= at < fragments.len() {
        law_last_token_count_stands(Reply::empty(), fragments, at);
    } else if at < 0 {
        law_token_count_stays(Reply::empty(), fragments);
    }
}

/// A server that repeats itself is not quoted twice: when its payloads, framed
/// and cut into whatever chunks, parse to fragments each of which repeats the one
/// before and goes on, the reply is the last of them, and what was delivered on
/// the way makes it up.
pub proof fn law_repeating_server_is_quoted_once(
    status: u16,
    ps: Seq<Seq<char>>,
    frames: Seq<Seq<char>>,
    chunks: Seq<Seq<u8>>,
    parse: Parser,
    fragments: Seq<Fragment>,
)
    requires
        200 <= status < 300,
        frames.len() == ps.len(),
        forall|i: int|
            0 <= i < ps.len() ==> #[trigger] frames[i] == "data: "@ + ps[i] + seq!['\n', '\n'],
        forall|i: int| 0 <= i < ps.len() ==> !(#[trigger] ps[i]).contains('\n'),
        forall|i: int| 0 <= i < ps.len() ==> #[trigger] ps[i] != "[DONE]"@,
        forall|i: int|
            0 <= i < ps.len() && (#[trigger] ps[i]).len() > 0 ==> !white_space(ps[i][0])
                && ps[i].last() != '\r',
        chunks.flatten() == encode_utf8(frames.flatten()),
        ps.len() > 0,
        fragments.len() == ps.len(),
        forall|i: int| 0 <= i < ps.len() ==> parse(#[trigger] ps[i]) == Some(fragments[i]),
        fragments[0].0.len() > 0,
        forall|i: int, j: int|
            0 <= i < fragments.len() && j == i + 1 && j < fragments.len()
                ==> (#[trigger] fragments[i]).0.is_prefix_of((#[trigger] fragments[j]).0),
    ensures
        ({
            let (end, delivered) = whole_run(status, chunks, parse);
            end matches Action::Complete(text, _) && text == fragments.last().0
                && delivered.flatten() == text
        }),
{
    lemma_frames(ps, frames, chunks);
    lemma_parsed(ps, fragments, parse);
    law_stream_outcome(status, chunks, parse);
    law_growing_fragments_come_to_the_last(Reply::empty(), fragments);
    law_concat_flattens(whole_run(status, chunks, parse).1);
    let reply = Reply::empty().absorb_each(fragments);
    assert(seq![] + ps =~= ps);
    assert(parse_all(seq![], parse) == Some(Seq::<Fragment>::empty()));
    assert(trailing_payloads(seq![]) =~= seq![]);
    assert(reply.absorb_each(seq![]) == reply);
    law_text_only_grows(Reply::empty().absorb(fragments[0]), fragments.drop_first());
    assert(Reply::empty().delta(fragments[0].0) =~= fragments[0].0);
    assert(reply.text.len() > 0);
}

/// A payload that does not parse ends the request there: it fails, whatever comes
/// behind, and what was delivered is what the stream up to that payload delivers.
pub proof fn law_unparsable_payload_ends_the_request(
    status: u16,
    ps: Seq<Seq<char>>,
    frames: Seq<Seq<char>>,
    chunks: Seq<Seq<u8>>,
    parse: Parser,
    good: Seq<Fragment>,
    earlier: Seq<Seq<u8>>,
)
    requires
        200 <= status < 300,
        frames.len() == ps.len(),
        forall|i: int|
            0 <= i < ps.len() ==> #[trigger] frames[i] == "data: "@ + ps[i] + seq!['\n', '\n'],
        forall|i: int| 0 <= i < ps.len() ==> !(#[trigger] ps[i]).contains('\n'),
        forall|i: int| 0 <= i < ps.len() ==> #[trigger] ps[i] != "[DONE]"@,
        forall|i: int|
            0 <= i < ps.len() && (#[trigger] ps[i]).len() > 0 ==> !white_space(ps[i][0])
                && ps[i].last() != '\r',
        chunks.flatten() == encode_utf8(frames.flatten()),
        good.len() < ps.len(),
        forall|i: int| 0 <= i < good.len() ==> parse(#[trigger] ps[i]) == Some(good[i]),
        parse(ps[good.len() as int]) is None,
        earlier.flatten() == encode_utf8(frames.take(good.len() as int).flatten()),
    ensures
        whole_run(status, chunks, parse).0 == Action::Fail(
            Failure::InvalidPayload { trailing: false },
        ),
        whole_run(status, chunks, parse).1 == whole_run(status, earlier, parse).1,
{
    let n = good.len() as int;
    let (some, before) = (ps.take(n), frames.take(n));
    lemma_frames(ps, frames, chunks);
    assert forall|i: int| 0 <= i < some.len() implies #[trigger] before[i] == "data: "@ + some[i]
        + seq!['\n', '\n'] by {
        assert(before[i] == frames[i]);
        assert(some[i] == ps[i]);
    }
    assert forall|i: int| 0 <= i < some.len() implies !(#[trigger] some[i]).contains('\n')
        && some[i] != "[DONE]"@ && (some[i].len() > 0 ==> !white_space(some[i][0])
        && some[i].last() != '\r') by {
        assert(some[i] == ps[i]);
    }
    lemma_frames(some, before, earlier);
    lemma_parsed(ps, good, parse);
    assert forall|i: int| 0 <= i < good.len() implies parse(#[trigger] some[i]) == Some(
        good[i],
    ) by {
        assert(some[i] == ps[i]);
    }
    lemma_parsed(some, good, parse);
    law_stream_outcome(status, chunks, parse);
    law_stream_outcome(status, earlier, parse);
    assert(seq![] + ps =~= ps);
}

/// A stream in which the model says nothing fails for that reason, and nothing is
/// delivered, however many payloads it has.
pub proof fn law_silence_is_a_failure(
    status: u16,
    ps: Seq<Seq<char>>,
    frames: Seq<Seq<char>>,
    chunks: Seq<Seq<u8>>,
    parse: Parser,
    fragments: Seq<Fragment>,
)
    requires
        200 <= status < 300,
        frames.len() == ps.len(),
        forall|i: int|
            0 <= i < ps.len() ==> #[trigger] frames[i] == "data: "@ + ps[i] + seq!['\n', '\n'],
        forall|i: int| 0 <= i < ps.len() ==> !(#[trigger] ps[i]).contains('\n'),
        forall|i: int| 0 <= i < ps.len() ==> #[trigger] ps[i] != "[DONE]"@,
        forall|i: int|
            0 <= i < ps.len() && (#[trigger] ps[i]).len() > 0 ==> !white_space(ps[i][0])
                && ps[i].last() != '\r',
        chunks.flatten() == encode_utf8(frames.flatten()),
        fragments.len() == ps.len(),
        forall|i: int| 0 <= i < ps.len() ==> parse(#[trigger] ps[i]) == Some(fragments[i]),
        forall|i: int| 0 <= i < fragments.len() ==> (#[trigger] fragments[i]).0.len() == 0,
    ensures
        whole_run(status, chunks, parse) == (
            Action::Fail(Failure::NoModelText),
            Seq::<Seq<char>>::empty(),
        ),
{
    lemma_frames(ps, frames, chunks);
    lemma_parsed(ps, fragments, parse);
    law_stream_outcome(status, chunks, parse);
    lemma_silence(Reply::empty(), fragments);
    let reply = Reply::empty().absorb_each(fragments);
    assert(seq![] + ps =~= ps);
    assert(parse_all(seq![], parse) == Some(Seq::<Fragment>::empty()));
    assert(trailing_payloads(seq![]) =~= seq![]);
    assert(reply.absorb_each(seq![]) == reply);
}

/// Fragments without text bring nothing.
proof fn lemma_silence(r: Reply, fragments: Seq<Fragment>)
    requires
        forall|i: int| 0 <= i < fragments.len() ==> (#[trigger] fragments[i]).0.len() == 0,
    ensures
        r.absorb_each(fragments).text == r.text,
        r.deltas(fragments) == Seq::<Seq<char>>::empty(),
    decreases fragments.len(),
{
    if fragments.len() > 0 {
        let rest = fragments.drop_first();
        assert(fragments[0].0.len() == 0);
        assert(r.delta(fragments[0].0).len() == 0);
        assert(r.absorb(fragments[0]).text =~= r.text);
        assert forall|i: int| 0 <= i < rest.len() implies (#[trigger] rest[i]).0.len() == 0 by {
            assert(rest[i] == fragments[i + 1]);
        }
        lemma_silence(r.absorb(fragments[0]), rest);
    }
}

/// A stream may end without the break of its last frame: that payload is used all
/// the same. What is delivered is what the whole stream delivers, and so is the
/// end, but that a last payload that does not parse is told as such.
pub proof fn law_stream_may_end_without_a_break(
    status: u16,
    ps: Seq<Seq<char>>,
    frames: Seq<Seq<char>>,
    chunks: Seq<Seq<u8>>,
    parse: Parser,
    cut: Seq<Seq<u8>>,
)
    requires
        200 <= status < 300,
        frames.len() == ps.len(),
        forall|i: int|
            0 <= i < ps.len() ==> #[trigger] frames[i] == "data: "@ + ps[i] + seq!['\n', '\n'],
        forall|i: int| 0 <= i < ps.len() ==> !(#[trigger] ps[i]).contains('\n'),
        forall|i: int| 0 <= i < ps.len() ==> #[trigger] ps[i] != "[DONE]"@,
        forall|i: int|
            0 <= i < ps.len() && (#[trigger] ps[i]).len() > 0 ==> !white_space(ps[i][0])
                && ps[i].last() != '\r',
        chunks.flatten() == encode_utf8(frames.flatten()),
        ps.len() > 0,
        cut.flatten() == encode_utf8(frames.flatten().drop_last().drop_last()),
    ensures
        whole_run(status, cut, parse).1 == whole_run(status, chunks, parse).1,
        parse(ps.last()) is Some || parse_all(ps.drop_last(), parse) is None ==> whole_run(
            status,
            cut,
            parse,
        ).0 == whole_run(status, chunks, parse).0,
        parse(ps.last()) is None && parse_all(ps.drop_last(), parse) is Some ==> whole_run(
            status,
            cut,
            parse,
        ).0 == Action::Fail(Failure::InvalidPayload { trailing: true }),
{
    lemma_frames(ps, frames, chunks);
    lemma_stream_without_a_break(ps, cut);
    lemma_end_without_a_break(status, ps, chunks, cut, parse);
}

/// What is read of frames that end without their last break.
proof fn lemma_stream_without_a_break(ps: Seq<Seq<char>>, cut: Seq<Seq<u8>>)
    requires
        ps.len() > 0,
        forall|i: int|
            0 <= i < ps.len() ==> fits_frame(#[trigger] ps[i]) && (ps[i].len() > 0 ==> ps[i].last()
                != '\r') && ps[i] != "[DONE]"@,
        cut.flatten() == encode_utf8(framed_all(ps).drop_last().drop_last()),
    ensures
        stream_payloads(Received::empty(), cut) == ps.drop_last(),
        trailing_payloads(stream_rest(Received::empty(), cut).buffer) == seq![ps.last()],
        all_payloads(Received::empty(), cut) == ps,
{
    let r = Received::empty();
    let (init, last) = (ps.drop_last(), ps.last());
    assert(ps[ps.len() - 1] == last);
    assert forall|i: int| 0 <= i < init.len() implies fits_frame(#[trigger] init[i]) && init[i]
        != "[DONE]"@ by {
        assert(init[i] == ps[i]);
    }
    lemma_frames_have_no_crlf(ps);
    reveal_strlit("data: ");
    let line = "data: "@ + last;
    let head = framed_all(init);
    let body = head + line;
    let full = framed_all(ps);
    assert(full =~= body + seq!['\n', '\n']);
    assert(full.drop_last().drop_last() =~= body);
    assert forall|i: int| 0 <= i && i + 1 < body.len() && #[trigger] body[i] == '\r' implies body[i
        + 1] != '\n' by {
        assert(full[i] == '\r');
    }
    law_bytes_are_those_of_the_chunks(cut);
    lemma_line_feeds_are_kept(body, cut);
    lemma_stream_of_bytes(cut);
    let bytes = encode_utf8(body);
    lemma_decode_encoded(body);
    law_line_feeds_stay(body);
    assert(r.residual + bytes == bytes);
    assert(r.append(bytes).buffer =~= body);
    law_frames_give_back_payloads(init);
    law_events_come_as_received(head, line);
    assert(seq![] + line =~= line);
    assert forall|j: int| 0 <= j < line.len() implies #[trigger] line[j] != '\n' by {
        if j >= 6 {
            assert(last.contains(last[j - 6]));
        }
    }
    lemma_line_alone_is_unfinished(line);
    assert(events(head) + seq![] =~= init);
    assert(unfinished(body) == line);
    assert(!blank(line)) by {
        assert(!white_space(line[0]));
    }
    law_frames_give_back_payloads(seq![last]);
    assert(seq![last].drop_last() =~= seq![]);
    assert(framed_all(seq![last].drop_last()) =~= seq![]);
    assert(framed_all(seq![last]) =~= line + seq!['\n', '\n']);
    law_without_the_mark_all_are_payloads(init);
    law_without_the_mark_all_are_payloads(seq![last]);
    assert(all_payloads(r, cut) =~= ps);
}

/// How a stream ends whose last payload came without its break.
proof fn lemma_end_without_a_break(
    status: u16,
    ps: Seq<Seq<char>>,
    chunks: Seq<Seq<u8>>,
    cut: Seq<Seq<u8>>,
    parse: Parser,
)
    requires
        200 <= status < 300,
        ps.len() > 0,
        stream_payloads(Received::empty(), chunks) == ps,
        stream_rest(Received::empty(), chunks) == Received::empty(),
        all_payloads(Received::empty(), chunks) == ps,
        stream_payloads(Received::empty(), cut) == ps.drop_last(),
        trailing_payloads(stream_rest(Received::empty(), cut).buffer) == seq![ps.last()],
        all_payloads(Received::empty(), cut) == ps,
    ensures
        whole_run(status, cut, parse).1 == whole_run(status, chunks, parse).1,
        parse(ps.last()) is Some || parse_all(ps.drop_last(), parse) is None ==> whole_run(
            status,
            cut,
            parse,
        ).0 == whole_run(status, chunks, parse).0,
        parse(ps.last()) is None && parse_all(ps.drop_last(), parse) is Some ==> whole_run(
            status,
            cut,
            parse,
        ).0 == Action::Fail(Failure::InvalidPayload { trailing: true }),
{
    let (init, last) = (ps.drop_last(), ps.last());
    assert(init.push(last) =~= ps);
    law_stream_outcome(status, cut, parse);
    law_stream_outcome(status, chunks, parse);
    assert(seq![] + ps =~= ps);
    assert(seq![] + init =~= init);
    assert(trailing_payloads(seq![]) =~= seq![]);
    assert(parse_all(seq![], parse) == Some(Seq::<Fragment>::empty()));
    lemma_parse_last(init, last, parse);
    if let Some(fs) = parse_all(init, parse) {
        let reply = Reply::empty().absorb_each(fs);
        assert(seq![last].drop_first() =~= seq![]);
        match parse(last) {
            Some(f) => {
                assert(parse_all(seq![last], parse) == Some(seq![f])) by {
                    assert(seq![f] + Seq::<Fragment>::empty() =~= seq![f]);
                }
                lemma_absorb_last(Reply::empty(), fs, f);
                let end = Reply::empty().absorb_each(fs.push(f));
                assert(end.absorb_each(seq![]) == end);
            },
            None => {},
        }
    }
}

/// A line that nothing ends yet is no event.
proof fn lemma_line_alone_is_unfinished(line: Seq<char>)
    requires
        forall|j: int| 0 <= j < line.len() ==> #[trigger] line[j] != '\n',
    ensures
        events(line) == Seq::<Seq<char>>::empty(),
        unfinished(line) == line,
{
    lemma_next_break(line, 0);
    if let Some(i) = next_break(line, 0) {
        assert(line[i] != '\n');
    }
}

/// Parsing payloads and then one more.
proof fn lemma_parse_last(init: Seq<Seq<char>>, last: Seq<char>, parse: Parser)
    ensures
        parse_all(init.push(last), parse) == match (parse_all(init, parse), parse(last)) {
            (Some(fs), Some(f)) => Some(fs.push(f)),
            _ => None,
        },
    decreases init.len(),
{
    let all = init.push(last);
    if init.len() == 0 {
        assert(all.drop_first() =~= seq![]);
        assert(parse_all(all.drop_first(), parse) == Some(Seq::<Fragment>::empty()));
        if let Some(f) = parse(last) {
            assert(seq![f] + Seq::<Fragment>::empty() =~= Seq::<Fragment>::empty().push(f));
        }
    } else {
        let rest = init.drop_first();
        lemma_parse_last(rest, last, parse);
        assert(all.drop_first() =~= rest.push(last));
        match (parse(init[0]), parse_all(rest, parse), parse(last)) {
            (Some(g), Some(fs), Some(f)) => {
                assert(seq![g] + fs.push(f) =~= (seq![g] + fs).push(f));
            },
            _ => {},
        }
    }
}

/// Absorbing fragments and then one more.
proof fn lemma_absorb_last(r: Reply, fragments: Seq<Fragment>, last: Fragment)
    ensures
        r.absorb_each(fragments.push(last)) == r.absorb_each(fragments).absorb(last),
        r.absorb_each(fragments).absorb_each(seq![last]) == r.absorb_each(fragments).absorb(last),
    decreases fragments.len(),
{
    let all = fragments.push(last);
    let end = r.absorb_each(fragments);
    assert(seq![last].drop_first() =~= seq![]);
    assert(end.absorb(last).absorb_each(seq![last].drop_first()) == end.absorb(last));
    if fragments.len() == 0 {
        assert(all.drop_first() =~= seq![]);
        assert(r.absorb(last).absorb_each(all.drop_first()) == r.absorb(last));
    } else {
        assert(all.drop_first() =~= fragments.drop_first().push(last));
        lemma_absorb_last(r.absorb(fragments[0]), fragments.drop_first(), last);
    }
}

/// White space behind the last frame, without a line feed in it, changes nothing.
pub proof fn law_trailing_white_space_is_ignored(
    status: u16,
    ps: Seq<Seq<char>>,
    frames: Seq<Seq<char>>,
    chunks: Seq<Seq<u8>>,
    parse: Parser,
    space: Seq<char>,
    spaced: Seq<Seq<u8>>,
)
    requires
        200 <= status < 300,
        frames.len() == ps.len(),
        forall|i: int|
            0 <= i < ps.len() ==> #[trigger] frames[i] == "data: "@ + ps[i] + seq!['\n', '\n'],
        forall|i: int| 0 <= i < ps.len() ==> !(#[trigger] ps[i]).contains('\n'),
        forall|i: int| 0 <= i < ps.len() ==> #[trigger] ps[i] != "[DONE]"@,
        forall|i: int|
            0 <= i < ps.len() && (#[trigger] ps[i]).len() > 0 ==> !white_space(ps[i][0])
                && ps[i].last() != '\r',
        chunks.flatten() == encode_utf8(frames.flatten()),
        blank(space),
        !space.contains('\n'),
        spaced.flatten() == encode_utf8(frames.flatten() + space),
    ensures
        whole_run(status, spaced, parse) == whole_run(status, chunks, parse),
{
    lemma_frames(ps, frames, chunks);
    lemma_stream_before_white_space(ps, space, spaced);
    assert(trailing_payloads(seq![]) =~= seq![]);
    law_stream_outcome(status, spaced, parse);
    law_stream_outcome(status, chunks, parse);
}

/// What is read of frames with white space behind them.
proof fn lemma_stream_before_white_space(
    ps: Seq<Seq<char>>,
    space: Seq<char>,
    spaced: Seq<Seq<u8>>,
)
    requires
        forall|i: int|
            0 <= i < ps.len() ==> fits_frame(#[trigger] ps[i]) && (ps[i].len() > 0 ==> ps[i].last()
                != '\r') && ps[i] != "[DONE]"@,
        blank(space),
        !space.contains('\n'),
        spaced.flatten() == encode_utf8(framed_all(ps) + space),
    ensures
        stream_payloads(Received::empty(), spaced) == ps,
        trailing_payloads(stream_rest(Received::empty(), spaced).buffer) == Seq::<
            Seq<char>,
        >::empty(),
        all_payloads(Received::empty(), spaced) == ps,
{
    let r = Received::empty();
    lemma_frames_have_no_crlf(ps);
    let head = framed_all(ps);
    let body = head + space;
    assert forall|j: int| 0 <= j < space.len() implies #[trigger] space[j] != '\n' by {
        assert(space.contains(space[j]));
    }
    assert forall|i: int| 0 <= i && i + 1 < body.len() && #[trigger] body[i] == '\r' implies body[i
        + 1] != '\n' by {
        if i + 1 < head.len() {
            assert(head[i] == '\r');
        } else {
            assert(body[i + 1] == space[i + 1 - head.len()]);
        }
    }
    law_bytes_are_those_of_the_chunks(spaced);
    lemma_line_feeds_are_kept(body, spaced);
    lemma_stream_of_bytes(spaced);
    let bytes = encode_utf8(body);
    lemma_decode_encoded(body);
    law_line_feeds_stay(body);
    assert(r.residual + bytes == bytes);
    assert(r.append(bytes).buffer =~= body);
    law_frames_give_back_payloads(ps);
    law_events_come_as_received(head, space);
    assert(seq![] + space =~= space);
    lemma_line_alone_is_unfinished(space);
    assert(events(body) =~= ps);
    law_without_the_mark_all_are_payloads(ps);
    assert(all_payloads(r, spaced) =~= ps);
    assert(trailing_payloads(seq![]) =~= seq![]);
    assert(trailing_payloads(space) =~= seq![]);
}

/// A server may end its lines with carriage returns and line feeds: the same text
/// with either line ending, when it comes at once, is understood alike.
pub proof fn law_line_endings_do_not_matter(status: u16, text: Seq<char>, parse: Parser)
    requires
        200 <= status < 300,
        !text.contains('\r'),
    ensures
        whole_run(status, seq![encode_utf8(with_crlf(text))], parse) == whole_run(
            status,
            seq![encode_utf8(text)],
            parse,
        ),
{
    let r = Received::empty();
    let other = with_crlf(text);
    let (a, b) = (encode_utf8(text), encode_utf8(other));
    assert forall|i: int| 0 <= i && i + 1 < text.len() && #[trigger] text[i] == '\r' implies text[i
        + 1] != '\n' by {
        assert(text.contains(text[i]));
    }
    law_line_feeds_stay(text);
    law_crlf_reads_as_line_feed(text);
    lemma_decode_encoded(text);
    lemma_decode_encoded(other);
    assert(r.residual + a == a);
    assert(r.residual + b == b);
    assert(r.append(a) == r.append(b));
    law_bytes_are_those_of_the_chunks(seq![a]);
    lemma_one_chunk(a);
    lemma_one_chunk(b);
    lemma_stream_of_bytes(seq![a]);
    lemma_stream_of_bytes(seq![b]);
    law_stream_outcome(status, seq![a], parse);
    law_stream_outcome(status, seq![b], parse);
}

/// The bytes of one chunk.
proof fn lemma_one_chunk(bytes: Seq<u8>)
    ensures
        all_bytes(seq![bytes]) == bytes,
{
    assert(seq![bytes].drop_first() =~= seq![]);
    assert(all_bytes(seq![bytes].drop_first()) =~= seq![]);
    assert(all_bytes(seq![bytes]) =~= bytes);
}

/// What a stream asks for it takes: whatever comes of an action is of the kind
/// that the stream then waits for. A request that is on its way takes its failure
/// and every status.
pub proof fn law_what_is_asked_for_is_expected(
    p: Progress,
    arrival: Arrival,
    bytes: Seq<u8>,
    body: Option<Seq<u8>>,
    fragment: Fragment,
    status: u16,
)
    requires
        p.expects(arrival),
    ensures
        ({
            let (q, action) = p.step(arrival);
            &&& action is ReadErrorBody ==> q.expects(Arrival::ErrorBody(body))
            &&& action is ReadChunk ==> q.expects(Arrival::Chunk(bytes)) && q.expects(
                Arrival::ChunkFailed,
            ) && q.expects(Arrival::EndOfStream)
            &&& action is Parse ==> q.expects(Arrival::Parsed(fragment)) && q.expects(
                Arrival::ParseFailed,
            )
            &&& action is Deliver ==> q.expects(Arrival::Delivered) && q.expects(
                Arrival::DeliveryFailed,
            )
        }),
        Progress::start().expects(Arrival::RequestFailed),
        100 <= status <= 999 ==> Progress::start().expects(Arrival::Responded(status)),
{
}

/// What happened and what is to be done is seen whole.
pub proof fn law_inputs_and_actions_are_seen_whole(
    text: String,
    bytes: Vec<u8>,
    status: u16,
    tokens: u32,
    resp: StreamResponse,
    error: StreamError,
)
    ensures
        StreamInput::Responded(status)@ == Arrival::Responded(status),
        StreamInput::ErrorBody(Some(bytes))@ == Arrival::ErrorBody(Some(bytes@)),
        StreamInput::Chunk(bytes)@ == Arrival::Chunk(bytes@),
        StreamInput::Parsed(resp)@ == Arrival::Parsed(
            (response_text(resp), response_tokens(resp)),
        ),
        StreamAction::Parse(text)@ == Action::Parse(text@),
        StreamAction::Deliver(text)@ == Action::Deliver(text@),
        StreamAction::Complete(text, tokens)@ == Action::Complete(text@, tokens),
        StreamAction::Fail(error)@ == Action::Fail(error@),
{
}

} // verus!
