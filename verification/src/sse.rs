//! Server-sent events: decoding the bytes of a response into text, and cutting
//! that text into events.

use vstd::prelude::*;
use vstd::slice::{slice_subrange, slice_to_vec};
use vstd::utf8::encode_utf8;

use crate::text::{
    blank, chars_of, concat, contents, join_lines, joined_lines, law_concat_in_two,
    law_trim_start_takes_only_white_space, string_of, trim_start_of, trimmed_start,
    white_space,
};
use crate::utf8::{
    decode_prefix, decoded, law_decoding_loses_nothing, lemma_decode_encoded, lemma_decode_in_two,
    lemma_valid_up_to, undecoded,
};

verus! {

/// Whether an empty line ends at position `i` of `s`: two line feeds in a row.
pub open spec fn is_break(s: Seq<char>, i: int) -> bool {
    0 <= i && i + 1 < s.len() && s[i] == '\n' && s[i + 1] == '\n'
}

/// The position of the first break of `s` at or after `from`.
pub open spec fn next_break(s: Seq<char>, from: int) -> Option<int>
    decreases s.len() - from,
{
    if from + 1 >= s.len() {
        None
    } else if is_break(s, from) {
        Some(from)
    } else {
        next_break(s, from + 1)
    }
}

/// The blocks of `s` that a break ends, in order, without their breaks.
pub open spec fn blocks(s: Seq<char>) -> Seq<Seq<char>>
    decreases s.len(),
{
    match next_break(s, 0) {
        Some(i) => {
            proof {
                lemma_next_break(s, 0);
            }
            seq![s.take(i)] + blocks(s.skip(i + 2))
        },
        None => seq![],
    }
}

/// What follows the last break of `s` that ends a block.
pub open spec fn unfinished(s: Seq<char>) -> Seq<char>
    decreases s.len(),
{
    match next_break(s, 0) {
        Some(i) => {
            proof {
                lemma_next_break(s, 0);
            }
            unfinished(s.skip(i + 2))
        },
        None => s,
    }
}

/// `line` without one carriage return at its end.
pub open spec fn without_cr(line: Seq<char>) -> Seq<char> {
    if line.len() > 0 && line.last() == '\r' {
        line.drop_last()
    } else {
        line
    }
}

/// The position of the first line feed of `s` at or after `from`.
pub open spec fn next_line_feed(s: Seq<char>, from: int) -> Option<int>
    decreases s.len() - from,
{
    if from >= s.len() {
        None
    } else if s[from] == '\n' {
        Some(from)
    } else {
        next_line_feed(s, from + 1)
    }
}

/// The lines of `s`. A line feed ends a line, and so does a carriage return
/// with a line feed behind it; what follows the last line feed is a line unless
/// it is empty.
pub open spec fn lines(s: Seq<char>) -> Seq<Seq<char>>
    decreases s.len(),
{
    match next_line_feed(s, 0) {
        Some(i) => {
            proof {
                lemma_next_line_feed(s, 0);
            }
            seq![without_cr(s.take(i))] + lines(s.skip(i + 1))
        },
        None => if s.len() == 0 {
            seq![]
        } else {
            seq![s]
        },
    }
}

/// What a line holds as data: after the field name `data:`, without leading
/// white space. Other lines hold none.
pub open spec fn line_data(line: Seq<char>) -> Option<Seq<char>> {
    if "data:"@.is_prefix_of(line) {
        Some(trimmed_start(line.skip(5)))
    } else {
        None
    }
}

/// The data of those of `ls` that hold any, in order.
pub open spec fn data_of(ls: Seq<Seq<char>>) -> Seq<Seq<char>>
    decreases ls.len(),
{
    if ls.len() == 0 {
        seq![]
    } else {
        match line_data(ls.last()) {
            Some(d) => data_of(ls.drop_last()).push(d),
            None => data_of(ls.drop_last()),
        }
    }
}

/// The event that a block stands for: its data lines, joined by line feeds. A
/// block without data lines stands for none.
pub open spec fn block_event(block: Seq<char>) -> Option<Seq<char>> {
    let data = data_of(lines(block));
    if data.len() == 0 {
        None
    } else {
        Some(joined_lines(data))
    }
}

/// The events of `bs`, in order.
pub open spec fn block_events(bs: Seq<Seq<char>>) -> Seq<Seq<char>>
    decreases bs.len(),
{
    if bs.len() == 0 {
        seq![]
    } else {
        match block_event(bs.last()) {
            Some(e) => block_events(bs.drop_last()).push(e),
            None => block_events(bs.drop_last()),
        }
    }
}

/// The complete events of `s`, in order.
pub open spec fn events(s: Seq<char>) -> Seq<Seq<char>> {
    block_events(blocks(s))
}

/// What `next_break` finds is the first break.
pub proof fn lemma_next_break(s: Seq<char>, from: int)
    requires
        0 <= from,
    ensures
        match next_break(s, from) {
            Some(i) => from <= i && is_break(s, i) && forall|j: int|
                from <= j < i ==> !#[trigger] is_break(s, j),
            None => forall|j: int| from <= j ==> !#[trigger] is_break(s, j),
        },
    decreases s.len() - from,
{
    if from + 1 < s.len() && !is_break(s, from) {
        lemma_next_break(s, from + 1);
    }
}

/// A position that is the first break is what `next_break` finds.
proof fn lemma_next_break_is(s: Seq<char>, from: int, i: int)
    requires
        0 <= from <= i,
        is_break(s, i),
        forall|j: int| from <= j < i ==> !#[trigger] is_break(s, j),
    ensures
        next_break(s, from) == Some(i),
{
    lemma_next_break(s, from);
    let found = next_break(s, from);
    assert(is_break(s, i));
    if found.unwrap() < i {
        assert(!is_break(s, found.unwrap()));
    }
}

/// What `next_line_feed` finds is the first line feed.
pub proof fn lemma_next_line_feed(s: Seq<char>, from: int)
    requires
        0 <= from,
    ensures
        match next_line_feed(s, from) {
            Some(i) => from <= i < s.len() && s[i] == '\n' && forall|j: int|
                from <= j < i ==> #[trigger] s[j] != '\n',
            None => forall|j: int| from <= j < s.len() ==> #[trigger] s[j] != '\n',
        },
    decreases s.len() - from,
{
    if from < s.len() && s[from] != '\n' {
        lemma_next_line_feed(s, from + 1);
    }
}

/// A position that is the first line feed is what `next_line_feed` finds.
proof fn lemma_next_line_feed_is(s: Seq<char>, from: int, i: int)
    requires
        0 <= from <= i < s.len(),
        s[i] == '\n',
        forall|j: int| from <= j < i ==> #[trigger] s[j] != '\n',
    ensures
        next_line_feed(s, from) == Some(i),
{
    lemma_next_line_feed(s, from);
}

/// `s` with each carriage return that a line feed follows taken out.
pub open spec fn unified(s: Seq<char>) -> Seq<char>
    decreases s.len(),
{
    if s.len() == 0 {
        seq![]
    } else if s[0] == '\r' && s.len() > 1 && s[1] == '\n' {
        unified(s.drop_first())
    } else {
        seq![s[0]] + unified(s.drop_first())
    }
}

/// Text and bytes of a stream that were received and not yet used: the text
/// behind the last break, and the bytes behind the last whole character.
pub struct Received {
    pub buffer: Seq<char>,
    pub residual: Seq<u8>,
}

impl Received {
    /// Nothing was received yet.
    pub open spec fn empty() -> Received {
        Received { buffer: seq![], residual: seq![] }
    }

    /// What is there once `chunk` was appended.
    pub open spec fn append(self, chunk: Seq<u8>) -> Received {
        Received {
            buffer: self.buffer + unified(decoded(self.residual + chunk)),
            residual: undecoded(self.residual + chunk),
        }
    }

    /// What is there once the complete events were extracted.
    pub open spec fn drain(self) -> Received {
        Received { buffer: unfinished(self.buffer), residual: self.residual }
    }

    /// The text of two chunks meets inside a line ending: the first one's ends
    /// with a carriage return and the second one's starts with a line feed.
    pub open spec fn splits_line_ending(self, first: Seq<u8>, second: Seq<u8>) -> bool {
        let a = decoded(self.residual + first);
        let b = decoded(undecoded(self.residual + first) + second);
        a.len() > 0 && a.last() == '\r' && b.len() > 0 && b[0] == '\n'
    }
}

/// Unifying line endings in two parts that do not meet inside one.
pub proof fn lemma_unified_add(a: Seq<char>, b: Seq<char>)
    requires
        !(a.len() > 0 && a.last() == '\r' && b.len() > 0 && b[0] == '\n'),
    ensures
        unified(a + b) == unified(a) + unified(b),
    decreases a.len(),
{
    if a.len() == 0 {
        assert(a + b == b);
        assert(unified(a) + unified(b) == unified(b));
    } else {
        let rest = a.drop_first();
        if rest.len() == 0 {
            assert(unified(rest) =~= seq![]);
        }
        lemma_unified_add(rest, b);
        assert((a + b).drop_first() == rest + b);
        assert((seq![a[0]] + unified(rest)) + unified(b) == seq![a[0]] + (unified(rest) + unified(
            b,
        )));
    }
}

/// Line endings are unified part by part, where two parts do not meet inside one.
pub proof fn law_line_endings_are_unified_part_by_part(a: Seq<char>, b: Seq<char>)
    requires
        !(a.len() > 0 && a.last() == '\r' && b.len() > 0 && b[0] == '\n'),
    ensures
        unified(a + b) == unified(a) + unified(b),
{
    lemma_unified_add(a, b);
}

/// Unifying line endings keeps the last character.
pub proof fn lemma_unified_last(s: Seq<char>)
    requires
        s.len() > 0,
    ensures
        unified(s).len() > 0,
        unified(s).last() == s.last(),
    decreases s.len(),
{
    let rest = s.drop_first();
    if rest.len() > 0 {
        lemma_unified_last(rest);
    } else {
        assert(unified(rest) =~= seq![]);
    }
}

/// Whether a carriage return and then a line feed stand somewhere in `s`.
pub open spec fn has_crlf(s: Seq<char>) -> bool {
    exists|i: int| 0 <= i && i + 1 < s.len() && #[trigger] s[i] == '\r' && s[i + 1] == '\n'
}

/// Text whose line endings are line feeds alone stays as it is, even where it
/// holds carriage returns.
pub proof fn law_line_feeds_stay(s: Seq<char>)
    requires
        !has_crlf(s),
    ensures
        unified(s) == s,
    decreases s.len(),
{
    if s.len() > 0 {
        let rest = s.drop_first();
        assert forall|i: int| 0 <= i && i + 1 < rest.len() && #[trigger] rest[i]
            == '\r' implies rest[i + 1] != '\n' by {
            assert(s[i + 1] == '\r');
        }
        law_line_feeds_stay(rest);
        if s.len() > 1 && s[1] == '\n' {
            assert(s[0] != '\r');
        }
        assert(seq![s[0]] + rest == s);
    }
}

/// `s` with a carriage return put before each line feed.
pub open spec fn with_crlf(s: Seq<char>) -> Seq<char>
    decreases s.len(),
{
    if s.len() == 0 {
        seq![]
    } else if s[0] == '\n' {
        seq!['\r', '\n'] + with_crlf(s.drop_first())
    } else {
        seq![s[0]] + with_crlf(s.drop_first())
    }
}

/// A server may end its lines with a carriage return and a line feed: the text
/// is read as if line feeds alone ended them.
pub proof fn law_crlf_reads_as_line_feed(s: Seq<char>)
    ensures
        unified(with_crlf(s)) == s,
    decreases s.len(),
{
    if s.len() > 0 {
        let rest = with_crlf(s.drop_first());
        law_crlf_reads_as_line_feed(s.drop_first());
        assert(seq![s[0]] + s.drop_first() == s);
        if s[0] == '\n' {
            assert(with_crlf(s).drop_first() == seq!['\n'] + rest);
            assert((seq!['\n'] + rest).drop_first() == rest);
            assert(unified(seq!['\n'] + rest) == s);
        } else {
            assert(with_crlf(s).drop_first() == rest);
            assert(rest.len() > 0 ==> rest[0] != '\n');
        }
    }
}

/// Splitting a stream into chunks does not change its text: appending two
/// chunks leaves what appending them as one leaves, unless the cut between them
/// falls inside a line ending.
pub proof fn law_chunks_append_as_one(r: Received, first: Seq<u8>, second: Seq<u8>)
    requires
        !r.splits_line_ending(first, second),
    ensures
        r.append(first).append(second) == r.append(first + second),
{
    lemma_decode_in_two(r.residual + first, second);
    assert(r.residual + first + second == r.residual + (first + second));
    let a = decoded(r.residual + first);
    let b = decoded(undecoded(r.residual + first) + second);
    lemma_unified_add(a, b);
    assert(r.buffer + unified(a) + unified(b) == r.buffer + (unified(a) + unified(b)));
}

/// Text survives any cut: when the encoding of a text arrives in two chunks, cut
/// at any byte, even inside a character but not inside a line ending, exactly
/// that text is appended, with its line endings unified, and no byte is left
/// waiting.
pub proof fn law_text_survives_any_cut(r: Received, text: Seq<char>, cut: int)
    requires
        r.residual.len() == 0,
        0 <= cut <= encode_utf8(text).len(),
        !r.splits_line_ending(encode_utf8(text).take(cut), encode_utf8(text).skip(cut)),
    ensures
        r.append(encode_utf8(text).take(cut)).append(encode_utf8(text).skip(cut)) == (Received {
            buffer: r.buffer + unified(text),
            residual: seq![],
        }),
{
    let bytes = encode_utf8(text);
    assert(bytes.take(cut) + bytes.skip(cut) == bytes);
    assert(r.residual + bytes == bytes);
    lemma_decode_encoded(text);
    law_chunks_append_as_one(r, bytes.take(cut), bytes.skip(cut));
}

/// The first break of a text stays the first one when more text follows.
proof fn lemma_next_break_extends(s: Seq<char>, t: Seq<char>)
    requires
        next_break(s, 0) is Some,
    ensures
        next_break(s + t, 0) == next_break(s, 0),
{
    lemma_next_break(s, 0);
    let i = next_break(s, 0).unwrap();
    assert(is_break(s + t, i));
    assert forall|j: int| 0 <= j < i implies !#[trigger] is_break(s + t, j) by {
        assert(!is_break(s, j));
    }
    lemma_next_break_is(s + t, 0, i);
}

/// Extracting early loses nothing: the events of a text, followed by those of
/// what it leaves together with more text, are the events of the whole, and the
/// same text is left over.
pub proof fn law_events_come_as_received(s: Seq<char>, t: Seq<char>)
    ensures
        events(s + t) == events(s) + events(unfinished(s) + t),
        unfinished(s + t) == unfinished(unfinished(s) + t),
    decreases s.len(),
{
    match next_break(s, 0) {
        Some(i) => {
            lemma_next_break(s, 0);
            lemma_next_break_extends(s, t);
            let rest = s.skip(i + 2);
            law_events_come_as_received(rest, t);
            lemma_events_at_break(s, i);
            lemma_events_at_break(s + t, i);
            assert((s + t).take(i) == s.take(i));
            assert((s + t).skip(i + 2) == rest + t);
            let first = block_events(seq![s.take(i)]);
            assert((first + events(rest)) + events(unfinished(rest) + t) == first + (events(rest)
                + events(unfinished(rest) + t)));
        },
        None => {
            assert(events(s) + events(s + t) == events(s + t));
        },
    }
}

/// Extraction is complete: what it leaves holds no further event.
pub proof fn law_unfinished_has_no_events(s: Seq<char>)
    ensures
        events(unfinished(s)) == Seq::<Seq<char>>::empty(),
        unfinished(unfinished(s)) == unfinished(s),
        forall|i: int| !#[trigger] is_break(unfinished(s), i),
    decreases s.len(),
{
    lemma_next_break(s, 0);
    match next_break(s, 0) {
        Some(i) => {
            law_unfinished_has_no_events(s.skip(i + 2));
        },
        None => {},
    }
}

/// Text that extraction uses up ends with a break.
pub proof fn lemma_used_up_text_ends_with_line_feed(s: Seq<char>)
    requires
        s.len() > 0,
        unfinished(s).len() == 0,
    ensures
        s.last() == '\n',
    decreases s.len(),
{
    lemma_next_break(s, 0);
    let i = next_break(s, 0).unwrap();
    let rest = s.skip(i + 2);
    if rest.len() > 0 {
        lemma_used_up_text_ends_with_line_feed(rest);
    }
}

/// However a stream is cut into chunks, receiving it gives the same events and
/// leaves the same rest: extracting after each of two chunks gives, one behind
/// the other, the events that extracting once after both gives, unless the cut
/// falls inside a line ending.
pub proof fn law_events_do_not_depend_on_chunks(r: Received, first: Seq<u8>, second: Seq<u8>)
    requires
        !r.splits_line_ending(first, second),
    ensures
        ({
            let early = r.append(first);
            let late = early.drain().append(second);
            let whole = r.append(first + second);
            &&& events(early.buffer) + events(late.buffer) == events(whole.buffer)
            &&& late.drain() == whole.drain()
        }),
{
    let early = r.append(first);
    let more = unified(decoded(early.residual + second));
    law_chunks_append_as_one(r, first, second);
    law_events_come_as_received(early.buffer, more);
}

/// A payload as a server frames it: behind the field name, ended by a break.
pub open spec fn framed(payload: Seq<char>) -> Seq<char> {
    "data: "@ + payload + seq!['\n', '\n']
}

/// The frames of `payloads`, one behind the other.
pub open spec fn framed_all(payloads: Seq<Seq<char>>) -> Seq<char>
    decreases payloads.len(),
{
    if payloads.len() == 0 {
        seq![]
    } else {
        framed_all(payloads.drop_last()) + framed(payloads.last())
    }
}

/// Whether a frame can carry `payload` unchanged: it is a single line and does
/// not start with white space.
pub open spec fn fits_frame(payload: Seq<char>) -> bool {
    &&& !payload.contains('\n')
    &&& payload.len() > 0 ==> !white_space(payload[0])
}

/// One frame is one event.
proof fn lemma_framed(payload: Seq<char>)
    requires
        fits_frame(payload),
    ensures
        events(framed(payload)) == seq![payload],
        unfinished(framed(payload)) == Seq::<char>::empty(),
{
    reveal_strlit("data:");
    reveal_strlit("data: ");
    let line = "data: "@ + payload;
    let s = framed(payload);
    let n = line.len() as int;
    assert forall|j: int| 0 <= j < n implies #[trigger] line[j] != '\n' by {
        if j >= 6 {
            assert(payload.contains(payload[j - 6]));
        }
    }
    assert(is_break(s, n));
    assert forall|j: int| 0 <= j < n implies !#[trigger] is_break(s, j) by {
        assert(line[j] != '\n');
    }
    lemma_next_break_is(s, 0, n);
    lemma_events_at_break(s, n);
    assert(s.take(n) == line);
    assert(s.skip(n + 2) == Seq::<char>::empty());
    assert(next_break(Seq::<char>::empty(), 0) is None);
    lemma_next_line_feed(line, 0);
    assert(lines(line) == seq![line]);
    assert(line.subrange(0, 5) =~= "data:"@);
    assert(line.skip(5).drop_first() =~= payload);
    assert(trimmed_start(line.skip(5)) == trimmed_start(payload));
    assert(line_data(line) == Some(payload));
    assert(seq![line].drop_last() =~= seq![]);
    assert(data_of(seq![line].drop_last()) =~= seq![]);
    assert(data_of(seq![line]) =~= seq![payload]);
    assert(block_event(line) == Some(payload));
    assert(block_events(seq![line].drop_last()) =~= seq![]);
    assert(block_events(seq![line]) =~= seq![payload]);
    assert(events(s) =~= seq![payload]);
}

/// Framing and extraction are inverse: from the frames of payloads that a frame
/// can carry, extraction gives back the payloads, in order, and leaves nothing.
pub proof fn law_frames_give_back_payloads(payloads: Seq<Seq<char>>)
    requires
        forall|i: int| 0 <= i < payloads.len() ==> fits_frame(#[trigger] payloads[i]),
    ensures
        events(framed_all(payloads)) == payloads,
        unfinished(framed_all(payloads)) == Seq::<char>::empty(),
    decreases payloads.len(),
{
    if payloads.len() == 0 {
        assert(events(Seq::<char>::empty()) =~= payloads);
    } else {
        let (init, last) = (payloads.drop_last(), payloads.last());
        assert(fits_frame(payloads[payloads.len() - 1]));
        assert forall|i: int| 0 <= i < init.len() implies fits_frame(#[trigger] init[i]) by {
            assert(fits_frame(payloads[i]));
        }
        law_frames_give_back_payloads(init);
        lemma_framed(last);
        law_events_come_as_received(framed_all(init), framed(last));
        assert(unfinished(framed_all(init)) + framed(last) == framed(last));
        assert(init + seq![last] == payloads);
    }
}

/// The events of two runs of blocks, one behind the other.
proof fn lemma_block_events_add(a: Seq<Seq<char>>, b: Seq<Seq<char>>)
    ensures
        block_events(a + b) == block_events(a) + block_events(b),
    decreases b.len(),
{
    if b.len() == 0 {
        assert(a + b == a);
    } else {
        lemma_block_events_add(a, b.drop_last());
        assert((a + b).drop_last() == a + b.drop_last());
    }
}

/// The events of a text whose first break is at `i`.
proof fn lemma_events_at_break(s: Seq<char>, i: int)
    requires
        next_break(s, 0) == Some(i),
    ensures
        events(s) == block_events(seq![s.take(i)]) + events(s.skip(i + 2)),
        unfinished(s) == unfinished(s.skip(i + 2)),
{
    lemma_block_events_add(seq![s.take(i)], blocks(s.skip(i + 2)));
}

/// The data of `block[from..to]`, appended to `data` if it is a data line.
fn take_data(block: &Vec<char>, from: usize, to: usize, data: &mut Vec<String>)
    requires
        from <= to <= block@.len(),
    ensures
        contents(final(data)@) == match line_data(block@.subrange(from as int, to as int)) {
            Some(d) => contents(old(data)@).push(d),
            None => contents(old(data)@),
        },
{
    let ghost line = block@.subrange(from as int, to as int);
    proof {
        reveal_strlit("data:");
        assert("data:"@ =~= seq!['d', 'a', 't', 'a', ':']);
    }
    if to - from >= 5 && block[from] == 'd' && block[from + 1] == 'a' && block[from + 2] == 't'
        && block[from + 3] == 'a' && block[from + 4] == ':' {
        assert(line.subrange(0, 5) =~= "data:"@);
        assert(line.skip(5) == block@.subrange(from + 5, to as int));
        let rest = trim_start_of(block, from + 5, to);
        data.push(rest);
        assert(contents(data@) =~= contents(old(data)@).push(rest@));
    } else {
        assert(!"data:"@.is_prefix_of(line)) by {
            if "data:"@.is_prefix_of(line) {
                let p = line.subrange(0, 5);
                assert(p[0] == 'd' && p[1] == 'a' && p[2] == 't' && p[3] == 'a' && p[4] == ':');
            }
        }
    }
}

/// The event that a block stands for.
fn parse_block(block: &Vec<char>) -> (event: Option<String>)
    ensures
        match event {
            Some(e) => block_event(block@) == Some(e@),
            None => block_event(block@) is None,
        },
{
    let mut data: Vec<String> = Vec::new();
    let mut start: usize = 0;
    let mut i: usize = 0;
    let ghost mut done: Seq<Seq<char>> = seq![];
    assert(block@.skip(0) == block@);
    while i < block.len()
        invariant
            start <= i <= block@.len(),
            forall|j: int| start <= j < i ==> #[trigger] block@[j] != '\n',
            done + lines(block@.skip(start as int)) == lines(block@),
            contents(data@) == data_of(done),
        decreases block@.len() - i,
    {
        if block[i] == '\n' {
            let end: usize = if i > start && block[i - 1] == '\r' {
                i - 1
            } else {
                i
            };
            take_data(block, start, end, &mut data);
            proof {
                let rest = block@.skip(start as int);
                lemma_next_line_feed_is(rest, 0, i - start);
                let line = without_cr(rest.take(i - start));
                assert(line == block@.subrange(start as int, end as int));
                assert(rest.skip(i - start + 1) == block@.skip(i + 1));
                assert(done.push(line).drop_last() == done);
                done = done.push(line);
                assert(done + lines(block@.skip(i + 1)) == lines(block@));
            }
            start = i + 1;
        }
        i = i + 1;
    }
    if start < block.len() {
        take_data(block, start, block.len(), &mut data);
        proof {
            let rest = block@.skip(start as int);
            lemma_next_line_feed(rest, 0);
            assert(lines(rest) == seq![rest]);
            assert(rest == block@.subrange(start as int, block@.len() as int));
            assert(done.push(rest).drop_last() == done);
            assert(done.push(rest) == lines(block@));
        }
    } else {
        assert(lines(block@.skip(start as int)) =~= seq![]);
        assert(done == lines(block@));
    }
    assert(contents(data@) == data_of(lines(block@)));
    if data.is_empty() {
        None
    } else {
        Some(join_lines(&data))
    }
}

/// `s` with each carriage return that a line feed follows taken out.
fn unify(s: &str) -> (t: String)
    ensures
        t@ == unified(s@),
{
    let v = chars_of(s);
    let mut t = String::new();
    let mut i: usize = 0;
    assert(v@.skip(0) == v@);
    while i < v.len()
        invariant
            i <= v@.len(),
            t@ + unified(v@.skip(i as int)) == unified(v@),
        decreases v@.len() - i,
    {
        proof {
            assert(v@.skip(i as int).drop_first() == v@.skip(i + 1));
        }
        if v[i] == '\r' && v.len() - i >= 2 && v[i + 1] == '\n' {
        } else {
            t.push(v[i]);
            assert(t@ + unified(v@.skip(i + 1)) == t@.drop_last() + (seq![v@[i as int]]
                + unified(v@.skip(i + 1))));
        }
        i = i + 1;
    }
    assert(t@ + unified(v@.skip(i as int)) == t@);
    t
}

/// Appends the bytes of a chunk to the text buffer, with line endings unified.
/// Bytes that do not form valid UTF-8 wait in `residual` for the next chunk.
pub fn append_chunk(buffer: &mut String, residual: &mut Vec<u8>, chunk: &[u8])
    ensures
        (Received { buffer: final(buffer)@, residual: final(residual)@ }) == (Received {
            buffer: old(buffer)@,
            residual: old(residual)@,
        }).append(chunk@),
{
    residual.extend_from_slice(chunk);
    assert(residual@ == old(residual)@ + chunk@);
    let (valid, n) = decode_prefix(residual.as_slice());
    let addition = unify(valid);
    buffer.append(addition.as_str());
    proof {
        lemma_valid_up_to(residual@);
    }
    let rest = residual.split_off(n);
    *residual = rest;
}

/// Extracts the complete events of `buffer` and drains what they took up:
/// returns the data of each, without the field name `data:`, and leaves in
/// `buffer` what no break ends yet.
pub fn extract_events(buffer: &mut String) -> (found: Vec<String>)
    ensures
        contents(found@) == events(old(buffer)@),
        final(buffer)@ == unfinished(old(buffer)@),
{
    let text = chars_of(buffer.as_str());
    let mut found: Vec<String> = Vec::new();
    let mut start: usize = 0;
    let mut i: usize = 0;
    assert(text@.skip(0) == text@);
    assert(contents(found@) =~= seq![]);
    while i < text.len()
        invariant
            start <= text@.len(),
            start <= i,
            forall|j: int| start <= j < i ==> !#[trigger] is_break(text@, j),
            contents(found@) + events(text@.skip(start as int)) == events(text@),
            unfinished(text@.skip(start as int)) == unfinished(text@),
        decreases text@.len() - i,
    {
        if text.len() - i >= 2 && text[i] == '\n' && text[i + 1] == '\n' {
            let block = slice_to_vec(slice_subrange(text.as_slice(), start, i));
            let ghost before = contents(found@);
            let event = parse_block(&block);
            proof {
                let rest = text@.skip(start as int);
                assert(forall|j: int|
                    #[trigger] is_break(rest, j) ==> is_break(text@, j + start));
                assert(is_break(rest, i - start));
                lemma_next_break_is(rest, 0, i - start);
                lemma_events_at_break(rest, i - start);
                assert(rest.take(i - start) == block@);
                assert(rest.skip(i - start + 2) == text@.skip(i + 2));
                let one = seq![block@];
                assert(one.drop_last() == Seq::<Seq<char>>::empty());
                assert(block_events(one.drop_last()) == Seq::<Seq<char>>::empty());
            }
            if let Some(e) = event {
                found.push(e);
                assert(contents(found@) == before + seq![e@]);
            }
            proof {
                assert(contents(found@) == before + block_events(seq![block@]));
                assert(contents(found@) + events(text@.skip(i + 2)) == before + (block_events(
                    seq![block@],
                ) + events(text@.skip(i + 2))));
            }
            start = i + 2;
            i = start;
        } else {
            assert(!is_break(text@, i as int));
            i = i + 1;
        }
    }
    proof {
        let rest = text@.skip(start as int);
        assert forall|j: int| 0 <= j implies !#[trigger] is_break(rest, j) by {
            if is_break(rest, j) {
                assert(is_break(text@, j + start));
            }
        }
        lemma_next_break(rest, 0);
        assert(contents(found@) + events(rest) == contents(found@));
        assert(rest == text@.subrange(start as int, text@.len() as int));
    }
    *buffer = string_of(&text, start, text.len());
    found
}

/// Every character of a text is either in a block, or in the break behind it, or
/// unfinished: put together again they are the text. No block holds an empty
/// line, nor does it end with a line feed.
pub proof fn law_blocks_make_up_the_text(s: Seq<char>)
    ensures
        concat(blocks(s).map_values(|b: Seq<char>| b + seq!['\n', '\n'])) + unfinished(s) == s,
        forall|k: int, j: int|
            #![trigger blocks(s)[k][j]]
            0 <= k < blocks(s).len() && 0 <= j < blocks(s)[k].len() && blocks(s)[k][j] == '\n'
                ==> j + 1 < blocks(s)[k].len() && blocks(s)[k][j + 1] != '\n',
    decreases s.len(),
{
    let ended = |b: Seq<char>| b + seq!['\n', '\n'];
    lemma_next_break(s, 0);
    match next_break(s, 0) {
        Some(i) => {
            let first = s.take(i);
            let rest = s.skip(i + 2);
            law_blocks_make_up_the_text(rest);
            let bs = blocks(s);
            let cs = blocks(rest);
            assert(bs.map_values(ended) =~= seq![ended(first)] + cs.map_values(ended));
            law_concat_in_two(seq![ended(first)], cs.map_values(ended));
            let one = seq![ended(first)];
            assert(one.drop_last() =~= seq![]);
            assert(concat(one.drop_last()) =~= seq![]);
            assert(concat(one) =~= ended(first));
            assert(ended(first) + rest =~= s);
            assert(concat(bs.map_values(ended)) + unfinished(s) =~= ended(first) + (concat(
                cs.map_values(ended),
            ) + unfinished(rest)));
            assert forall|k: int, j: int|
                #![trigger bs[k][j]]
                0 <= k < bs.len() && 0 <= j < bs[k].len() && bs[k][j] == '\n' implies j + 1
                < bs[k].len() && bs[k][j + 1] != '\n' by {
                if k == 0 {
                    assert(!is_break(s, j));
                } else {
                    assert(bs[k] == cs[k - 1]);
                    assert(cs[k - 1][j] == '\n');
                }
            }
        },
        None => {
            assert(blocks(s).map_values(ended) =~= seq![]);
            assert(concat(blocks(s).map_values(ended)) + unfinished(s) =~= s);
        },
    }
}

/// A block that an empty line ends is one event if it has data lines, and none if
/// it has not: its data lines joined, and nothing is left of it.
pub proof fn law_block_is_one_event(block: Seq<char>)
    requires
        forall|j: int|
            0 <= j < block.len() && #[trigger] block[j] == '\n' ==> j + 1 < block.len() && block[j
                + 1] != '\n',
    ensures
        ({
            let data = data_of(lines(block));
            let s = block + seq!['\n', '\n'];
            &&& data.len() > 0 ==> events(s) == seq![joined_lines(data)]
            &&& data.len() == 0 ==> events(s) == Seq::<Seq<char>>::empty()
            &&& unfinished(s) == Seq::<char>::empty()
        }),
{
    let s = block + seq!['\n', '\n'];
    let n = block.len() as int;
    assert(is_break(s, n));
    assert forall|j: int| 0 <= j < n implies !#[trigger] is_break(s, j) by {
        if s[j] == '\n' {
            assert(block[j] == '\n');
        }
    }
    lemma_next_break_is(s, 0, n);
    lemma_events_at_break(s, n);
    assert(s.take(n) =~= block);
    assert(s.skip(n + 2) =~= seq![]);
    assert(next_break(Seq::<char>::empty(), 0) is None);
    assert(events(s.skip(n + 2)) =~= seq![]);
    let one = seq![block];
    assert(one.drop_last() =~= seq![]);
    assert(block_events(one.drop_last()) =~= seq![]);
    assert(events(s) =~= block_events(one));
}

/// A line ends at the first line feed, and a carriage return before it belongs to
/// the ending. What no line feed ends is a line too, unless it is empty.
pub proof fn law_line_ends_at_line_feed(line: Seq<char>, rest: Seq<char>)
    requires
        !line.contains('\n'),
    ensures
        lines(line + seq!['\r', '\n'] + rest) == seq![line] + lines(rest),
        line.len() == 0 || line.last() != '\r' ==> lines(line + seq!['\n'] + rest) == seq![line]
            + lines(rest),
        line.len() > 0 ==> lines(line) == seq![line],
        lines(Seq::<char>::empty()) == Seq::<Seq<char>>::empty(),
{
    let n = line.len() as int;
    assert forall|j: int| 0 <= j < n implies #[trigger] line[j] != '\n' by {
        assert(line.contains(line[j]));
    }
    let s = line + seq!['\r', '\n'] + rest;
    lemma_next_line_feed_is(s, 0, n + 1);
    assert(s.take(n + 1) =~= line.push('\r'));
    assert(line.push('\r').drop_last() =~= line);
    assert(s.skip(n + 2) =~= rest);
    let t = line + seq!['\n'] + rest;
    lemma_next_line_feed_is(t, 0, n);
    assert(t.take(n) =~= line);
    assert(t.skip(n + 1) =~= rest);
    lemma_next_line_feed(line, 0);
}

/// A line holds data if it starts with the field name, and then the data is the
/// rest of it without leading white space, unchanged. Any other line holds none.
pub proof fn law_data_line_holds_its_data(
    space: Seq<char>,
    data: Seq<char>,
    other: Seq<char>,
)
    requires
        blank(space),
        data.len() > 0 ==> !white_space(data[0]),
        !"data:"@.is_prefix_of(other),
    ensures
        line_data("data:"@ + space + data) == Some(data),
        line_data(other) is None,
{
    reveal_strlit("data:");
    let line = "data:"@ + space + data;
    let rest = space + data;
    assert(line.subrange(0, 5) =~= "data:"@);
    assert(line.skip(5) =~= rest);
    law_trim_start_takes_only_white_space(rest);
    let t = trimmed_start(rest);
    let n = rest.len() - t.len();
    if n < space.len() {
        assert(t[0] == rest[n]);
        assert(white_space(space[n]));
    } else if n > space.len() {
        assert(rest.take(n)[space.len() as int] == data[0]);
    }
    assert(t =~= data);
}

/// The data lines are found line by line: each that holds data gives it, in
/// order, and the others give nothing.
pub proof fn law_data_is_found_line_by_line(
    a: Seq<Seq<char>>,
    b: Seq<Seq<char>>,
    line: Seq<char>,
)
    ensures
        data_of(a + b) == data_of(a) + data_of(b),
        data_of(seq![line]) == match line_data(line) {
            Some(d) => seq![d],
            None => Seq::<Seq<char>>::empty(),
        },
    decreases b.len(),
{
    let one = seq![line];
    assert(one.drop_last() =~= seq![]);
    assert(data_of(one.drop_last()) =~= seq![]);
    if b.len() == 0 {
        assert(a + b == a);
        assert(data_of(a) + data_of(b) == data_of(a));
    } else {
        law_data_is_found_line_by_line(a, b.drop_last(), line);
        assert((a + b).drop_last() == a + b.drop_last());
    }
}

/// Data lines under one break make one event, with a line feed between each two
/// of them.
pub proof fn law_data_lines_make_one_event(data: Seq<Seq<char>>)
    requires
        data.len() > 0,
        forall|i: int|
            0 <= i < data.len() ==> !(#[trigger] data[i]).contains('\n') && (data[i].len() > 0
                ==> !white_space(data[i][0]) && data[i].last() != '\r'),
    ensures
        ({
            let ended = data.map_values(|d: Seq<char>| "data: "@ + d + seq!['\n']);
            events(concat(ended) + seq!['\n']) == seq![joined_lines(data)]
        }),
{
    let ended = data.map_values(|d: Seq<char>| "data: "@ + d + seq!['\n']);
    let s = concat(ended);
    let block = s.drop_last();
    lemma_data_lines(data);
    assert(block + seq!['\n', '\n'] =~= s + seq!['\n']);
    law_block_is_one_event(block);
}

/// The lines of data lines.
proof fn lemma_data_lines(data: Seq<Seq<char>>)
    requires
        data.len() > 0,
        forall|i: int|
            0 <= i < data.len() ==> !(#[trigger] data[i]).contains('\n') && (data[i].len() > 0
                ==> !white_space(data[i][0]) && data[i].last() != '\r'),
    ensures
        ({
            let ended = data.map_values(|d: Seq<char>| "data: "@ + d + seq!['\n']);
            let s = concat(ended);
            let block = s.drop_last();
            &&& s.len() > 6
            &&& s[0] == 'd'
            &&& s.last() == '\n'
            &&& forall|j: int|
                0 <= j < block.len() && #[trigger] block[j] == '\n' ==> j + 1 < block.len()
                    && block[j + 1] != '\n'
            &&& data_of(lines(block)) == data
        }),
    decreases data.len(),
{
    reveal_strlit("data: ");
    reveal_strlit("data:");
    let end = |d: Seq<char>| "data: "@ + d + seq!['\n'];
    let ended = data.map_values(end);
    let s = concat(ended);
    let block = s.drop_last();
    let first = data[0];
    let line = "data: "@ + first;
    let rest = data.drop_first();
    assert(!first.contains('\n'));
    assert forall|j: int| 0 <= j < line.len() implies #[trigger] line[j] != '\n' by {
        if j >= 6 {
            assert(first.contains(first[j - 6]));
        }
    }
    assert(!line.contains('\n'));
    assert(line.last() != '\r');
    let space = seq![' '];
    assert("data:"@ + space + first =~= line);
    let none = Seq::<char>::empty();
    assert(!"data:"@.is_prefix_of(none));
    law_data_line_holds_its_data(space, first, none);
    assert(ended =~= seq![end(first)] + rest.map_values(end));
    law_concat_in_two(seq![end(first)], rest.map_values(end));
    let one = seq![end(first)];
    assert(one.drop_last() =~= seq![]);
    assert(concat(one.drop_last()) =~= seq![]);
    assert(concat(one) =~= end(first));
    if rest.len() == 0 {
        assert(rest.map_values(end) =~= seq![]);
        assert(concat(rest.map_values(end)) =~= seq![]);
        assert(s =~= end(first));
        assert(block =~= line);
        law_line_ends_at_line_feed(line, none);
        law_data_is_found_line_by_line(seq![], seq![], line);
        assert(data =~= seq![first]);
    } else {
        assert forall|i: int| 0 <= i < rest.len() implies !(#[trigger] rest[i]).contains('\n') && (
        rest[i].len() > 0 ==> !white_space(rest[i][0]) && rest[i].last() != '\r') by {
            assert(rest[i] == data[i + 1]);
        }
        lemma_data_lines(rest);
        let t = concat(rest.map_values(end));
        let later = t.drop_last();
        let n = line.len() as int;
        assert(block =~= line + seq!['\n'] + later);
        law_line_ends_at_line_feed(line, later);
        law_data_is_found_line_by_line(seq![line], lines(later), line);
        assert(data =~= seq![first] + rest);
        assert forall|j: int| 0 <= j < block.len() && #[trigger] block[j] == '\n' implies j + 1
            < block.len() && block[j + 1] != '\n' by {
            if j < n {
                assert(line[j] != '\n');
            } else if j == n {
                assert(block[n + 1] == t[0]);
            } else {
                assert(later[j - n - 1] == '\n');
            }
        }
    }
}

/// No byte is lost: what a chunk adds to the text, encoded again, and the bytes
/// that then wait are those that waited before and those of the chunk. The text
/// that was there stays in front, and extraction takes no byte that waits.
pub proof fn law_no_byte_is_lost(r: Received, chunk: Seq<u8>)
    ensures
        ({
            let text = decoded(r.residual + chunk);
            &&& r.append(chunk).buffer == r.buffer + unified(text)
            &&& encode_utf8(text) + r.append(chunk).residual == r.residual + chunk
        }),
        r.drain().residual == r.residual,
        r.drain().buffer == unfinished(r.buffer),
{
    law_decoding_loses_nothing(r.residual + chunk);
}

} // verus!
