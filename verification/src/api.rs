//! What is sent to the model API and what comes back: the request, the typed
//! response, and what the response says.

use vstd::prelude::*;

use crate::text::{concat, law_concat_flattens, law_concat_in_two};

verus! {

/// The base of every request address.
pub const API_BASE_URL: &'static str = "https://generativelanguage.googleapis.com/v1beta/models";

/// The instruction that accompanies every request.
pub const SYSTEM_PROMPT: &'static str = "You are a highly efficient, expert AI assistant. Be direct, concise, and prioritize accuracy. If the user asks a coding question, provide senior-level answers without unnecessary fluff. Respond in French unless asked otherwise.";

/// A piece of a message.
#[derive(Debug)]
pub struct Part {
    pub text: String,
}

/// A message of the conversation, with the role of its author.
#[derive(Debug)]
pub struct Content {
    pub role: String,
    pub parts: Vec<Part>,
}

/// A message as characters.
pub struct Message {
    pub role: Seq<char>,
    pub parts: Seq<Seq<char>>,
}

impl View for Content {
    type V = Message;

    open spec fn view(&self) -> Message {
        Message { role: self.role@, parts: self.parts@.map_values(|p: Part| p.text@) }
    }
}

/// The messages of a history.
pub open spec fn messages(history: Seq<Content>) -> Seq<Message> {
    history.map_values(|c: Content| c@)
}

/// A message of one part.
pub open spec fn message(role: Seq<char>, text: Seq<char>) -> Message {
    Message { role, parts: seq![text] }
}

impl Clone for Part {
    fn clone(&self) -> (copy: Self)
        ensures
            copy.text@ == self.text@,
    {
        Part { text: self.text.clone() }
    }
}

impl Clone for Content {
    fn clone(&self) -> (copy: Self)
        ensures
            copy@ == self@,
    {
        let mut parts: Vec<Part> = Vec::new();
        let mut i: usize = 0;
        while i < self.parts.len()
            invariant
                i <= self.parts@.len(),
                parts@.len() == i,
                forall|j: int| 0 <= j < i ==> #[trigger] parts@[j].text@ == self.parts@[j].text@,
            decreases self.parts@.len() - i,
        {
            parts.push(self.parts[i].clone());
            i = i + 1;
        }
        let copy = Content { role: self.role.clone(), parts };
        assert(copy@.parts == self@.parts);
        copy
    }
}

impl Content {
    /// A message of one part.
    pub fn new(role: &str, text: &str) -> (c: Content)
        ensures
            c@ == message(role@, text@),
    {
        let part = Part { text: text.to_string() };
        let mut parts: Vec<Part> = Vec::new();
        parts.push(part);
        let c = Content { role: role.to_string(), parts };
        assert(c@.parts == seq![text@]);
        c
    }
}

/// A copy of a history.
pub fn copy_history(history: &Vec<Content>) -> (copy: Vec<Content>)
    ensures
        messages(copy@) == messages(history@),
{
    let mut copy: Vec<Content> = Vec::new();
    let mut i: usize = 0;
    while i < history.len()
        invariant
            i <= history@.len(),
            copy@.len() == i,
            forall|j: int| 0 <= j < i ==> #[trigger] copy@[j]@ == history@[j]@,
        decreases history@.len() - i,
    {
        copy.push(history[i].clone());
        i = i + 1;
    }
    assert(messages(copy@) == messages(history@));
    copy
}

/// The body of a request: the conversation, and beside it an instruction that
/// is not part of it.
#[derive(Debug)]
pub struct GenerateRequest<'a> {
    pub system_instruction: Option<Content>,
    pub contents: &'a [Content],
}

impl<'a> GenerateRequest<'a> {
    /// The request that continues the conversation `history`.
    pub fn new(history: &'a [Content]) -> (r: Self)
        ensures
            r.contents@ == history@,
            r.system_instruction matches Some(c) && c@ == message("user"@, SYSTEM_PROMPT@),
    {
        GenerateRequest {
            system_instruction: Some(Content::new("user", SYSTEM_PROMPT)),
            contents: history,
        }
    }
}

/// The address of a streaming request.
pub fn request_url(base_url: &str, model_id: &str, api_key: &str) -> (url: String)
    ensures
        url@ == base_url@ + "/"@ + model_id@ + ":streamGenerateContent?alt=sse&key="@ + api_key@,
        (base_url@ + "/"@ + model_id@ + ":"@).is_prefix_of(url@),
        ("?alt=sse&key="@ + api_key@).is_suffix_of(url@),
{
    let mut url = base_url.to_string();
    url.append("/");
    url.append(model_id);
    url.append(":streamGenerateContent?alt=sse&key=");
    url.append(api_key);
    proof {
        reveal_strlit(":streamGenerateContent?alt=sse&key=");
        reveal_strlit("?alt=sse&key=");
        reveal_strlit(":");
        let start = base_url@ + "/"@ + model_id@ + ":"@;
        let end = "?alt=sse&key="@ + api_key@;
        assert(url@.subrange(0, start.len() as int) =~= start);
        assert(url@.subrange(url@.len() - end.len(), url@.len() as int) =~= end);
    }
    url
}

/// One payload of a streamed response.
#[derive(Debug)]
pub struct StreamResponse {
    pub candidates: Option<Vec<Candidate>>,
    pub usage_metadata: Option<UsageMetadata>,
}

#[derive(Debug)]
pub struct Candidate {
    pub content: Option<CandidateContent>,
}

#[derive(Debug)]
pub struct CandidateContent {
    pub parts: Vec<ResponsePart>,
}

#[derive(Debug)]
pub struct ResponsePart {
    pub text: Option<String>,
}

#[derive(Debug)]
pub struct UsageMetadata {
    pub total_token_count: Option<u32>,
}

/// What the user interface is told while a response streams in.
#[derive(Debug)]
pub enum UiEvent {
    /// More text of the reply.
    Delta(String),
    /// The whole reply, and the token count of the conversation.
    Done(String, u32),
    /// The reply failed.
    Error(String),
}

/// The text of a part, which may have none.
pub open spec fn part_text(part: ResponsePart) -> Seq<char> {
    match part.text {
        Some(t) => t@,
        None => seq![],
    }
}

/// The text of a candidate: that of its parts, in order.
pub open spec fn candidate_text(candidate: Candidate) -> Seq<char> {
    match candidate.content {
        Some(c) => concat(c.parts@.map_values(|p: ResponsePart| part_text(p))),
        None => seq![],
    }
}

/// The text of a response: that of its candidates, in order.
pub open spec fn response_text(resp: StreamResponse) -> Seq<char> {
    match resp.candidates {
        Some(cs) => concat(cs@.map_values(|c: Candidate| candidate_text(c))),
        None => seq![],
    }
}

/// The token count that a response reports, if it does.
pub open spec fn response_tokens(resp: StreamResponse) -> Option<u32> {
    match resp.usage_metadata {
        Some(m) => m.total_token_count,
        None => None,
    }
}

/// Appends the text of `parts` to `out`.
fn push_parts(parts: &Vec<ResponsePart>, out: &mut String)
    ensures
        final(out)@ == old(out)@ + concat(parts@.map_values(|p: ResponsePart| part_text(p))),
{
    let ghost texts = parts@.map_values(|p: ResponsePart| part_text(p));
    let mut i: usize = 0;
    assert(old(out)@ + concat(texts.take(0)) == old(out)@);
    while i < parts.len()
        invariant
            i <= parts@.len(),
            texts == parts@.map_values(|p: ResponsePart| part_text(p)),
            out@ == old(out)@ + concat(texts.take(i as int)),
        decreases parts@.len() - i,
    {
        let ghost before = out@;
        if let Some(t) = &parts[i].text {
            out.append(t.as_str());
        }
        proof {
            assert(out@ == before + texts[i as int]);
            assert(texts.take(i + 1).drop_last() == texts.take(i as int));
            assert(old(out)@ + concat(texts.take(i as int)) + texts[i as int] == old(out)@
                + concat(texts.take(i + 1)));
        }
        i = i + 1;
    }
    assert(texts.take(i as int) == texts);
}

/// The text of a response and the token count that it reports.
pub fn extract_text_and_tokens(resp: &StreamResponse) -> (r: (String, Option<u32>))
    ensures
        r.0@ == response_text(*resp),
        r.1 == response_tokens(*resp),
{
    let mut out = String::new();
    if let Some(candidates) = &resp.candidates {
        let ghost texts = candidates@.map_values(|c: Candidate| candidate_text(c));
        let mut i: usize = 0;
        while i < candidates.len()
            invariant
                i <= candidates@.len(),
                texts == candidates@.map_values(|c: Candidate| candidate_text(c)),
                out@ == concat(texts.take(i as int)),
            decreases candidates@.len() - i,
        {
            let ghost before = out@;
            if let Some(content) = &candidates[i].content {
                push_parts(&content.parts, &mut out);
            }
            proof {
                assert(out@ == before + texts[i as int]);
                assert(texts.take(i + 1).drop_last() == texts.take(i as int));
            }
            i = i + 1;
        }
        assert(texts.take(i as int) == texts);
    }
    let tokens = match &resp.usage_metadata {
        Some(m) => m.total_token_count,
        None => None,
    };
    (out, tokens)
}

/// The text of a response is that of all its parts, whole and in order: when
/// `texts` holds, candidate by candidate and part by part, the text of each part,
/// and nothing for a part without text, it is these one behind the other.
pub proof fn law_response_text_is_that_of_its_parts(
    resp: StreamResponse,
    candidates: Vec<Candidate>,
    texts: Seq<Seq<Seq<char>>>,
)
    requires
        resp.candidates == Some(candidates),
        texts.len() == candidates@.len(),
        forall|i: int|
            0 <= i < texts.len() ==> match (#[trigger] candidates@[i]).content {
                None => texts[i].len() == 0,
                Some(content) => {
                    &&& texts[i].len() == content.parts@.len()
                    &&& forall|j: int|
                        0 <= j < texts[i].len() ==> match (#[trigger] content.parts@[j]).text {
                            Some(t) => texts[i][j] == t@,
                            None => texts[i][j] == Seq::<char>::empty(),
                        }
                },
            },
    ensures
        response_text(resp) == texts.flatten().flatten(),
{
    let pieces = texts.map_values(|t: Seq<Seq<char>>| concat(t));
    let found = candidates@.map_values(|c: Candidate| candidate_text(c));
    assert forall|i: int| 0 <= i < texts.len() implies found[i] == pieces[i] by {
        match candidates@[i].content {
            None => {
                assert(concat(texts[i]) =~= seq![]);
            },
            Some(content) => {
                assert(content.parts@.map_values(|p: ResponsePart| part_text(p)) =~= texts[i]);
            },
        }
    }
    assert(found =~= pieces);
    lemma_concat_of_groups(texts);
    law_concat_flattens(texts.flatten());
}

/// Concatenating groups of pieces one by one, and then the groups, is
/// concatenating all pieces.
proof fn lemma_concat_of_groups(groups: Seq<Seq<Seq<char>>>)
    ensures
        concat(groups.map_values(|t: Seq<Seq<char>>| concat(t))) == concat(groups.flatten()),
    decreases groups.len(),
{
    let each = |t: Seq<Seq<char>>| concat(t);
    if groups.len() == 0 {
        assert(groups.map_values(each) =~= seq![]);
        assert(groups.flatten() =~= seq![]);
    } else {
        let first = groups[0];
        let rest = groups.drop_first();
        lemma_concat_of_groups(rest);
        assert(groups.map_values(each) =~= seq![concat(first)] + rest.map_values(each));
        law_concat_in_two(seq![concat(first)], rest.map_values(each));
        let one = seq![concat(first)];
        assert(one.drop_last() =~= seq![]);
        assert(concat(one.drop_last()) =~= seq![]);
        assert(concat(one) =~= concat(first));
        assert(groups.flatten() =~= first + rest.flatten());
        law_concat_in_two(first, rest.flatten());
    }
}

/// A response without candidates has no text.
pub proof fn law_no_candidates_no_text(resp: StreamResponse)
    requires
        resp.candidates is None,
    ensures
        response_text(resp).len() == 0,
{
}

/// The token count of a response is the one in its usage, as it stands there.
pub proof fn law_token_count_is_that_of_the_usage(resp: StreamResponse, usage: UsageMetadata)
    ensures
        resp.usage_metadata == Some(usage) ==> response_tokens(resp) == usage.total_token_count,
        resp.usage_metadata is None ==> response_tokens(resp) is None,
{
}

/// A message is seen whole: its role, and the text of each of its parts.
pub proof fn law_message_is_seen_whole(c: Content, i: int)
    requires
        0 <= i < c.parts@.len(),
    ensures
        c@.role == c.role@,
        c@.parts.len() == c.parts@.len(),
        c@.parts[i] == c.parts@[i].text@,
{
}

/// Every message of a history is seen, in its place.
pub proof fn law_history_is_seen_whole(history: Seq<Content>, i: int)
    requires
        0 <= i < history.len(),
    ensures
        messages(history).len() == history.len(),
        messages(history)[i] == history[i]@,
{
}

/// A message of one part holds its role and its text, both unchanged.
pub proof fn law_message_holds_its_text(role: Seq<char>, text: Seq<char>)
    ensures
        message(role, text).role == role,
        message(role, text).parts.len() == 1,
        message(role, text).parts[0] == text,
{
}

} // verus!
