//! The conversation so far, kept short enough to be sent with every request.

use vstd::prelude::*;

use crate::api::{message, messages, Content, Message};
use crate::text::same_text;

verus! {

/// How many messages are kept.
pub const MAX_HISTORY_LEN: usize = 10;

/// Whether a message is the user's.
pub open spec fn from_user(m: Message) -> bool {
    m.role == "user"@
}

/// The position of the first message at or after `from` that is the user's.
pub open spec fn first_from_user(history: Seq<Message>, from: int) -> Option<int>
    decreases history.len() - from,
{
    if from >= history.len() {
        None
    } else if from_user(history[from]) {
        Some(from)
    } else {
        first_from_user(history, from + 1)
    }
}

/// How many messages pruning takes from the front: so many that the limit is
/// met, and then those before the first message of the user, so that this one
/// leads. If none of the messages within the limit is the user's, one more is
/// taken.
pub open spec fn pruned_count(history: Seq<Message>) -> int {
    if history.len() <= MAX_HISTORY_LEN {
        0
    } else {
        let over = history.len() - MAX_HISTORY_LEN;
        match first_from_user(history, over) {
            Some(i) => i,
            None => over + 1,
        }
    }
}

/// What `first_from_user` finds is the first message of the user.
proof fn lemma_first_from_user(history: Seq<Message>, from: int)
    requires
        0 <= from,
    ensures
        match first_from_user(history, from) {
            Some(i) => from <= i < history.len() && from_user(history[i]) && forall|j: int|
                from <= j < i ==> !from_user(#[trigger] history[j]),
            None => forall|j: int| from <= j < history.len() ==> !from_user(#[trigger] history[j]),
        },
    decreases history.len() - from,
{
    if from < history.len() && !from_user(history[from]) {
        lemma_first_from_user(history, from + 1);
    }
}

/// A history after pruning.
pub open spec fn pruned(history: Seq<Message>) -> Seq<Message> {
    history.skip(pruned_count(history))
}

/// Trims the history to its last `MAX_HISTORY_LEN` messages, and further to the
/// first message of the user among them, which the API wants in front. If none
/// of them is the user's, one more is taken away.
pub fn prune(history: &mut Vec<Content>)
    ensures
        final(history)@ == old(history)@.skip(pruned_count(messages(old(history)@))),
        messages(final(history)@) == pruned(messages(old(history)@)),
{
    let ghost all = messages(history@);
    if history.len() <= MAX_HISTORY_LEN {
        assert(history@.skip(0) == history@);
        assert(all.skip(0) == all);
        return ;
    }
    let over: usize = history.len() - MAX_HISTORY_LEN;
    let mut start: usize = over;
    while start < history.len() && !same_text(history[start].role.as_str(), "user")
        invariant
            over <= start <= history@.len(),
            all == messages(history@),
            first_from_user(all, over as int) == first_from_user(all, start as int),
        decreases history@.len() - start,
    {
        start = start + 1;
    }
    if start == history.len() {
        start = over + 1;
    }
    let kept = history.split_off(start);
    *history = kept;
    proof {
        assert(old(history)@.skip(start as int) == old(history)@.subrange(
            start as int,
            old(history)@.len() as int,
        ));
        assert(messages(history@) == all.skip(start as int));
    }
}

/// A pruned history is within the limit, and pruning never empties one.
pub proof fn law_pruned_is_bounded(history: Seq<Message>)
    ensures
        pruned(history).len() <= MAX_HISTORY_LEN,
        history.len() > 0 ==> pruned(history).len() > 0,
{
    if history.len() > MAX_HISTORY_LEN {
        lemma_first_from_user(history, history.len() - MAX_HISTORY_LEN);
    }
}

/// Pruning takes from the front alone: what is left are the latest messages, in
/// order and unchanged, and a history within the limit is left as it is.
pub proof fn law_pruned_is_the_end(history: Seq<Message>)
    ensures
        pruned(history).is_suffix_of(history),
        history.len() <= MAX_HISTORY_LEN ==> pruned(history) == history,
{
    let kept = pruned(history);
    if history.len() > MAX_HISTORY_LEN {
        lemma_first_from_user(history, history.len() - MAX_HISTORY_LEN);
    }
    assert(history.subrange(history.len() - kept.len(), history.len() as int) == kept);
    if history.len() <= MAX_HISTORY_LEN {
        assert(history.skip(0) == history);
    }
}

/// The first message that pruning leaves is the user's, as the API asks for. For
/// that a history within the limit, which is left as it is, must start with one,
/// and of a longer one some message within the limit must be the user's.
pub proof fn law_pruned_starts_with_user(history: Seq<Message>)
    requires
        history.len() > 0,
        history.len() <= MAX_HISTORY_LEN ==> from_user(history[0]),
        history.len() > MAX_HISTORY_LEN ==> exists|i: int|
            history.len() - MAX_HISTORY_LEN <= i < history.len() && from_user(
                #[trigger] history[i],
            ),
    ensures
        pruned(history).len() > 0,
        from_user(pruned(history)[0]),
{
    if history.len() > MAX_HISTORY_LEN {
        lemma_first_from_user(history, history.len() - MAX_HISTORY_LEN);
    }
}

/// No message of the user that is within the limit is pruned.
pub proof fn law_user_messages_within_limit_stay(history: Seq<Message>, i: int)
    requires
        history.len() > MAX_HISTORY_LEN,
        history.len() - MAX_HISTORY_LEN <= i < pruned_count(history),
    ensures
        !from_user(history[i]),
{
    lemma_first_from_user(history, history.len() - MAX_HISTORY_LEN);
}

/// Every message of the user that is within the limit is among those that pruning
/// leaves, at the same distance from the end.
pub proof fn law_user_messages_within_limit_are_left(history: Seq<Message>, i: int)
    requires
        0 <= i < history.len(),
        history.len() - MAX_HISTORY_LEN <= i,
        history[i].role == "user"@,
    ensures
        history.len() - pruned(history).len() <= i,
        pruned(history)[i - (history.len() - pruned(history).len())] == history[i],
{
    if history.len() > MAX_HISTORY_LEN {
        lemma_first_from_user(history, history.len() - MAX_HISTORY_LEN);
    }
}

/// Where none of the messages within the limit is the user's, one more than the
/// limit asks for is pruned.
pub proof fn law_one_more_is_pruned_without_user(history: Seq<Message>)
    requires
        history.len() > MAX_HISTORY_LEN,
        forall|i: int|
            history.len() - MAX_HISTORY_LEN <= i < history.len() ==> (#[trigger] history[i]).role
                != "user"@,
    ensures
        pruned(history).len() == MAX_HISTORY_LEN - 1,
{
    lemma_first_from_user(history, history.len() - MAX_HISTORY_LEN);
}

/// A message is the user's exactly if that is its role.
pub proof fn law_role_tells_the_user(text: Seq<char>, m: Message)
    ensures
        from_user(message("user"@, text)),
        !from_user(message("model"@, text)),
        from_user(m) ==> m.role == "user"@,
{
    reveal_strlit("user");
    reveal_strlit("model");
    assert("user"@.len() != "model"@.len());
}

/// Pruning twice is pruning once.
pub proof fn law_prune_is_idempotent(history: Seq<Message>)
    ensures
        pruned(pruned(history)) == pruned(history),
{
    law_pruned_is_bounded(history);
    law_pruned_is_the_end(pruned(history));
}

/// The latest message is never pruned.
pub proof fn law_latest_message_stays(history: Seq<Message>)
    requires
        history.len() > 0,
    ensures
        pruned(history).len() > 0,
        pruned(history).last() == history.last(),
{
    if history.len() > MAX_HISTORY_LEN {
        lemma_first_from_user(history, history.len() - MAX_HISTORY_LEN);
    }
}

} // verus!
