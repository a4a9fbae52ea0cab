//! The reply of the model as it grows from the fragments that stream in.

use vstd::prelude::*;

use crate::text::{concat, strip_prefix};

verus! {

/// What one payload adds: a fragment of text, which may be empty, and the token
/// count if it reports one.
pub type Fragment = (Seq<char>, Option<u32>);

/// A reply as characters: the text so far, the last fragment that held text,
/// and the last token count.
pub struct Reply {
    pub text: Seq<char>,
    pub snapshot: Seq<char>,
    pub tokens: u32,
}

impl Reply {
    /// Before anything was said.
    pub open spec fn empty() -> Reply {
        Reply { text: seq![], snapshot: seq![], tokens: 0 }
    }

    /// What is new in `fragment`: a fragment that starts with the one before
    /// repeats it and goes on, any other one is new as a whole.
    pub open spec fn delta(self, fragment: Seq<char>) -> Seq<char> {
        if self.snapshot.is_prefix_of(fragment) {
            fragment.skip(self.snapshot.len() as int)
        } else {
            fragment
        }
    }

    /// The reply with one more fragment.
    pub open spec fn absorb(self, fragment: Fragment) -> Reply {
        Reply {
            text: self.text + self.delta(fragment.0),
            snapshot: if fragment.0.len() == 0 {
                self.snapshot
            } else {
                fragment.0
            },
            tokens: match fragment.1 {
                Some(t) => t,
                None => self.tokens,
            },
        }
    }

    /// The reply with more fragments, in order.
    pub open spec fn absorb_each(self, fragments: Seq<Fragment>) -> Reply
        decreases fragments.len(),
    {
        if fragments.len() == 0 {
            self
        } else {
            self.absorb(fragments[0]).absorb_each(fragments.drop_first())
        }
    }

    /// What is new in each of more fragments, in order, those left out that bring
    /// nothing new.
    pub open spec fn deltas(self, fragments: Seq<Fragment>) -> Seq<Seq<char>>
        decreases fragments.len(),
    {
        if fragments.len() == 0 {
            seq![]
        } else {
            let delta = self.delta(fragments[0].0);
            let later = self.absorb(fragments[0]).deltas(fragments.drop_first());
            if delta.len() == 0 {
                later
            } else {
                seq![delta] + later
            }
        }
    }
}

/// A reply under construction.
#[derive(Debug)]
pub struct Transcript {
    pub full_text: String,
    pub last_snapshot: String,
    pub final_tokens: u32,
}

impl View for Transcript {
    type V = Reply;

    open spec fn view(&self) -> Reply {
        Reply {
            text: self.full_text@,
            snapshot: self.last_snapshot@,
            tokens: self.final_tokens,
        }
    }
}

impl Transcript {
    /// Before anything was said.
    pub fn new() -> (t: Transcript)
        ensures
            t@ == Reply::empty(),
    {
        Transcript { full_text: String::new(), last_snapshot: String::new(), final_tokens: 0 }
    }

    /// Takes in one more fragment and the token count that came with it. Returns
    /// the new text, if there is any.
    pub fn absorb(&mut self, fragment: String, tokens: Option<u32>) -> (delta: Option<String>)
        ensures
            final(self)@ == old(self)@.absorb((fragment@, tokens)),
            match delta {
                Some(d) => d@.len() > 0 && d@ == old(self)@.delta(fragment@),
                None => old(self)@.delta(fragment@).len() == 0,
            },
    {
        if let Some(t) = tokens {
            self.final_tokens = t;
        }
        if fragment.as_str().is_empty() {
            assert(old(self)@.text + old(self)@.delta(fragment@) == old(self)@.text);
            return None;
        }
        let delta = match strip_prefix(fragment.as_str(), self.last_snapshot.as_str()) {
            Some(rest) => rest,
            None => fragment.clone(),
        };
        self.last_snapshot = fragment;
        if delta.as_str().is_empty() {
            assert(old(self)@.text + delta@ == old(self)@.text);
            return None;
        }
        self.full_text.append(delta.as_str());
        Some(delta)
    }
}

/// The text of a reply is never taken back: more fragments only add to it.
pub proof fn law_text_only_grows(r: Reply, fragments: Seq<Fragment>)
    ensures
        r.text.is_prefix_of(r.absorb_each(fragments).text),
    decreases fragments.len(),
{
    if fragments.len() == 0 {
        assert(r.text.subrange(0, r.text.len() as int) == r.text);
    } else {
        let next = r.absorb(fragments[0]);
        law_text_only_grows(next, fragments.drop_first());
        let end = r.absorb_each(fragments).text;
        assert(end.subrange(0, next.text.len() as int) == next.text);
        assert(end.subrange(0, r.text.len() as int) == r.text);
    }
}

/// What is new in the fragments adds up to what the text gains by them.
pub proof fn law_deltas_add_up(r: Reply, fragments: Seq<Fragment>)
    ensures
        r.absorb_each(fragments).text == r.text + concat(r.deltas(fragments)),
    decreases fragments.len(),
{
    if fragments.len() == 0 {
        assert(r.text + concat(r.deltas(fragments)) == r.text);
    } else {
        let delta = r.delta(fragments[0].0);
        let next = r.absorb(fragments[0]);
        let later = next.deltas(fragments.drop_first());
        law_deltas_add_up(next, fragments.drop_first());
        if delta.len() == 0 {
            assert(next.text == r.text);
        } else {
            let all = seq![delta] + later;
            lemma_concat_front(all);
            assert(all.drop_first() == later);
            assert(r.text + delta + concat(later) == r.text + (delta + concat(later)));
        }
    }
}

/// Whether each of `fragments` that holds text starts with the one before: it
/// repeats that and goes on.
pub open spec fn cumulative(r: Reply, fragments: Seq<Fragment>) -> bool
    decreases fragments.len(),
{
    fragments.len() > 0 ==> {
        &&& fragments[0].0.len() == 0 || r.snapshot.is_prefix_of(fragments[0].0)
        &&& cumulative(r.absorb(fragments[0]), fragments.drop_first())
    }
}

/// Whether none of `fragments` that holds text starts with the one before, as
/// far as there is one.
pub open spec fn incremental(r: Reply, fragments: Seq<Fragment>) -> bool
    decreases fragments.len(),
{
    fragments.len() > 0 ==> {
        &&& fragments[0].0.len() == 0 || r.snapshot.len() == 0 || !r.snapshot.is_prefix_of(
            fragments[0].0,
        )
        &&& incremental(r.absorb(fragments[0]), fragments.drop_first())
    }
}

/// Cumulative fragments are not counted twice: when every fragment repeats the
/// one before and goes on, the text is that of the last one.
pub proof fn law_cumulative_fragments_give_the_last(r: Reply, fragments: Seq<Fragment>)
    requires
        r.text == r.snapshot,
        cumulative(r, fragments),
    ensures
        r.absorb_each(fragments).text == r.absorb_each(fragments).snapshot,
        fragments.len() > 0 && fragments.last().0.len() > 0 ==> r.absorb_each(fragments).text
            == fragments.last().0,
    decreases fragments.len(),
{
    if fragments.len() > 0 {
        let first = fragments[0].0;
        let next = r.absorb(fragments[0]);
        let rest = fragments.drop_first();
        if first.len() > 0 {
            assert(first.subrange(0, r.snapshot.len() as int) == r.snapshot);
            assert(next.text =~= first);
        } else {
            assert(next.text =~= r.text);
        }
        law_cumulative_fragments_give_the_last(next, rest);
        if rest.len() == 0 {
            assert(next.absorb_each(rest) == next);
        }
    }
}

/// Incremental fragments all count: when no fragment starts with the one before,
/// the text is what they are one behind the other.
pub proof fn law_incremental_fragments_concatenate(r: Reply, fragments: Seq<Fragment>)
    requires
        incremental(r, fragments),
    ensures
        r.absorb_each(fragments).text == r.text + concat(
            fragments.map_values(|f: Fragment| f.0),
        ),
    decreases fragments.len(),
{
    let texts = fragments.map_values(|f: Fragment| f.0);
    if fragments.len() == 0 {
        assert(r.text + concat(texts) == r.text);
    } else {
        let first = fragments[0].0;
        let rest = fragments.drop_first();
        assert(r.delta(first) =~= first);
        law_incremental_fragments_concatenate(r.absorb(fragments[0]), rest);
        let rest_texts = rest.map_values(|f: Fragment| f.0);
        lemma_concat_front(texts);
        assert(texts.drop_first() == rest_texts);
        assert(r.text + first + concat(rest_texts) == r.text + (first + concat(rest_texts)));
    }
}

/// A concatenation, taken apart at its front.
proof fn lemma_concat_front(pieces: Seq<Seq<char>>)
    requires
        pieces.len() > 0,
    ensures
        concat(pieces) == pieces[0] + concat(pieces.drop_first()),
    decreases pieces.len(),
{
    let rest = pieces.drop_first();
    if rest.len() == 0 {
        assert(pieces.drop_last() == Seq::<Seq<char>>::empty());
        assert(concat(pieces.drop_last()) == Seq::<char>::empty());
        assert(concat(pieces) == pieces[0] + concat(rest));
    } else {
        lemma_concat_front(pieces.drop_last());
        assert(pieces.drop_last().drop_first() == rest.drop_last());
        assert(pieces[0] + concat(rest.drop_last()) + pieces.last() == pieces[0] + (concat(
            rest.drop_last(),
        ) + pieces.last()));
    }
}

/// A fragment that comes again adds no text.
pub proof fn law_repeated_fragment_adds_nothing(r: Reply, fragment: Fragment)
    ensures
        r.absorb(fragment).delta(fragment.0).len() == 0,
        r.absorb(fragment).absorb(fragment) == r.absorb(fragment),
{
    let once = r.absorb(fragment);
    assert(fragment.0.subrange(0, fragment.0.len() as int) == fragment.0);
    assert(once.text + once.delta(fragment.0) == once.text);
}

/// The last token count that was reported stands: counts before it, and
/// fragments behind it that report none, do not change it.
pub proof fn law_last_token_count_stands(r: Reply, fragments: Seq<Fragment>, at: int)
    requires
        0 <= at < fragments.len(),
        fragments[at].1 is Some,
        forall|i: int| at < i < fragments.len() ==> (#[trigger] fragments[i]).1 is None,
    ensures
        Some(r.absorb_each(fragments).tokens) == fragments[at].1,
    decreases fragments.len(),
{
    let rest = fragments.drop_first();
    let next = r.absorb(fragments[0]);
    assert forall|i: int| at - 1 < i < rest.len() implies (#[trigger] rest[i]).1 is None by {
        assert(fragments[i + 1].1 is None);
    }
    if at > 0 {
        law_last_token_count_stands(next, rest, at - 1);
    } else {
        law_token_count_stays(next, rest);
    }
}

/// Without a report the token count stays what it was.
pub proof fn law_token_count_stays(r: Reply, fragments: Seq<Fragment>)
    requires
        forall|i: int| 0 <= i < fragments.len() ==> (#[trigger] fragments[i]).1 is None,
    ensures
        r.absorb_each(fragments).tokens == r.tokens,
    decreases fragments.len(),
{
    if fragments.len() > 0 {
        let rest = fragments.drop_first();
        assert(fragments[0].1 is None);
        assert forall|i: int| 0 <= i < rest.len() implies (#[trigger] rest[i]).1 is None by {
            assert(fragments[i + 1].1 is None);
        }
        law_token_count_stays(r.absorb(fragments[0]), rest);
    }
}

/// One fragment adds what is new in it: one that repeats the last one with text
/// and goes on adds what it goes on with, any other one adds all of itself, and
/// an empty one nothing. A fragment with text is what the next one is held
/// against.
pub proof fn law_fragment_adds_what_is_new(
    r: Reply,
    fragment: Seq<char>,
    more: Seq<char>,
    tokens: Option<u32>,
)
    ensures
        r.absorb((r.snapshot + more, tokens)).text == r.text + more,
        !r.snapshot.is_prefix_of(fragment) ==> r.absorb((fragment, tokens)).text == r.text
            + fragment,
        r.absorb((Seq::empty(), tokens)).text == r.text,
        r.absorb((Seq::empty(), tokens)).snapshot == r.snapshot,
        fragment.len() > 0 ==> r.absorb((fragment, tokens)).snapshot == fragment,
{
    let whole = r.snapshot + more;
    assert(whole.subrange(0, r.snapshot.len() as int) =~= r.snapshot);
    assert(whole.skip(r.snapshot.len() as int) =~= more);
    let none = Seq::<char>::empty();
    if r.snapshot.is_prefix_of(none) {
        assert(none.skip(r.snapshot.len() as int) =~= none);
    }
    assert(r.text + r.delta(none) =~= r.text);
}

/// A token count that is reported stands as it was reported.
pub proof fn law_token_count_is_taken_over(r: Reply, text: Seq<char>, count: u32)
    ensures
        r.absorb((text, Some(count))).tokens == count,
        r.absorb((text, None)).tokens == r.tokens,
{
}

/// Fragments that hold text, none of which starts with the one before, are new
/// as they are: each is a piece of its own.
pub proof fn law_new_fragments_are_the_pieces(r: Reply, fragments: Seq<Fragment>)
    requires
        forall|i: int| 0 <= i < fragments.len() ==> (#[trigger] fragments[i]).0.len() > 0,
        fragments.len() > 0 ==> r.snapshot.len() == 0 || !r.snapshot.is_prefix_of(fragments[0].0),
        forall|i: int, j: int|
            0 <= i < fragments.len() && j == i + 1 && j < fragments.len()
                ==> !(#[trigger] fragments[i]).0.is_prefix_of((#[trigger] fragments[j]).0),
    ensures
        r.deltas(fragments) == fragments.map_values(|f: Fragment| f.0),
        r.absorb_each(fragments).text == r.text + concat(fragments.map_values(|f: Fragment| f.0)),
    decreases fragments.len(),
{
    let texts = fragments.map_values(|f: Fragment| f.0);
    law_deltas_add_up(r, fragments);
    if fragments.len() > 0 {
        let first = fragments[0];
        let rest = fragments.drop_first();
        let next = r.absorb(first);
        assert(first.0.len() > 0);
        assert(r.delta(first.0) =~= first.0);
        assert forall|i: int| 0 <= i < rest.len() implies (#[trigger] rest[i]).0.len() > 0 by {
            assert(rest[i] == fragments[i + 1]);
        }
        assert forall|i: int, j: int|
            0 <= i < rest.len() && j == i + 1 && j < rest.len() implies !(
        #[trigger] rest[i]).0.is_prefix_of((#[trigger] rest[j]).0) by {
            assert(rest[i] == fragments[i + 1]);
            assert(rest[j] == fragments[j + 1]);
        }
        if rest.len() > 0 {
            assert(rest[0] == fragments[1]);
            assert(!fragments[0].0.is_prefix_of(fragments[1].0));
        }
        law_new_fragments_are_the_pieces(next, rest);
        assert(texts =~= seq![first.0] + rest.map_values(|f: Fragment| f.0));
    } else {
        assert(r.deltas(fragments) =~= texts);
    }
}

/// Fragments each of which repeats the one before and goes on come to the last
/// one.
pub proof fn law_growing_fragments_come_to_the_last(r: Reply, fragments: Seq<Fragment>)
    requires
        fragments.len() > 0,
        r.text == r.snapshot,
        fragments[0].0.len() > 0,
        r.snapshot.is_prefix_of(fragments[0].0),
        forall|i: int, j: int|
            0 <= i < fragments.len() && j == i + 1 && j < fragments.len()
                ==> (#[trigger] fragments[i]).0.is_prefix_of((#[trigger] fragments[j]).0),
    ensures
        r.absorb_each(fragments).text == fragments.last().0,
    decreases fragments.len(),
{
    let first = fragments[0];
    let rest = fragments.drop_first();
    let next = r.absorb(first);
    assert(first.0.subrange(0, r.snapshot.len() as int) == r.snapshot);
    assert(next.text =~= first.0);
    if rest.len() > 0 {
        assert(rest[0] == fragments[1]);
        assert(fragments[0].0.is_prefix_of(fragments[1].0));
        assert forall|i: int, j: int|
            0 <= i < rest.len() && j == i + 1 && j < rest.len() implies (
        #[trigger] rest[i]).0.is_prefix_of((#[trigger] rest[j]).0) by {
            assert(rest[i] == fragments[i + 1]);
            assert(rest[j] == fragments[j + 1]);
        }
        law_growing_fragments_come_to_the_last(next, rest);
    } else {
        assert(next.absorb_each(rest) == next);
    }
}

} // verus!
