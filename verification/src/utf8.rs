//! Decoding UTF-8 as far as it is valid.

use vstd::prelude::*;
use vstd::utf8::{
    decode_first_scalar, decode_utf8, decode_utf8_encode_utf8, encode_utf8,
    encode_utf8_decode_utf8, encode_utf8_valid_utf8,
    length_of_first_scalar, pop_first_scalar, take_first_scalar, valid_first_scalar, valid_utf8,
    valid_utf8_concat,
};

verus! {

/// The length of the longest prefix of `bytes` that is valid UTF-8.
pub open spec fn valid_up_to(bytes: Seq<u8>) -> int
    decreases bytes.len(),
{
    if bytes.len() > 0 && valid_first_scalar(bytes) {
        length_of_first_scalar(bytes) + valid_up_to(pop_first_scalar(bytes))
    } else {
        0
    }
}

/// The characters of the longest valid prefix of `bytes`.
pub open spec fn decoded(bytes: Seq<u8>) -> Seq<char> {
    decode_utf8(bytes.take(valid_up_to(bytes)))
}

/// The bytes behind the longest valid prefix of `bytes`.
pub open spec fn undecoded(bytes: Seq<u8>) -> Seq<u8> {
    bytes.skip(valid_up_to(bytes))
}

/// The first scalar of a prefix is that of the whole.
proof fn lemma_first_scalar_of_prefix(bytes: Seq<u8>, n: int)
    requires
        0 < n <= bytes.len(),
        valid_first_scalar(bytes.take(n)),
    ensures
        valid_first_scalar(bytes),
        length_of_first_scalar(bytes) == length_of_first_scalar(bytes.take(n)),
        length_of_first_scalar(bytes) <= n,
        pop_first_scalar(bytes.take(n)) == pop_first_scalar(bytes).take(
            n - length_of_first_scalar(bytes),
        ),
{
    let l = length_of_first_scalar(bytes);
    assert(bytes.take(n).subrange(l, n) =~= bytes.subrange(l, bytes.len() as int).take(n - l));
}

/// The prefix of that length is valid, and no longer one is.
pub proof fn lemma_valid_up_to(bytes: Seq<u8>)
    ensures
        0 <= valid_up_to(bytes) <= bytes.len(),
        valid_utf8(bytes.take(valid_up_to(bytes))),
        forall|n: int|
            valid_up_to(bytes) < n <= bytes.len() ==> !#[trigger] valid_utf8(bytes.take(n)),
    decreases bytes.len(),
{
    let k = valid_up_to(bytes);
    if bytes.len() > 0 && valid_first_scalar(bytes) {
        let l = length_of_first_scalar(bytes);
        let rest = pop_first_scalar(bytes);
        lemma_valid_up_to(rest);
        reveal_with_fuel(valid_utf8, 2);
        let first = take_first_scalar(bytes);
        assert(pop_first_scalar(first) =~= seq![]);
        assert(valid_utf8(first));
        valid_utf8_concat(first, rest.take(k - l));
        assert(first + rest.take(k - l) =~= bytes.take(k));
    }
    assert forall|n: int| k < n <= bytes.len() implies !#[trigger] valid_utf8(bytes.take(n)) by {
        if valid_utf8(bytes.take(n)) {
            lemma_first_scalar_of_prefix(bytes, n);
            let l = length_of_first_scalar(bytes);
            assert(!valid_utf8(pop_first_scalar(bytes).take(n - l)));
        }
    }
}

/// Decoding `a` and then what it leaves together with `b` is decoding `a + b`.
pub proof fn lemma_decode_in_two(a: Seq<u8>, b: Seq<u8>)
    ensures
        decoded(a + b) == decoded(a) + decoded(undecoded(a) + b),
        undecoded(a + b) == undecoded(undecoded(a) + b),
    decreases a.len(),
{
    if a.len() > 0 && valid_first_scalar(a) {
        let l = length_of_first_scalar(a);
        let rest = pop_first_scalar(a);
        lemma_decode_in_two(rest, b);
        assert((a + b).take(a.len() as int) == a);
        lemma_first_scalar_of_prefix(a + b, a.len() as int);
        assert(pop_first_scalar(a + b) =~= rest + b);
        lemma_decoded_step(a);
        lemma_decoded_step(a + b);
        let first = seq![decode_first_scalar(a) as char];
        assert((first + decoded(rest)) + decoded(undecoded(rest) + b) == first + (decoded(rest)
            + decoded(undecoded(rest) + b)));
    } else {
        assert(decoded(a) =~= seq![]) by {
            assert(a.take(0) =~= seq![]);
        }
        assert(undecoded(a) =~= a);
        assert(decoded(a) + decoded(undecoded(a) + b) =~= decoded(a + b));
    }
}

/// Decoding a valid first scalar, and then the rest.
proof fn lemma_decoded_step(bytes: Seq<u8>)
    requires
        bytes.len() > 0,
        valid_first_scalar(bytes),
    ensures
        decoded(bytes) == seq![decode_first_scalar(bytes) as char] + decoded(
            pop_first_scalar(bytes),
        ),
        undecoded(bytes) == undecoded(pop_first_scalar(bytes)),
{
    let l = length_of_first_scalar(bytes);
    let rest = pop_first_scalar(bytes);
    let k = valid_up_to(bytes);
    lemma_valid_up_to(bytes);
    lemma_valid_up_to(rest);
    assert(bytes.take(k).subrange(l, k) =~= rest.take(k - l));
    assert(pop_first_scalar(bytes.take(k)) =~= rest.take(k - l));
    assert(undecoded(bytes) =~= rest.skip(k - l));
}

/// Decoding the encoding of a text gives that text and leaves nothing.
pub proof fn lemma_decode_encoded(text: Seq<char>)
    ensures
        decoded(encode_utf8(text)) == text,
        undecoded(encode_utf8(text)) == Seq::<u8>::empty(),
{
    let bytes = encode_utf8(text);
    encode_utf8_valid_utf8(text);
    encode_utf8_decode_utf8(text);
    lemma_valid_up_to(bytes);
    assert(bytes.take(bytes.len() as int) == bytes);
    assert(valid_up_to(bytes) == bytes.len());
}

/// Decoding loses nothing and goes as far as it can: the bytes are the encoding
/// of the text that was decoded, followed by those that were not, and no prefix
/// that reaches further is valid.
pub proof fn law_decoding_loses_nothing(bytes: Seq<u8>)
    ensures
        encode_utf8(decoded(bytes)) + undecoded(bytes) == bytes,
        forall|n: int|
            encode_utf8(decoded(bytes)).len() < n <= bytes.len() ==> !#[trigger] valid_utf8(
                bytes.take(n),
            ),
{
    lemma_valid_up_to(bytes);
    let prefix = bytes.take(valid_up_to(bytes));
    decode_utf8_encode_utf8(prefix);
    assert(prefix + bytes.skip(valid_up_to(bytes)) == bytes);
}

/// `std::str::from_utf8`: the standard library says that it converts a slice
/// that is valid UTF-8, and that `valid_up_to` of the error is else the largest
/// index up to which the slice would have been converted.
#[verifier::external_body]
fn from_utf8(bytes: &[u8]) -> (r: Result<&str, usize>)
    ensures
        match r {
            Ok(s) => valid_utf8(bytes@) && s@ == decode_utf8(bytes@),
            Err(n) => {
                &&& !valid_utf8(bytes@)
                &&& n <= bytes@.len()
                &&& valid_utf8(bytes@.take(n as int))
                &&& forall|m: int| n < m <= bytes@.len() ==> !#[trigger] valid_utf8(bytes@.take(m))
            },
        },
{
    std::str::from_utf8(bytes).map_err(|e| e.valid_up_to())
}

/// The characters of the longest valid prefix of `bytes`, and its length.
pub fn decode_prefix(bytes: &[u8]) -> (r: (&str, usize))
    ensures
        r.0@ == decoded(bytes@),
        r.1 == valid_up_to(bytes@),
{
    proof {
        lemma_valid_up_to(bytes@);
        assert(bytes@.take(bytes@.len() as int) == bytes@);
    }
    match from_utf8(bytes) {
        Ok(s) => (s, bytes.len()),
        Err(n) => {
            let prefix = vstd::slice::slice_subrange(bytes, 0, n);
            assert(prefix@ == bytes@.take(n as int));
            match from_utf8(prefix) {
                Ok(s) => (s, n),
                Err(_) => {
                    assert(false);
                    ("", 0)
                },
            }
        },
    }
}

} // verus!
