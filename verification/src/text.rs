//! Operations on text, stated over sequences of characters.

use vstd::prelude::*;

verus! {

/// Whether `c` has the Unicode `White_Space` property.
pub open spec fn white_space(c: char) -> bool {
    ||| '\u{9}' <= c <= '\u{d}'
    ||| c == '\u{20}'
    ||| c == '\u{85}'
    ||| c == '\u{a0}'
    ||| c == '\u{1680}'
    ||| '\u{2000}' <= c <= '\u{200a}'
    ||| c == '\u{2028}'
    ||| c == '\u{2029}'
    ||| c == '\u{202f}'
    ||| c == '\u{205f}'
    ||| c == '\u{3000}'
}

/// `s` without its leading white space.
pub open spec fn trimmed_start(s: Seq<char>) -> Seq<char>
    decreases s.len(),
{
    if s.len() > 0 && white_space(s[0]) {
        trimmed_start(s.drop_first())
    } else {
        s
    }
}

/// `s` without its trailing white space.
pub open spec fn trimmed_end(s: Seq<char>) -> Seq<char>
    decreases s.len(),
{
    if s.len() > 0 && white_space(s.last()) {
        trimmed_end(s.drop_last())
    } else {
        s
    }
}

/// `s` without white space at either end.
pub open spec fn trimmed(s: Seq<char>) -> Seq<char> {
    trimmed_end(trimmed_start(s))
}

/// Whether `s` holds nothing but white space.
pub open spec fn blank(s: Seq<char>) -> bool {
    forall|i: int| 0 <= i < s.len() ==> white_space(#[trigger] s[i])
}

/// The characters of each string of `v`.
pub open spec fn contents(v: Seq<String>) -> Seq<Seq<char>> {
    v.map_values(|s: String| s@)
}

/// The concatenation of `pieces`.
pub open spec fn concat(pieces: Seq<Seq<char>>) -> Seq<char>
    decreases pieces.len(),
{
    if pieces.len() == 0 {
        seq![]
    } else {
        concat(pieces.drop_last()) + pieces.last()
    }
}

/// `pieces` in order, with a line feed between each two.
pub open spec fn joined_lines(pieces: Seq<Seq<char>>) -> Seq<char>
    decreases pieces.len(),
{
    if pieces.len() == 0 {
        seq![]
    } else if pieces.len() == 1 {
        pieces[0]
    } else {
        joined_lines(pieces.drop_last()) + seq!['\n'] + pieces.last()
    }
}

/// The digit characters of `n` in base ten, without leading zeros.
pub open spec fn decimal(n: nat) -> Seq<char>
    decreases n,
{
    if n < 10 {
        seq![digit(n)]
    } else {
        decimal(n / 10).push(digit(n % 10))
    }
}

/// The character of a single digit.
pub open spec fn digit(d: nat) -> char
    recommends
        d < 10,
{
    ('0' as u8 + d) as char
}

/// `String::push`: the standard library says that it appends the given
/// character to the end of the string.
pub assume_specification[ String::push ](s: &mut String, c: char)
    ensures
        final(s)@ == old(s)@.push(c),
;

/// Whether `c` is white space.
pub fn is_white_space(c: char) -> (b: bool)
    ensures
        b == white_space(c),
{
    ('\u{9}' <= c && c <= '\u{d}') || c == '\u{20}' || c == '\u{85}' || c == '\u{a0}' || c
        == '\u{1680}' || ('\u{2000}' <= c && c <= '\u{200a}') || c == '\u{2028}' || c == '\u{2029}'
        || c == '\u{202f}' || c == '\u{205f}' || c == '\u{3000}'
}

/// The characters of `s`, in order.
pub(crate) fn chars_of(s: &str) -> (v: Vec<char>)
    ensures
        v@ == s@,
{
    let mut v: Vec<char> = Vec::new();
    for c in iter: s.chars()
        invariant
            v@ == iter.seq().take(iter.index()),
            iter.seq() == s@,
    {
        v.push(c);
    }
    v
}

/// The characters of `v` from `from` up to `to`, as a string.
pub(crate) fn string_of(v: &Vec<char>, from: usize, to: usize) -> (s: String)
    requires
        from <= to <= v@.len(),
    ensures
        s@ == v@.subrange(from as int, to as int),
{
    let mut s = String::new();
    let mut i: usize = from;
    while i < to
        invariant
            from <= i <= to <= v@.len(),
            s@ == v@.subrange(from as int, i as int),
        decreases to - i,
    {
        s.push(v[i]);
        i = i + 1;
    }
    s
}

/// Removing a prefix of white space changes nothing in what is left after
/// trimming.
proof fn lemma_trimmed_start_skip(s: Seq<char>, n: int)
    requires
        0 <= n <= s.len(),
        forall|i: int| 0 <= i < n ==> white_space(#[trigger] s[i]),
    ensures
        trimmed_start(s) == trimmed_start(s.skip(n)),
    decreases n,
{
    if n > 0 {
        lemma_trimmed_start_skip(s.drop_first(), n - 1);
        assert(s.drop_first().skip(n - 1) == s.skip(n));
    } else {
        assert(s.skip(0) == s);
    }
}

/// Removing a suffix of white space changes nothing in what is left after
/// trimming.
proof fn lemma_trimmed_end_take(s: Seq<char>, n: int)
    requires
        0 <= n <= s.len(),
        forall|i: int| n <= i < s.len() ==> white_space(#[trigger] s[i]),
    ensures
        trimmed_end(s) == trimmed_end(s.take(n)),
    decreases s.len() - n,
{
    if n < s.len() {
        lemma_trimmed_end_take(s.drop_last(), n);
        assert(s.drop_last().take(n) == s.take(n));
    } else {
        assert(s.take(n) == s);
    }
}

/// What trimming the start leaves does not start with white space.
proof fn lemma_trimmed_start_first(s: Seq<char>)
    ensures
        trimmed_start(s).len() > 0 ==> !white_space(trimmed_start(s)[0]),
    decreases s.len(),
{
    if s.len() > 0 && white_space(s[0]) {
        lemma_trimmed_start_first(s.drop_first());
    }
}

/// What trimming the end leaves is a prefix that does not end with white space.
proof fn lemma_trimmed_end_last(s: Seq<char>)
    ensures
        trimmed_end(s).is_prefix_of(s),
        trimmed_end(s).len() > 0 ==> !white_space(trimmed_end(s).last()),
    decreases s.len(),
{
    if s.len() > 0 && white_space(s.last()) {
        lemma_trimmed_end_last(s.drop_last());
        let t = trimmed_end(s);
        assert(s.drop_last().subrange(0, t.len() as int) == t);
        assert(s.subrange(0, t.len() as int) == t);
    } else {
        assert(s.subrange(0, s.len() as int) == s);
    }
}

/// Trimming twice is trimming once.
pub proof fn law_trim_is_idempotent(s: Seq<char>)
    ensures
        trimmed(trimmed(s)) == trimmed(s),
{
    let t = trimmed_start(s);
    let u = trimmed_end(t);
    lemma_trimmed_start_first(s);
    lemma_trimmed_end_last(t);
    assert(t.subrange(0, u.len() as int) == u);
    if u.len() > 0 {
        assert(u[0] == t[0]);
    }
    assert(trimmed_start(u) == u);
    assert(trimmed_end(u) == u);
}

/// Trimming leaves nothing exactly of what is all white space.
pub proof fn law_trim_empties_blank(s: Seq<char>)
    ensures
        (trimmed(s).len() == 0) == blank(s),
{
    if blank(s) {
        lemma_trimmed_start_skip(s, s.len() as int);
        assert(s.skip(s.len() as int) == Seq::<char>::empty());
    } else {
        let i = choose|i: int| 0 <= i < s.len() && !white_space(#[trigger] s[i]);
        lemma_trimmed_start_keeps(s, i);
        let t = trimmed_start(s);
        let k = t.len() - (s.len() - i);
        assert(t[k] == s[i]);
        lemma_trimmed_end_keeps(t, k);
    }
}

/// Trimming the start takes nothing from a character on that is no white space.
proof fn lemma_trimmed_start_keeps(s: Seq<char>, i: int)
    requires
        0 <= i < s.len(),
        !white_space(s[i]),
    ensures
        s.len() - i <= trimmed_start(s).len(),
        trimmed_start(s)[trimmed_start(s).len() - (s.len() - i)] == s[i],
    decreases s.len(),
{
    if white_space(s[0]) {
        lemma_trimmed_start_keeps(s.drop_first(), i - 1);
    }
}

/// Trimming the end takes nothing up to a character that is no white space.
proof fn lemma_trimmed_end_keeps(s: Seq<char>, i: int)
    requires
        0 <= i < s.len(),
        !white_space(s[i]),
    ensures
        i < trimmed_end(s).len(),
    decreases s.len(),
{
    if white_space(s.last()) {
        lemma_trimmed_end_keeps(s.drop_last(), i);
    }
}

/// The first position of `v[from..to]` whose character is no white space, or
/// `to`.
fn skip_white_space(v: &Vec<char>, from: usize, to: usize) -> (i: usize)
    requires
        from <= to <= v@.len(),
    ensures
        from <= i <= to,
        trimmed_start(v@.subrange(from as int, to as int)) == v@.subrange(i as int, to as int),
        forall|j: int| from <= j < i ==> white_space(#[trigger] v@[j]),
        i < to ==> !white_space(v@[i as int]),
{
    let mut i: usize = from;
    while i < to && is_white_space(v[i])
        invariant
            from <= i <= to <= v@.len(),
            forall|j: int| from <= j < i ==> white_space(#[trigger] v@[j]),
        decreases to - i,
    {
        i = i + 1;
    }
    proof {
        let whole = v@.subrange(from as int, to as int);
        lemma_trimmed_start_skip(whole, i - from);
        assert(whole.skip(i - from) == v@.subrange(i as int, to as int));
    }
    i
}

/// The characters of `v[from..to]` without leading white space.
pub(crate) fn trim_start_of(v: &Vec<char>, from: usize, to: usize) -> (s: String)
    requires
        from <= to <= v@.len(),
    ensures
        s@ == trimmed_start(v@.subrange(from as int, to as int)),
{
    let i = skip_white_space(v, from, to);
    string_of(v, i, to)
}

/// `s` without white space at either end.
pub fn trim(s: &str) -> (t: String)
    ensures
        t@ == trimmed(s@),
{
    let v = chars_of(s);
    let start = skip_white_space(&v, 0, v.len());
    assert(v@.subrange(0, v@.len() as int) == v@);
    let mut end: usize = v.len();
    while end > start && is_white_space(v[end - 1])
        invariant
            start <= end <= v@.len(),
            forall|j: int| end <= j < v@.len() ==> white_space(#[trigger] v@[j]),
        decreases end,
    {
        end = end - 1;
    }
    proof {
        let rest = v@.subrange(start as int, v@.len() as int);
        lemma_trimmed_end_take(rest, end - start);
        assert(rest.take(end - start) == v@.subrange(start as int, end as int));
    }
    string_of(&v, start, end)
}

/// Whether `s` holds nothing but white space.
pub(crate) fn is_blank(s: &str) -> (b: bool)
    ensures
        b == blank(s@),
{
    let v = chars_of(s);
    let i = skip_white_space(&v, 0, v.len());
    i == v.len()
}

/// Whether `a` and `b` hold the same characters.
pub(crate) fn same_text(a: &str, b: &str) -> (r: bool)
    ensures
        r == (a@ == b@),
{
    let x = a.to_string();
    let y = b.to_string();
    x == y
}

/// Whether `s` starts with `prefix`, and if so what follows it.
pub fn strip_prefix(s: &str, prefix: &str) -> (r: Option<String>)
    ensures
        match r {
            Some(rest) => prefix@.is_prefix_of(s@) && rest@ == s@.skip(prefix@.len() as int),
            None => !prefix@.is_prefix_of(s@),
        },
{
    let v = chars_of(s);
    let p = chars_of(prefix);
    if p.len() > v.len() {
        return None;
    }
    let mut i: usize = 0;
    while i < p.len()
        invariant
            i <= p@.len() <= v@.len(),
            p@ == prefix@,
            v@ == s@,
            p@.take(i as int) == v@.take(i as int),
        decreases p@.len() - i,
    {
        if v[i] != p[i] {
            assert(s@.subrange(0, prefix@.len() as int)[i as int] != prefix@[i as int]);
            return None;
        }
        assert(p@.take(i + 1) == p@.take(i as int).push(p@[i as int]));
        assert(v@.take(i + 1) == v@.take(i as int).push(v@[i as int]));
        i = i + 1;
    }
    assert(p@.take(i as int) == prefix@);
    assert(v@.skip(i as int) == v@.subrange(i as int, v@.len() as int));
    Some(string_of(&v, i, v.len()))
}

/// The strings of `pieces` in order, with a line feed between each two.
pub(crate) fn join_lines(pieces: &Vec<String>) -> (s: String)
    ensures
        s@ == joined_lines(contents(pieces@)),
{
    let mut s = String::new();
    let ghost all = contents(pieces@);
    let mut i: usize = 0;
    while i < pieces.len()
        invariant
            i <= pieces@.len(),
            all == contents(pieces@),
            s@ == joined_lines(all.take(i as int)),
        decreases pieces@.len() - i,
    {
        if i > 0 {
            s.push('\n');
        }
        s.append(pieces[i].as_str());
        proof {
            assert(all.take(i + 1).drop_last() == all.take(i as int));
            assert(all.take(i + 1).last() == pieces@[i as int]@);
        }
        i = i + 1;
    }
    assert(all.take(i as int) == all);
    s
}

/// `n` in base ten.
pub fn to_decimal(n: u32) -> (s: String)
    ensures
        s@ == decimal(n as nat),
    decreases n,
{
    let mut s = if n < 10 {
        String::new()
    } else {
        to_decimal(n / 10)
    };
    let d: u8 = 48 + (n % 10) as u8;
    s.push(d as char);
    s
}

/// Trimming takes white space and nothing else: what is left stands in the text
/// as it was, only white space was before and behind it, and it neither starts
/// nor ends with any.
pub proof fn law_trim_takes_only_white_space(s: Seq<char>)
    ensures
        exists|i: int|
            {
                &&& 0 <= i <= i + trimmed(s).len() <= s.len()
                &&& blank(#[trigger] s.take(i))
                &&& trimmed(s) == s.subrange(i, i + trimmed(s).len())
                &&& blank(s.skip(i + trimmed(s).len()))
            },
        trimmed(s).len() > 0 ==> !white_space(trimmed(s)[0]) && !white_space(trimmed(s).last()),
{
    let t = trimmed_start(s);
    let u = trimmed_end(t);
    law_trim_start_takes_only_white_space(s);
    let i = s.len() - t.len();
    lemma_trimmed_end_last(t);
    lemma_trimmed_end_rest(t);
    assert(t.subrange(0, u.len() as int) == u);
    assert(s.subrange(i, i + u.len()) =~= u);
    assert(s.skip(i + u.len()) =~= t.skip(u.len() as int));
    assert(blank(s.take(i)));
    if u.len() > 0 {
        assert(u[0] == t[0]);
    }
}

/// Trimming the start takes white space and nothing else: what is left is the end
/// of the text, only white space was before it, and it starts with none.
pub proof fn law_trim_start_takes_only_white_space(s: Seq<char>)
    ensures
        trimmed_start(s).len() <= s.len(),
        trimmed_start(s) == s.skip(s.len() - trimmed_start(s).len()),
        blank(s.take(s.len() - trimmed_start(s).len())),
        trimmed_start(s).len() > 0 ==> !white_space(trimmed_start(s)[0]),
    decreases s.len(),
{
    if s.len() > 0 && white_space(s[0]) {
        let rest = s.drop_first();
        law_trim_start_takes_only_white_space(rest);
        let n = s.len() - trimmed_start(s).len();
        assert(rest.skip(n - 1) =~= s.skip(n));
        assert forall|i: int| 0 <= i < n implies white_space(#[trigger] s.take(n)[i]) by {
            if i > 0 {
                assert(white_space(rest.take(n - 1)[i - 1]));
            }
        }
    } else {
        assert(s.skip(0) == s);
    }
}

/// Trimming the end takes white space.
proof fn lemma_trimmed_end_rest(s: Seq<char>)
    ensures
        trimmed_end(s).len() <= s.len(),
        blank(s.skip(trimmed_end(s).len() as int)),
    decreases s.len(),
{
    if s.len() > 0 && white_space(s.last()) {
        let init = s.drop_last();
        lemma_trimmed_end_rest(init);
        let n = trimmed_end(s).len() as int;
        assert forall|i: int| 0 <= i < s.len() - n implies white_space(
            #[trigger] s.skip(n)[i],
        ) by {
            if i < s.len() - n - 1 {
                assert(white_space(init.skip(n)[i]));
            }
        }
    }
}

/// A concatenation is the pieces one behind the other, each of them whole.
pub proof fn law_concat_flattens(pieces: Seq<Seq<char>>)
    ensures
        concat(pieces) == pieces.flatten(),
{
    lemma_concat_is_flatten_alt(pieces);
    pieces.lemma_flatten_and_flatten_alt_are_equivalent();
}

proof fn lemma_concat_is_flatten_alt(pieces: Seq<Seq<char>>)
    ensures
        concat(pieces) == pieces.flatten_alt(),
    decreases pieces.len(),
{
    if pieces.len() > 0 {
        lemma_concat_is_flatten_alt(pieces.drop_last());
    }
}

/// Pieces in two groups are concatenated group by group.
pub proof fn law_concat_in_two(a: Seq<Seq<char>>, b: Seq<Seq<char>>)
    ensures
        concat(a + b) == concat(a) + concat(b),
    decreases b.len(),
{
    if b.len() == 0 {
        assert(a + b == a);
        assert(concat(a) + concat(b) == concat(a));
    } else {
        law_concat_in_two(a, b.drop_last());
        assert((a + b).drop_last() == a + b.drop_last());
        assert(concat(a) + concat(b.drop_last()) + b.last() == concat(a) + (concat(b.drop_last())
            + b.last()));
    }
}

/// Between joined pieces stands one line feed: a piece alone is left as it is,
/// and two groups of pieces are joined by one line feed between them.
pub proof fn law_lines_are_joined(piece: Seq<char>, a: Seq<Seq<char>>, b: Seq<Seq<char>>)
    requires
        a.len() > 0,
        b.len() > 0,
    ensures
        joined_lines(seq![piece]) == piece,
        joined_lines(a + b) == joined_lines(a) + seq!['\n'] + joined_lines(b),
    decreases b.len(),
{
    let ab = a + b;
    if b.len() == 1 {
        assert(ab.drop_last() == a);
        assert(b[0] == b.last());
    } else {
        let init = b.drop_last();
        law_lines_are_joined(piece, a, init);
        assert(ab.drop_last() == a + init);
        assert(joined_lines(a) + seq!['\n'] + joined_lines(init) + seq!['\n'] + b.last()
            == joined_lines(a) + seq!['\n'] + (joined_lines(init) + seq!['\n'] + b.last()));
    }
}

/// The number that digits stand for in base ten.
pub open spec fn decimal_value(s: Seq<char>) -> int
    decreases s.len(),
{
    if s.len() == 0 {
        0
    } else {
        10 * decimal_value(s.drop_last()) + (s.last() as int - '0' as int)
    }
}

/// A number that is written can be read back: it is written in digits alone, the
/// first of which is not zero if there are more, and their value is the number.
pub proof fn law_decimal_reads_back(n: nat)
    ensures
        decimal(n).len() > 0,
        forall|i: int|
            0 <= i < decimal(n).len() ==> '0' <= #[trigger] decimal(n)[i] && decimal(n)[i] <= '9',
        decimal(n).len() > 1 ==> decimal(n)[0] != '0',
        decimal_value(decimal(n)) == n,
    decreases n,
{
    if n < 10 {
        assert(decimal(n).drop_last() =~= seq![]);
        assert(decimal_value(decimal(n).drop_last()) == 0);
    } else {
        law_decimal_reads_back(n / 10);
        assert(decimal(n).drop_last() =~= decimal(n / 10));
        assert(n == 10 * (n / 10) + n % 10);
        if decimal(n / 10).len() == 1 {
            assert(n / 10 > 0);
            assert(decimal(n / 10).drop_last() =~= seq![]);
            assert(decimal_value(decimal(n / 10).drop_last()) == 0);
        }
    }
}

/// Different numbers are written differently.
pub proof fn law_decimal_tells_numbers_apart(m: nat, n: nat)
    requires
        m != n,
    ensures
        decimal(m) != decimal(n),
{
    law_decimal_reads_back(m);
    law_decimal_reads_back(n);
}

} // verus!
