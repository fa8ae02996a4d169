//! Cutting and joining of text, seen as a sequence of characters.
use vstd::prelude::*;

verus! {

/// Index of the first `c` in `s`, or the length of `s` where there is none.
pub open spec fn find(s: Seq<char>, c: char) -> int
    decreases s.len(),
{
    if s.len() == 0 || s[0] == c {
        0
    } else {
        1 + find(s.drop_first(), c)
    }
}

/// Index of the last `c` in `s`, or -1 where there is none.
pub open spec fn rfind(s: Seq<char>, c: char) -> int
    decreases s.len(),
{
    if s.len() == 0 {
        -1
    } else if s.last() == c {
        s.len() - 1
    } else {
        rfind(s.drop_last(), c)
    }
}

/// The text before and the text after the first `c`.
pub open spec fn cut_first(s: Seq<char>, c: char) -> Option<(Seq<char>, Seq<char>)> {
    let at = find(s, c);
    if 0 <= at < s.len() {
        Some((s.take(at), s.skip(at + 1)))
    } else {
        None
    }
}

/// The text before and the text after the last `c`.
pub open spec fn cut_last(s: Seq<char>, c: char) -> Option<(Seq<char>, Seq<char>)> {
    let at = rfind(s, c);
    if at >= 0 {
        Some((s.take(at), s.skip(at + 1)))
    } else {
        None
    }
}

/// Whether `s` begins with `p`.
pub open spec fn begins_with(s: Seq<char>, p: Seq<char>) -> bool {
    p.len() <= s.len() && s.take(p.len() as int) == p
}

/// Whether `s` ends with `p`.
pub open spec fn ends_with(s: Seq<char>, p: Seq<char>) -> bool {
    p.len() <= s.len() && s.skip(s.len() - p.len()) == p
}

/// `s` without the suffix `p`, or `s` itself where it does not end with `p`.
pub open spec fn without_suffix(s: Seq<char>, p: Seq<char>) -> Seq<char> {
    if ends_with(s, p) {
        s.take(s.len() - p.len())
    } else {
        s
    }
}

/// The parts of `s` between the occurrences of `c`: one more than there are
/// occurrences.
pub open spec fn split(s: Seq<char>, c: char) -> Seq<Seq<char>>
    decreases s.len(),
{
    let at = find(s, c);
    if 0 <= at < s.len() {
        seq![s.take(at)] + split(s.skip(at + 1), c)
    } else {
        seq![s]
    }
}

/// The parts in order, with `c` between neighbours.
pub open spec fn join(parts: Seq<Seq<char>>, c: char) -> Seq<char>
    decreases parts.len(),
{
    if parts.len() == 0 {
        Seq::empty()
    } else if parts.len() == 1 {
        parts[0]
    } else {
        parts[0] + seq![c] + join(parts.drop_first(), c)
    }
}

/// `s` without the occurrences of `c` at its beginning.
pub open spec fn trim_start(s: Seq<char>, c: char) -> Seq<char>
    decreases s.len(),
{
    if s.len() > 0 && s[0] == c {
        trim_start(s.drop_first(), c)
    } else {
        s
    }
}

/// `find` is the least index that holds `c`.
pub proof fn lemma_find(s: Seq<char>, c: char)
    ensures
        0 <= find(s, c) <= s.len(),
        find(s, c) < s.len() ==> s[find(s, c)] == c,
        forall|i: int| 0 <= i < find(s, c) ==> s[i] != c,
    decreases s.len(),
{
    if s.len() > 0 && s[0] != c {
        lemma_find(s.drop_first(), c);
        assert forall|i: int| 0 <= i < find(s, c) implies s[i] != c by {
            if i > 0 {
                assert(s.drop_first()[i - 1] == s[i]);
            }
        }
    }
}

/// Only `find` is the least index that holds `c`.
pub proof fn lemma_find_is(s: Seq<char>, c: char, at: int)
    requires
        0 <= at <= s.len(),
        at < s.len() ==> s[at] == c,
        forall|i: int| 0 <= i < at ==> s[i] != c,
    ensures
        find(s, c) == at,
{
    lemma_find(s, c);
}

/// `rfind` is the greatest index that holds `c`.
pub proof fn lemma_rfind(s: Seq<char>, c: char)
    ensures
        -1 <= rfind(s, c) < s.len(),
        rfind(s, c) >= 0 ==> s[rfind(s, c)] == c,
        forall|i: int| rfind(s, c) < i < s.len() ==> s[i] != c,
    decreases s.len(),
{
    if s.len() > 0 && s.last() != c {
        lemma_rfind(s.drop_last(), c);
        assert forall|i: int| rfind(s, c) < i < s.len() implies s[i] != c by {
            if i < s.len() - 1 {
                assert(s.drop_last()[i] == s[i]);
            }
        }
    }
}

/// Only `rfind` is the greatest index that holds `c`.
pub proof fn lemma_rfind_is(s: Seq<char>, c: char, at: int)
    requires
        -1 <= at < s.len(),
        at >= 0 ==> s[at] == c,
        forall|i: int| at < i < s.len() ==> s[i] != c,
    ensures
        rfind(s, c) == at,
{
    lemma_rfind(s, c);
}

/// A joined text is at least as long as there are separators in it.
pub proof fn lemma_join_len(parts: Seq<Seq<char>>, c: char)
    ensures
        parts.len() <= join(parts, c).len() + 1,
    decreases parts.len(),
{
    if parts.len() > 1 {
        lemma_join_len(parts.drop_first(), c);
    }
}

/// Whether two texts are the same.
pub(crate) fn same_text(a: &str, b: &str) -> (same: bool)
    ensures
        same == (a@ == b@),
{
    a.to_owned() == b.to_owned()
}

/// Cuts `s` at the first `c`, which is in neither part.
pub(crate) fn split_once<'a>(s: &'a str, c: char) -> (parts: Option<(&'a str, &'a str)>)
    ensures
        parts is Some <==> cut_first(s@, c) is Some,
        parts matches Some((before, after)) ==> cut_first(s@, c) == Some((before@, after@)),
{
    let len: usize = s.unicode_len();
    let mut at: usize = 0;
    for d in it: s.chars()
        invariant
            it.seq() == s@,
            len == s@.len(),
            at == it.index(),
            forall|i: int| 0 <= i < at ==> s@[i] != c,
    {
        if d == c {
            proof {
                lemma_find_is(s@, c, at as int);
            }
            return Some((s.substring_char(0, at), s.substring_char(at + 1, len)));
        }
        at = at + 1;
    }
    proof {
        lemma_find_is(s@, c, at as int);
    }
    None
}

/// Cuts `s` at the last `c`, which is in neither part.
pub(crate) fn rsplit_once<'a>(s: &'a str, c: char) -> (parts: Option<(&'a str, &'a str)>)
    ensures
        parts is Some <==> cut_last(s@, c) is Some,
        parts matches Some((before, after)) ==> cut_last(s@, c) == Some((before@, after@)),
{
    let len: usize = s.unicode_len();
    let mut at: usize = 0;
    let mut last: Option<usize> = None;
    for d in it: s.chars()
        invariant
            it.seq() == s@,
            len == s@.len(),
            at == it.index(),
            match last {
                Some(l) => l < at && s@[l as int] == c && forall|i: int|
                    l < i < at ==> s@[i] != c,
                None => forall|i: int| 0 <= i < at ==> s@[i] != c,
            },
    {
        if d == c {
            last = Some(at);
        }
        at = at + 1;
    }
    match last {
        Some(l) => {
            proof {
                lemma_rfind_is(s@, c, l as int);
            }
            Some((s.substring_char(0, l), s.substring_char(l + 1, len)))
        },
        None => {
            proof {
                lemma_rfind_is(s@, c, -1);
            }
            None
        },
    }
}

/// The text after the prefix `p`, where `s` begins with it.
pub(crate) fn strip_prefix<'a>(s: &'a str, p: &str) -> (rest: Option<&'a str>)
    ensures
        rest is Some <==> begins_with(s@, p@),
        rest matches Some(r) ==> r@ == s@.skip(p@.len() as int),
{
    let len: usize = s.unicode_len();
    let plen: usize = p.unicode_len();
    if plen <= len && same_text(s.substring_char(0, plen), p) {
        Some(s.substring_char(plen, len))
    } else {
        None
    }
}

/// The text before the suffix `p`, where `s` ends with it.
pub(crate) fn strip_suffix<'a>(s: &'a str, p: &str) -> (rest: Option<&'a str>)
    ensures
        rest is Some <==> ends_with(s@, p@),
        rest matches Some(r) ==> r@ == s@.take(s@.len() - p@.len()),
{
    let len: usize = s.unicode_len();
    let plen: usize = p.unicode_len();
    if plen <= len && same_text(s.substring_char(len - plen, len), p) {
        Some(s.substring_char(0, len - plen))
    } else {
        None
    }
}

} // verus!
