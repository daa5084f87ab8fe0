//! Character sequences: conversion from and to strings, searching, splitting
//! and trimming.

use vstd::prelude::*;
use vstd::std_specs::iter::IteratorSpec;

verus! {

/// The characters of `s`.
pub fn to_chars(s: &str) -> (v: Vec<char>)
    ensures
        v@ == s@,
{
    let mut v: Vec<char> = Vec::new();
    let mut rest = s.chars();
    loop
        invariant
            rest.obeys_prophetic_iter_laws(),
            rest.decrease() is Some,
            v@ + rest.remaining() == s@,
        ensures
            v@ == s@,
        decreases rest.decrease()->0,
    {
        match rest.next() {
            Some(c) => {
                v.push(c);
            },
            None => {
                break ;
            },
        }
    }
    v
}

/// `String::push`: appends one character to the string.
#[verifier::external_body]
fn push_char(s: &mut String, c: char)
    ensures
        final(s)@ == old(s)@.push(c),
{
    s.push(c)
}

/// Appends the characters `v` to `dest`.
pub fn append_chars(dest: &mut String, v: &Vec<char>)
    ensures
        final(dest)@ == old(dest)@ + v@,
{
    let mut i: usize = 0;
    while i < v.len()
        invariant
            i <= v.len(),
            dest@ == old(dest)@ + v@.take(i as int),
        decreases v.len() - i,
    {
        push_char(dest, v[i]);
        i += 1;
    }
}

/// The string made of the characters `v`.
pub fn from_chars(v: &Vec<char>) -> (s: String)
    ensures
        s@ == v@,
{
    let mut s = String::new();
    append_chars(&mut s, v);
    s
}

/// A copy of `v[from..to]`.
pub fn copy_range(v: &Vec<char>, from: usize, to: usize) -> (r: Vec<char>)
    requires
        from <= to <= v.len(),
    ensures
        r@ == v@.subrange(from as int, to as int),
{
    let mut r: Vec<char> = Vec::new();
    let mut i: usize = from;
    while i < to
        invariant
            from <= i <= to <= v.len(),
            r@ == v@.subrange(from as int, i as int),
        decreases to - i,
    {
        r.push(v[i]);
        i += 1;
    }
    r
}

/// `i` is where `c` first occurs in `s`, or the length of `s` if it never does.
pub open spec fn is_first_index(s: Seq<char>, c: char, i: int) -> bool {
    &&& 0 <= i <= s.len()
    &&& i < s.len() ==> s[i] == c
    &&& forall|j: int| 0 <= j < i ==> s[j] != c
}

/// Where `c` first occurs in `s`, or the length of `s` if it never does.
pub open spec fn index_of(s: Seq<char>, c: char) -> int
    decreases s.len(),
{
    if s.len() == 0 || s[0] == c {
        0
    } else {
        1 + index_of(s.drop_first(), c)
    }
}

/// `index_of` is the first index, and nothing else is.
pub proof fn lemma_index_of(s: Seq<char>, c: char)
    ensures
        is_first_index(s, c, index_of(s, c)),
        forall|i: int| is_first_index(s, c, i) ==> i == index_of(s, c),
    decreases s.len(),
{
    if s.len() == 0 || s[0] == c {
    } else {
        let rest = s.drop_first();
        lemma_index_of(rest, c);
        let k = index_of(rest, c);
        assert forall|j: int| 0 <= j < k + 1 implies s[j] != c by {
            if j > 0 {
                assert(rest[j - 1] == s[j]);
            }
        }
        assert forall|i: int| is_first_index(s, c, i) implies i == k + 1 by {
            assert(i > 0);
            assert forall|j: int| 0 <= j < i - 1 implies rest[j] != c by {
                assert(rest[j] == s[j + 1]);
            }
            assert(is_first_index(rest, c, i - 1));
        }
    }
}

/// `c` does not occur in `s`.
pub open spec fn lacks(s: Seq<char>, c: char) -> bool {
    forall|i: int| 0 <= i < s.len() ==> s[i] != c
}

/// Where `c` first occurs in `v` at or after `from`, or the length of `v`.
pub fn find_from(v: &Vec<char>, from: usize, c: char) -> (i: usize)
    requires
        from <= v.len(),
    ensures
        from <= i <= v.len(),
        i == from + index_of(v@.skip(from as int), c),
{
    let mut i: usize = from;
    while i < v.len() && v[i] != c
        invariant
            from <= i <= v.len(),
            forall|j: int| from <= j < i ==> v@[j] != c,
        decreases v.len() - i,
    {
        i += 1;
    }
    proof {
        let tail = v@.skip(from as int);
        assert(is_first_index(tail, c, i - from));
        lemma_index_of(tail, c);
    }
    i
}

/// The pieces of `s` between occurrences of `sep`: one more than there are
/// occurrences, empty pieces included.
pub open spec fn split(s: Seq<char>, sep: char) -> Seq<Seq<char>>
    decreases s.len(),
{
    let i = index_of(s, sep);
    if 0 <= i < s.len() {
        seq![s.take(i)] + split(s.skip(i + 1), sep)
    } else {
        seq![s]
    }
}

/// A sequence in which the separator does not occur is a single piece.
pub proof fn lemma_split_whole(s: Seq<char>, sep: char)
    requires
        lacks(s, sep),
    ensures
        split(s, sep) == seq![s],
{
    lemma_index_of(s, sep);
}

/// Splitting takes off what stands before the first separator.
pub proof fn lemma_split_first(head: Seq<char>, sep: char, rest: Seq<char>)
    requires
        lacks(head, sep),
    ensures
        index_of(head + seq![sep] + rest, sep) == head.len(),
        split(head + seq![sep] + rest, sep) == seq![head] + split(rest, sep),
{
    let whole = head + seq![sep] + rest;
    let i = head.len() as int;
    assert(is_first_index(whole, sep, i));
    lemma_index_of(whole, sep);
    assert(whole.take(i) =~= head);
    assert(whole.skip(i + 1) =~= rest);
}

/// The character sequences that the vectors `fields` hold.
pub open spec fn views(fields: Seq<Vec<char>>) -> Seq<Seq<char>> {
    Seq::new(fields.len(), |i: int| fields[i]@)
}

/// Splits `v` at every occurrence of `sep`.
pub fn split_chars(v: &Vec<char>, sep: char) -> (fields: Vec<Vec<char>>)
    ensures
        views(fields@) == split(v@, sep),
{
    let mut fields: Vec<Vec<char>> = Vec::new();
    let mut start: usize = 0;
    proof {
        assert(v@.skip(0) =~= v@);
        assert(views(fields@) + split(v@, sep) =~= split(v@, sep));
    }
    loop
        invariant_except_break
            start <= v.len(),
            views(fields@) + split(v@.skip(start as int), sep) == split(v@, sep),
        ensures
            views(fields@) == split(v@, sep),
        decreases v.len() - start,
    {
        let end = find_from(v, start, sep);
        let ghost before = fields@;
        let ghost tail = v@.skip(start as int);
        fields.push(copy_range(v, start, end));
        proof {
            assert(tail.take(end - start) =~= v@.subrange(start as int, end as int));
            assert(views(fields@) =~= views(before).push(tail.take(end - start)));
        }
        if end == v.len() {
            proof {
                assert(tail.take(end - start) =~= tail);
                assert(views(fields@) =~= views(before) + split(tail, sep));
            }
            break ;
        }
        proof {
            assert(tail.skip(end - start + 1) =~= v@.skip(end + 1));
            assert(views(fields@) + split(v@.skip(end + 1), sep) =~= views(before) + split(
                tail,
                sep,
            ));
        }
        start = end + 1;
    }
    fields
}

/// `s` begins with `prefix`.
pub open spec fn has_prefix(s: Seq<char>, prefix: Seq<char>) -> bool {
    prefix.len() <= s.len() && s.take(prefix.len() as int) == prefix
}

/// Whether `v`, read from `from`, begins with `prefix`.
pub fn starts_with_at(v: &Vec<char>, from: usize, prefix: &Vec<char>) -> (b: bool)
    requires
        from <= v.len(),
    ensures
        b == has_prefix(v@.skip(from as int), prefix@),
{
    if prefix.len() > v.len() - from {
        return false;
    }
    let ghost tail = v@.skip(from as int);
    let mut i: usize = 0;
    while i < prefix.len()
        invariant
            i <= prefix.len() <= v.len() - from,
            tail == v@.skip(from as int),
            forall|j: int| 0 <= j < i ==> tail[j] == prefix@[j],
        decreases prefix.len() - i,
    {
        if v[from + i] != prefix[i] {
            proof {
                assert(tail.take(prefix.len() as int)[i as int] == tail[i as int]);
            }
            return false;
        }
        i += 1;
    }
    proof {
        assert(tail.take(prefix.len() as int) =~= prefix@);
    }
    true
}

/// What is left of `s` after every leading repetition of `token` is taken off.
pub open spec fn strip_repeated(s: Seq<char>, token: Seq<char>) -> Seq<char>
    decreases s.len(),
{
    if token.len() > 0 && has_prefix(s, token) {
        strip_repeated(s.skip(token.len() as int), token)
    } else {
        s
    }
}

/// The characters with Unicode's `White_Space` property.
pub open spec fn is_whitespace(c: char) -> bool {
    let n = c as u32;
    ||| 0x09 <= n <= 0x0D
    ||| n == 0x20
    ||| n == 0x85
    ||| n == 0xA0
    ||| n == 0x1680
    ||| 0x2000 <= n <= 0x200A
    ||| n == 0x2028
    ||| n == 0x2029
    ||| n == 0x202F
    ||| n == 0x205F
    ||| n == 0x3000
}

/// Whether `c` has Unicode's `White_Space` property.
pub fn char_is_whitespace(c: char) -> (b: bool)
    ensures
        b == is_whitespace(c),
{
    let n: u32 = c as u32;
    (0x09 <= n && n <= 0x0D) || n == 0x20 || n == 0x85 || n == 0xA0 || n == 0x1680 || (0x2000 <= n
        && n <= 0x200A) || n == 0x2028 || n == 0x2029 || n == 0x202F || n == 0x205F || n == 0x3000
}

/// `s` without its leading white space.
pub open spec fn trim_start(s: Seq<char>) -> Seq<char>
    decreases s.len(),
{
    if s.len() > 0 && is_whitespace(s[0]) {
        trim_start(s.drop_first())
    } else {
        s
    }
}

/// `s` without its trailing white space.
pub open spec fn trim_end(s: Seq<char>) -> Seq<char>
    decreases s.len(),
{
    if s.len() > 0 && is_whitespace(s.last()) {
        trim_end(s.drop_last())
    } else {
        s
    }
}

/// `s` without leading and trailing white space.
pub open spec fn trim(s: Seq<char>) -> Seq<char> {
    trim_end(trim_start(s))
}

/// Skipping `k` leading white-space characters does not change what `trim_start` gives.
proof fn lemma_trim_start_skip(s: Seq<char>, k: int)
    requires
        0 <= k <= s.len(),
        forall|j: int| 0 <= j < k ==> is_whitespace(s[j]),
    ensures
        trim_start(s) == trim_start(s.skip(k)),
    decreases k,
{
    if k == 0 {
        assert(s.skip(0) =~= s);
    } else {
        lemma_trim_start_skip(s.drop_first(), k - 1);
        assert(s.drop_first().skip(k - 1) =~= s.skip(k));
    }
}

/// Dropping `k` trailing white-space characters does not change what `trim_end` gives.
proof fn lemma_trim_end_take(s: Seq<char>, k: int)
    requires
        0 <= k <= s.len(),
        forall|j: int| k <= j < s.len() ==> is_whitespace(s[j]),
    ensures
        trim_end(s) == trim_end(s.take(k)),
    decreases s.len() - k,
{
    if k == s.len() {
        assert(s.take(k) =~= s);
    } else {
        lemma_trim_end_take(s.drop_last(), k);
        assert(s.drop_last().take(k) =~= s.take(k));
    }
}

/// `v[from..]` without leading and trailing white space.
pub fn trim_from(v: &Vec<char>, from: usize) -> (r: Vec<char>)
    requires
        from <= v.len(),
    ensures
        r@ == trim(v@.skip(from as int)),
{
    let ghost tail = v@.skip(from as int);
    let mut a: usize = from;
    while a < v.len() && char_is_whitespace(v[a])
        invariant
            from <= a <= v.len(),
            forall|j: int| from <= j < a ==> is_whitespace(v@[j]),
        decreases v.len() - a,
    {
        a += 1;
    }
    let mut b: usize = v.len();
    while b > a && char_is_whitespace(v[b - 1])
        invariant
            a <= b <= v.len(),
            forall|j: int| b <= j < v.len() ==> is_whitespace(v@[j]),
        decreases b,
    {
        b -= 1;
    }
    proof {
        let started = v@.skip(a as int);
        lemma_trim_start_skip(tail, a - from);
        assert(tail.skip(a - from) =~= started);
        assert(trim_start(started) == started);
        lemma_trim_end_take(started, b - a);
        assert(started.take(b - a) =~= v@.subrange(a as int, b as int));
        let kept = v@.subrange(a as int, b as int);
        assert(trim_end(kept) == kept);
    }
    copy_range(v, a, b)
}

} // verus!
