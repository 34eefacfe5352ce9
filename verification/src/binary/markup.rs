//! Character-level judgements shared by the XML-based formats.
use vstd::prelude::*;

use crate::engine::model::Action;
use crate::engine::rules::{action_for, classify};
use crate::text::chars_of;

verus! {

/// The index just after the last `:` of `s`, or 0 when there is none.
pub open spec fn local_start(s: Seq<char>) -> int
    decreases s.len(),
{
    if s.len() == 0 {
        0
    } else if s.last() == ':' {
        s.len() as int
    } else {
        local_start(s.drop_last())
    }
}

/// The local part of a qualified XML name: what follows its last `:`.
pub open spec fn local_part(s: Seq<char>) -> Seq<char> {
    s.subrange(local_start(s), s.len() as int)
}

proof fn lemma_local_start(s: Seq<char>)
    ensures
        0 <= local_start(s) <= s.len(),
        forall|k: int| local_start(s) <= k < s.len() ==> s[k] != ':',
        local_start(s) > 0 ==> s[local_start(s) - 1] == ':',
    decreases s.len(),
{
    if s.len() > 0 && s.last() != ':' {
        lemma_local_start(s.drop_last());
        assert forall|k: int| local_start(s) <= k < s.len() implies s[k] != ':' by {
            if k < s.len() - 1 {
                assert(s[k] == s.drop_last()[k]);
            }
        }
    }
}

/// The characters of the local part of `name`.
pub fn local_chars(name: &str) -> (local: Vec<char>)
    ensures
        local@ == local_part(name@),
{
    let chars = chars_of(name);
    let mut start = chars.len();
    while start > 0 && chars[start - 1] != ':'
        invariant
            start <= chars.len(),
            chars@ == name@,
            forall|k: int| start <= k < chars.len() ==> chars@[k] != ':',
        decreases start,
    {
        start = start - 1;
    }
    proof {
        lemma_local_start(chars@);
        // `start` is just after the last colon, as `local_start` is.
        assert(local_start(chars@) == start as int) by {
            lemma_local_start_is_last_colon(chars@, start as int);
        }
    }
    let mut local: Vec<char> = Vec::new();
    let mut k = start;
    while k < chars.len()
        invariant
            start <= k <= chars.len(),
            local@ == chars@.subrange(start as int, k as int),
        decreases chars.len() - k,
    {
        local.push(chars[k]);
        k = k + 1;
        assert(local@ =~= chars@.subrange(start as int, k as int));
    }
    local
}

proof fn lemma_local_start_is_last_colon(s: Seq<char>, j: int)
    requires
        0 <= j <= s.len(),
        forall|k: int| j <= k < s.len() ==> s[k] != ':',
        j == 0 || s[j - 1] == ':',
    ensures
        local_start(s) == j,
    decreases s.len(),
{
    if s.len() > j {
        lemma_local_start_is_last_colon(s.drop_last(), j);
    }
}

/// Whether two character sequences are equal.
pub fn same_chars(a: &[char], b: &[char]) -> (r: bool)
    ensures
        r == (a@ == b@),
{
    if a.len() != b.len() {
        assert(a@.len() != b@.len());
        return false;
    }
    let mut i: usize = 0;
    while i < a.len()
        invariant
            i <= a.len() == b.len(),
            forall|j: int| 0 <= j < i ==> a@[j] == b@[j],
        decreases a.len() - i,
    {
        if a[i] != b[i] {
            assert(a@[i as int] != b@[i as int]);
            return false;
        }
        i = i + 1;
    }
    assert(a@ =~= b@);
    true
}

/// Whether `s` begins with `prefix`.
pub open spec fn starts_with(s: Seq<char>, prefix: Seq<char>) -> bool {
    prefix.len() <= s.len() && s.subrange(0, prefix.len() as int) == prefix
}

/// Whether `s` begins with `prefix`.
pub fn starts_with_chars(s: &[char], prefix: &[char]) -> (r: bool)
    ensures
        r == (prefix@.len() <= s@.len() && s@.subrange(0, prefix@.len() as int) == prefix@),
{
    if prefix.len() > s.len() {
        return false;
    }
    let mut i: usize = 0;
    while i < prefix.len()
        invariant
            i <= prefix.len() <= s.len(),
            forall|j: int| 0 <= j < i ==> s@[j] == prefix@[j],
        decreases prefix.len() - i,
    {
        if s[i] != prefix[i] {
            assert(s@.subrange(0, prefix@.len() as int)[i as int] != prefix@[i as int]);
            return false;
        }
        i = i + 1;
    }
    assert(s@.subrange(0, prefix@.len() as int) =~= prefix@);
    true
}

/// Whether `s` ends with `suffix`.
pub open spec fn ends_with(s: Seq<char>, suffix: Seq<char>) -> bool {
    suffix.len() <= s.len() && s.subrange(s.len() - suffix.len(), s.len() as int) == suffix
}

/// Whether `s` ends with `suffix`.
pub fn ends_with_chars(s: &[char], suffix: &[char]) -> (r: bool)
    ensures
        r == ends_with(s@, suffix@),
{
    if suffix.len() > s.len() {
        return false;
    }
    let start = s.len() - suffix.len();
    let mut i: usize = 0;
    while i < suffix.len()
        invariant
            i <= suffix.len() <= s.len(),
            start == s.len() - suffix.len(),
            forall|j: int| 0 <= j < i ==> s@[start + j] == suffix@[j],
        decreases suffix.len() - i,
    {
        if s[start + i] != suffix[i] {
            assert(s@.subrange(start as int, s@.len() as int)[i as int] != suffix@[i as int]);
            return false;
        }
        i = i + 1;
    }
    assert(s@.subrange(start as int, s@.len() as int) =~= suffix@);
    true
}

/// Whether `c` occurs in `s`.
pub fn has_char(s: &[char], c: char) -> (r: bool)
    ensures
        r == s@.contains(c),
{
    let mut i: usize = 0;
    while i < s.len()
        invariant
            i <= s.len(),
            forall|j: int| 0 <= j < i ==> s@[j] != c,
        decreases s.len() - i,
    {
        if s[i] == c {
            assert(s@[i as int] == c);
            return true;
        }
        i = i + 1;
    }
    false
}

/// How many characters of `s` the Safe mode deletes: the invisible payloads
/// counted in markup.
pub open spec fn safe_payloads(s: Seq<char>) -> nat
    decreases s.len(),
{
    if s.len() == 0 {
        0
    } else {
        safe_payloads(s.drop_last()) + if action_for(s.last()) == Action::RemoveSafe {
            1nat
        } else {
            0nat
        }
    }
}

/// The number of invisible payload characters in `text`.
pub fn unicode_count(text: &str) -> (n: usize)
    ensures
        n == safe_payloads(text@),
{
    let chars = chars_of(text);
    let mut n: usize = 0;
    let mut i: usize = 0;
    while i < chars.len()
        invariant
            i <= chars.len(),
            chars@ == text@,
            n == safe_payloads(chars@.take(i as int)),
            n <= i,
        decreases chars.len() - i,
    {
        assert(chars@.take(i + 1).drop_last() == chars@.take(i as int));
        let is_payload = match classify(chars[i]) {
            Some(rule) => rule.action == Action::RemoveSafe,
            None => false,
        };
        if is_payload {
            n = n + 1;
        }
        i = i + 1;
    }
    assert(chars@.take(i as int) == chars@);
    n
}

/// The ASCII lower-case form of `c`; other characters are unchanged.
pub open spec fn ascii_lower(c: char) -> char {
    if 'A' <= c && c <= 'Z' {
        ((c as u32) + 32) as char
    } else {
        c
    }
}

pub fn to_ascii_lower(c: char) -> (r: char)
    ensures
        r == ascii_lower(c),
{
    if 'A' <= c && c <= 'Z' {
        ((c as u8) + 32) as char
    } else {
        c
    }
}

} // verus!
