//! Canonical names.
//!
//! A raw food or location name is brought to its canonical form in five
//! steps: underscores become spaces, every character outside letters,
//! digits, hyphen and space is dropped, spaces at both ends are removed, runs
//! of spaces shrink to one space, and letters are lowered. Two raw names with
//! the same canonical form denote the same entity; an empty canonical form
//! denotes none.

use vstd::prelude::*;
use crate::sanitize_laws::lemma_canonical_of_is_canonical;
use crate::text::{chars_of, string_of};

verus! {

/// The character that stands for `c` once underscores are read as spaces.
pub open spec fn unscore(c: char) -> char {
    if c == '_' {
        ' '
    } else {
        c
    }
}

/// Whether `c` may appear in a name before letters are lowered.
pub open spec fn is_name_char(c: char) -> bool {
    ('a' <= c && c <= 'z') || ('A' <= c && c <= 'Z') || ('0' <= c && c <= '9') || c == '-' || c
        == ' '
}

/// The lower-case form of an ASCII letter; any other character is itself.
pub open spec fn lower_char(c: char) -> char {
    if 'A' <= c && c <= 'Z' {
        ((c as u8) + 32) as char
    } else {
        c
    }
}

/// `s` with every underscore replaced by a space.
pub open spec fn replace_underscores(s: Seq<char>) -> Seq<char> {
    Seq::new(s.len(), |i: int| unscore(s[i]))
}

/// `s` without the characters that no name may hold.
pub open spec fn strip(s: Seq<char>) -> Seq<char>
    decreases s.len(),
{
    if s.len() == 0 {
        s
    } else if is_name_char(s.last()) {
        strip(s.drop_last()).push(s.last())
    } else {
        strip(s.drop_last())
    }
}

/// The number of spaces at the start of `s`.
pub open spec fn leading_spaces(s: Seq<char>) -> nat
    decreases s.len(),
{
    if s.len() > 0 && s[0] == ' ' {
        1 + leading_spaces(s.drop_first())
    } else {
        0
    }
}

/// The number of spaces at the end of `s`.
pub open spec fn trailing_spaces(s: Seq<char>) -> nat
    decreases s.len(),
{
    if s.len() > 0 && s.last() == ' ' {
        1 + trailing_spaces(s.drop_last())
    } else {
        0
    }
}

/// `s` without the spaces at its start and at its end.
pub open spec fn trim(s: Seq<char>) -> Seq<char> {
    let rest = s.skip(leading_spaces(s) as int);
    rest.take(rest.len() - trailing_spaces(rest))
}

/// `s` with every space that follows a space removed.
pub open spec fn collapse(s: Seq<char>) -> Seq<char>
    decreases s.len(),
{
    if s.len() == 0 {
        s
    } else if s.len() >= 2 && s.last() == ' ' && s[s.len() - 2] == ' ' {
        collapse(s.drop_last())
    } else {
        collapse(s.drop_last()).push(s.last())
    }
}

/// `s` with every ASCII letter lowered.
pub open spec fn lower(s: Seq<char>) -> Seq<char> {
    Seq::new(s.len(), |i: int| lower_char(s[i]))
}

/// The canonical form of the raw name `raw`.
pub open spec fn canonical_of(raw: Seq<char>) -> Seq<char> {
    lower(collapse(trim(strip(replace_underscores(raw)))))
}

/// Whether `s` is a canonical form: lower-case letters, digits, hyphens and
/// single spaces, with no space at either end.
pub open spec fn is_canonical(s: Seq<char>) -> bool {
    &&& forall|i: int| 0 <= i < s.len() ==> is_name_char(#[trigger] s[i]) && !('A' <= s[i] && s[i] <= 'Z')
    &&& s.len() > 0 ==> s[0] != ' ' && s.last() != ' '
    &&& forall|i: int| 0 <= i < s.len() - 1 ==> !(#[trigger] s[i] == ' ' && s[i + 1] == ' ')
}

fn keeps(c: char) -> (b: bool)
    ensures
        b == is_name_char(c),
{
    (c >= 'a' && c <= 'z') || (c >= 'A' && c <= 'Z') || (c >= '0' && c <= '9') || c == '-' || c
        == ' '
}

fn lowered(c: char) -> (r: char)
    ensures
        r == lower_char(c),
{
    if c >= 'A' && c <= 'Z' {
        ((c as u8) + 32) as char
    } else {
        c
    }
}

fn replace_underscores_in(s: &Vec<char>) -> (out: Vec<char>)
    ensures
        out@ == replace_underscores(s@),
{
    let mut out: Vec<char> = Vec::new();
    let mut i: usize = 0;
    while i < s.len()
        invariant
            i <= s.len(),
            out@.len() == i,
            forall|k: int| 0 <= k < i ==> out@[k] == unscore(s@[k]),
        decreases s.len() - i,
    {
        let c = s[i];
        if c == '_' {
            out.push(' ');
        } else {
            out.push(c);
        }
        i += 1;
    }
    out
}

fn strip_in(s: &Vec<char>) -> (out: Vec<char>)
    ensures
        out@ == strip(s@),
{
    let mut out: Vec<char> = Vec::new();
    let mut i: usize = 0;
    while i < s.len()
        invariant
            i <= s.len(),
            out@ == strip(s@.take(i as int)),
        decreases s.len() - i,
    {
        let c = s[i];
        assert(s@.take(i + 1).drop_last() == s@.take(i as int));
        if keeps(c) {
            out.push(c);
        }
        i += 1;
    }
    assert(s@.take(s.len() as int) == s@);
    out
}

fn lower_in(s: &Vec<char>) -> (out: Vec<char>)
    ensures
        out@ == lower(s@),
{
    let mut out: Vec<char> = Vec::new();
    let mut i: usize = 0;
    while i < s.len()
        invariant
            i <= s.len(),
            out@.len() == i,
            forall|k: int| 0 <= k < i ==> out@[k] == lower_char(s@[k]),
        decreases s.len() - i,
    {
        out.push(lowered(s[i]));
        i += 1;
    }
    out
}

fn trim_in(s: &Vec<char>) -> (out: Vec<char>)
    ensures
        out@ == trim(s@),
{
    let n = s.len();
    let mut start: usize = 0;
    assert(s@.skip(0) == s@);
    while start < n && s[start] == ' '
        invariant
            n == s.len(),
            start <= n,
            leading_spaces(s@) == start + leading_spaces(s@.skip(start as int)),
        decreases n - start,
    {
        assert(s@.skip(start as int).drop_first() == s@.skip(start + 1));
        start += 1;
    }
    let ghost rest = s@.skip(start as int);
    let mut end: usize = n;
    assert(rest.take(n - start) == rest);
    while end > start && s[end - 1] == ' '
        invariant
            n == s.len(),
            start <= end <= n,
            rest == s@.skip(start as int),
            trailing_spaces(rest) == (n - end) + trailing_spaces(rest.take(end - start)),
        decreases end,
    {
        assert(rest.take(end - start).drop_last() == rest.take(end - start - 1));
        end -= 1;
    }
    let mut out: Vec<char> = Vec::new();
    let mut i: usize = start;
    while i < end
        invariant
            start <= i <= end <= n,
            n == s.len(),
            out@ == s@.subrange(start as int, i as int),
        decreases end - i,
    {
        out.push(s[i]);
        i += 1;
    }
    assert(out@ == rest.take(end - start));
    out
}

fn collapse_in(s: &Vec<char>) -> (out: Vec<char>)
    ensures
        out@ == collapse(s@),
{
    let mut out: Vec<char> = Vec::new();
    let mut i: usize = 0;
    while i < s.len()
        invariant
            i <= s.len(),
            out@ == collapse(s@.take(i as int)),
        decreases s.len() - i,
    {
        let c = s[i];
        assert(s@.take(i + 1).drop_last() == s@.take(i as int));
        if !(i >= 1 && c == ' ' && s[i - 1] == ' ') {
            out.push(c);
        }
        i += 1;
    }
    assert(s@.take(s.len() as int) == s@);
    out
}

/// Brings a raw name to its canonical form. The result is empty exactly when
/// the raw name holds no letter, digit or hyphen; callers treat an empty
/// result as no name at all.
pub fn sanitize(input: &str) -> (out: String)
    ensures
        out@ == canonical_of(input@),
        is_canonical(out@),
{
    proof {
        lemma_canonical_of_is_canonical(input@);
    }
    let raw = chars_of(input);
    let spaced = replace_underscores_in(&raw);
    let kept = strip_in(&spaced);
    let trimmed = trim_in(&kept);
    let single = collapse_in(&trimmed);
    let low = lower_in(&single);
    string_of(&low)
}

/// Whether `name` is a well-formed canonical name.
pub fn is_canonical_name(name: &str) -> (ok: bool)
    ensures
        ok == is_canonical(name@),
{
    let s = chars_of(name);
    let n = s.len();
    if n > 0 && (s[0] == ' ' || s[n - 1] == ' ') {
        return false;
    }
    let mut i: usize = 0;
    while i < n
        invariant
            i <= n,
            n == s.len(),
            s@ == name@,
            forall|k: int| 0 <= k < i ==> is_name_char(#[trigger] s@[k]) && !('A' <= s@[k] && s@[k] <= 'Z'),
            forall|k: int| 0 <= k < i - 1 ==> !(#[trigger] s@[k] == ' ' && s@[k + 1] == ' '),
        decreases n - i,
    {
        let c = s[i];
        if !keeps(c) || (c >= 'A' && c <= 'Z') {
            return false;
        }
        if i >= 1 && c == ' ' && s[i - 1] == ' ' {
            assert(s@[i - 1] == ' ' && s@[i - 1 + 1] == ' ');
            return false;
        }
        i += 1;
    }
    true
}

} // verus!
