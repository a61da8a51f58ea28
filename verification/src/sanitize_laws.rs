//! What holds of canonical names: every canonical form is well formed, and
//! bringing a canonical form to canonical form again changes nothing.

use vstd::prelude::*;
use crate::sanitize::{
    canonical_of, collapse, is_canonical, is_name_char, leading_spaces, lower, lower_char,
    replace_underscores, strip, trailing_spaces, trim, unscore,
};

verus! {

/// Whether every character of `s` may appear in a name.
pub open spec fn all_name_chars(s: Seq<char>) -> bool {
    forall|i: int| 0 <= i < s.len() ==> is_name_char(#[trigger] s[i])
}

/// Whether no space of `s` is followed by a space.
pub open spec fn single_spaced(s: Seq<char>) -> bool {
    forall|i: int| 0 <= i < s.len() - 1 ==> !(#[trigger] s[i] == ' ' && s[i + 1] == ' ')
}

proof fn lemma_strip_keeps_name_chars(s: Seq<char>)
    ensures
        all_name_chars(strip(s)),
        strip(s).len() <= s.len(),
    decreases s.len(),
{
    if s.len() > 0 {
        lemma_strip_keeps_name_chars(s.drop_last());
    }
}

proof fn lemma_strip_fixed(s: Seq<char>)
    requires
        all_name_chars(s),
    ensures
        strip(s) == s,
    decreases s.len(),
{
    if s.len() > 0 {
        lemma_strip_fixed(s.drop_last());
        assert(is_name_char(s[s.len() - 1]));
        assert(s.drop_last().push(s.last()) == s);
    }
}

proof fn lemma_leading_spaces(s: Seq<char>)
    ensures
        leading_spaces(s) <= s.len(),
        leading_spaces(s) < s.len() ==> s[leading_spaces(s) as int] != ' ',
    decreases s.len(),
{
    if s.len() > 0 && s[0] == ' ' {
        lemma_leading_spaces(s.drop_first());
    }
}

proof fn lemma_trailing_spaces(s: Seq<char>)
    ensures
        trailing_spaces(s) <= s.len(),
        trailing_spaces(s) < s.len() ==> s[s.len() - trailing_spaces(s) - 1] != ' ',
    decreases s.len(),
{
    if s.len() > 0 && s.last() == ' ' {
        lemma_trailing_spaces(s.drop_last());
    }
}

proof fn lemma_trim_shape(s: Seq<char>)
    requires
        all_name_chars(s),
    ensures
        all_name_chars(trim(s)),
        trim(s).len() > 0 ==> trim(s)[0] != ' ' && trim(s).last() != ' ',
{
    lemma_leading_spaces(s);
    let rest = s.skip(leading_spaces(s) as int);
    lemma_trailing_spaces(rest);
    let t = trim(s);
    assert forall|i: int| 0 <= i < t.len() implies is_name_char(#[trigger] t[i]) by {
        assert(t[i] == s[i + leading_spaces(s)]);
    }
    if t.len() > 0 {
        assert(t[0] == rest[0]);
        assert(t.last() == rest[rest.len() - trailing_spaces(rest) - 1]);
    }
}

proof fn lemma_trim_fixed(s: Seq<char>)
    requires
        s.len() > 0 ==> s[0] != ' ' && s.last() != ' ',
    ensures
        trim(s) == s,
{
    assert(leading_spaces(s) == 0);
    assert(s.skip(0) == s);
    assert(trailing_spaces(s) == 0);
    assert(s.take(s.len() as int) == s);
}

proof fn lemma_collapse_shape(s: Seq<char>)
    ensures
        collapse(s).len() <= s.len(),
        s.len() > 0 ==> collapse(s).len() > 0 && collapse(s)[0] == s[0] && collapse(s).last()
            == s.last(),
        all_name_chars(s) ==> all_name_chars(collapse(s)),
        single_spaced(collapse(s)),
    decreases s.len(),
{
    if s.len() > 0 {
        let p = s.drop_last();
        lemma_collapse_shape(p);
        if s.len() >= 2 {
            assert(p.last() == s[s.len() - 2]);
            assert(p[0] == s[0]);
        }
        if all_name_chars(s) {
            assert forall|i: int| 0 <= i < p.len() implies is_name_char(#[trigger] p[i]) by {
                assert(p[i] == s[i]);
            }
        }
    }
}

proof fn lemma_collapse_fixed(s: Seq<char>)
    requires
        single_spaced(s),
    ensures
        collapse(s) == s,
    decreases s.len(),
{
    if s.len() > 0 {
        let p = s.drop_last();
        assert forall|i: int| 0 <= i < p.len() - 1 implies !(#[trigger] p[i] == ' ' && p[i + 1]
            == ' ') by {
            assert(p[i] == s[i] && p[i + 1] == s[i + 1]);
        }
        lemma_collapse_fixed(p);
        if s.len() >= 2 {
            assert(!(s[s.len() - 2] == ' ' && s[s.len() - 2 + 1] == ' '));
        }
        assert(p.push(s.last()) == s);
    }
}

/// Every canonical form is well formed, whatever the raw name was.
pub proof fn lemma_canonical_of_is_canonical(raw: Seq<char>)
    ensures
        is_canonical(canonical_of(raw)),
{
    let kept = strip(replace_underscores(raw));
    lemma_strip_keeps_name_chars(replace_underscores(raw));
    lemma_trim_shape(kept);
    let single = collapse(trim(kept));
    lemma_collapse_shape(trim(kept));
    let low = lower(single);
    assert(low == canonical_of(raw));
    assert forall|i: int| 0 <= i < low.len() implies is_name_char(#[trigger] low[i]) && !('A'
        <= low[i] && low[i] <= 'Z') by {
        assert(is_name_char(single[i]));
    }
    assert forall|i: int| 0 <= i < low.len() - 1 implies !(#[trigger] low[i] == ' ' && low[i + 1]
        == ' ') by {
        assert(!(single[i] == ' ' && single[i + 1] == ' '));
    }
}

/// A well-formed canonical name is its own canonical form.
pub proof fn lemma_canonical_fixed(s: Seq<char>)
    requires
        is_canonical(s),
    ensures
        canonical_of(s) == s,
{
    assert(replace_underscores(s) == s) by {
        assert forall|i: int| 0 <= i < s.len() implies unscore(s[i]) == s[i] by {
            assert(is_name_char(s[i]));
        }
    }
    lemma_strip_fixed(s);
    lemma_trim_fixed(s);
    lemma_collapse_fixed(s);
    assert(lower(s) == s) by {
        assert forall|i: int| 0 <= i < s.len() implies lower_char(s[i]) == s[i] by {
            assert(is_name_char(s[i]));
        }
    }
}

/// Canonical form is idempotent: the canonical form of a canonical form is
/// that same form, for every raw name.
pub proof fn lemma_sanitize_idempotent(raw: Seq<char>)
    ensures
        canonical_of(canonical_of(raw)) == canonical_of(raw),
{
    lemma_canonical_of_is_canonical(raw);
    lemma_canonical_fixed(canonical_of(raw));
}

} // verus!
