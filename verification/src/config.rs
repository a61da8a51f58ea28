//! The settings of the server: the port it listens on, and where the search
//! index and the counter store are found.
//!
//! Reading the environment and the secret's file is left to the caller;
//! what is decided here is which text counts, and what it means.

use vstd::prelude::*;
use vstd::pervasive::unreached;
use vstd::string::StringExecFns;
use crate::text::{chars_of, string_of};

verus! {

/// The name of the variable that holds the port.
pub const PORT_KEY: &'static str = "RUST_PORT";

/// The name of the variable that holds the address of the search index.
pub const MEILI_URL_KEY: &'static str = "MEILI_URL";

/// The name of the variable that holds the address of the counter store.
pub const REDIS_URL_KEY: &'static str = "REDIS_URL";

/// The name of the secret that holds the key of the search index.
pub const MEILI_KEY_SECRET: &'static str = "MEILI_ADMIN_KEY";

/// The settings of the server.
#[derive(Debug, Clone, PartialEq, Eq)]
pub struct Config {
    /// The port that the server listens on.
    pub port: u16,
    /// The key that opens the search index.
    pub meili_key: String,
    /// The address of the search index.
    pub meili_url: String,
    /// The address of the counter store.
    pub redis_url: String,
}

/// Whether `c` is a decimal digit.
pub open spec fn is_digit(c: char) -> bool {
    '0' <= c && c <= '9'
}

/// The number that a sequence of decimal digits writes.
pub open spec fn digits_value(s: Seq<char>) -> nat
    decreases s.len(),
{
    if s.len() == 0 {
        0
    } else {
        digits_value(s.drop_last()) * 10 + (s.last() as nat - '0' as nat) as nat
    }
}

/// Whether `s` holds decimal digits only.
pub open spec fn all_digits(s: Seq<char>) -> bool {
    forall|i: int| 0 <= i < s.len() ==> is_digit(#[trigger] s[i])
}

/// `text` without the plus sign that may stand at its start.
pub open spec fn unsigned_part(text: Seq<char>) -> Seq<char> {
    if text.len() > 0 && text[0] == '+' {
        text.drop_first()
    } else {
        text
    }
}

/// The port that `text` writes: decimal digits, at least one, after at most
/// one plus sign, with a value of at most 65535. Any other text writes none.
pub open spec fn port_of(text: Seq<char>) -> Option<u16> {
    let digits = unsigned_part(text);
    if digits.len() > 0 && all_digits(digits) && digits_value(digits) <= u16::MAX {
        Some(digits_value(digits) as u16)
    } else {
        None
    }
}

/// Whether `c` is white space.
pub open spec fn is_space(c: char) -> bool {
    ('\u{9}' <= c && c <= '\u{d}') || c == ' ' || c == '\u{85}' || c == '\u{a0}' || c
        == '\u{1680}' || ('\u{2000}' <= c && c <= '\u{200a}') || c == '\u{2028}' || c
        == '\u{2029}' || c == '\u{202f}' || c == '\u{205f}' || c == '\u{3000}'
}

/// Whether `t` is `s` without the white space at its two ends.
pub open spec fn is_trimmed_of(t: Seq<char>, s: Seq<char>) -> bool {
    exists|from: int, to: int|
        {
            &&& 0 <= from <= to <= s.len()
            &&& #[trigger] s.subrange(from, to) == t
            &&& forall|i: int| 0 <= i < from ==> is_space(#[trigger] s[i])
            &&& forall|i: int| to <= i < s.len() ==> is_space(#[trigger] s[i])
            &&& from < to ==> !is_space(s[from]) && !is_space(s[to - 1])
        }
}

/// A prefix of a sequence of digits writes no larger number than the whole.
pub proof fn lemma_digits_prefix(s: Seq<char>, k: int)
    requires
        0 <= k <= s.len(),
        all_digits(s),
    ensures
        digits_value(s.take(k)) <= digits_value(s),
    decreases s.len() - k,
{
    if k < s.len() {
        assert(s.take(k + 1).drop_last() =~= s.take(k));
        assert(is_digit(s[k]));
        assert(s.take(k + 1).last() == s[k]);
        lemma_digits_prefix(s, k + 1);
    } else {
        assert(s.take(k) =~= s);
    }
}

/// The text of a setting: what was found, or the default where nothing
/// was found. A text that was found counts even where it cannot be read;
/// the default does not stand in for it.
pub open spec fn chosen(found: Option<String>, default: Seq<char>) -> Seq<char> {
    match found {
        Some(text) => text@,
        None => default,
    }
}

/// A kind of value that a setting can hold.
pub trait Setting: Sized {
    /// Whether `text` writes a value of this kind.
    spec fn reads(text: Seq<char>) -> bool;

    /// Whether `value` is what `text` writes.
    spec fn reads_as(text: Seq<char>, value: Self) -> bool;

    /// Reads a value from its text, or tells that the text writes none.
    fn parse(text: &str) -> (value: Option<Self>)
        ensures
            value is Some <==> Self::reads(text@),
            value is Some ==> Self::reads_as(text@, value->0),
    ;
}

impl Setting for u16 {
    open spec fn reads(text: Seq<char>) -> bool {
        port_of(text) is Some
    }

    open spec fn reads_as(text: Seq<char>, value: u16) -> bool {
        port_of(text) == Some(value)
    }

    fn parse(text: &str) -> (value: Option<u16>) {
        parse_port(text)
    }
}

impl Setting for String {
    open spec fn reads(text: Seq<char>) -> bool {
        true
    }

    open spec fn reads_as(text: Seq<char>, value: String) -> bool {
        value@ == text
    }

    fn parse(text: &str) -> (value: Option<String>) {
        Some(String::from_str(text))
    }
}

/// The setting to use: the value that the text found writes, or the value
/// that the default writes where nothing was found. The text that counts
/// must write a value; a caller tests that with `parse` beforehand.
pub fn try_load<T: Setting>(found: Option<String>, default: &str) -> (value: T)
    requires
        T::reads(chosen(found, default@)),
    ensures
        T::reads_as(chosen(found, default@), value),
{
    let text = match found {
        Some(text) => text,
        None => String::from_str(default),
    };
    match T::parse(text.as_str()) {
        Some(value) => value,
        None => unreached(),
    }
}

/// Reads a port number.
pub fn parse_port(text: &str) -> (port: Option<u16>)
    ensures
        port == port_of(text@),
{
    let s = chars_of(text);
    let start: usize = if s.len() > 0 && s[0] == '+' {
        1
    } else {
        0
    };
    let ghost digits = s@.skip(start as int);
    assert(start == 1 ==> digits =~= s@.drop_first());
    assert(start == 0 ==> digits =~= s@);
    if s.len() == start {
        return None;
    }
    let mut value: u32 = 0;
    let mut i: usize = start;
    assert(digits.take(0) =~= Seq::empty());
    while i < s.len()
        invariant
            start <= i <= s.len(),
            digits == s@.skip(start as int),
            digits.len() > 0,
            digits == unsigned_part(text@),
            forall|k: int| 0 <= k < i - start ==> is_digit(#[trigger] digits[k]),
            value == digits_value(digits.take(i - start)),
            value <= u16::MAX,
        decreases s.len() - i,
    {
        let c = s[i];
        assert(digits[i - start] == c);
        if !(c >= '0' && c <= '9') {
            assert(!is_digit(digits[i - start]));
            assert(!all_digits(digits));
            return None;
        }
        let digit = (c as u32) - ('0' as u32);
        let next = value * 10 + digit;
        proof {
            assert(digits.take(i + 1 - start).drop_last() =~= digits.take(i - start));
            assert(digits.take(i + 1 - start).last() == c);
        }
        if next > 65535 {
            proof {
                if all_digits(digits) {
                    lemma_digits_prefix(digits, i + 1 - start);
                }
            }
            return None;
        }
        value = next;
        i += 1;
    }
    assert(digits.take(s.len() - start) =~= digits);
    Some(value as u16)
}

fn is_space_char(c: char) -> (b: bool)
    ensures
        b == is_space(c),
{
    (c >= '\u{9}' && c <= '\u{d}') || c == ' ' || c == '\u{85}' || c == '\u{a0}' || c
        == '\u{1680}' || (c >= '\u{2000}' && c <= '\u{200a}') || c == '\u{2028}' || c
        == '\u{2029}' || c == '\u{202f}' || c == '\u{205f}' || c == '\u{3000}'
}

/// The secret that a file holds: its text without the white space at its
/// two ends.
pub fn read_secret(contents: &str) -> (secret: String)
    ensures
        is_trimmed_of(secret@, contents@),
{
    let s = chars_of(contents);
    let n = s.len();
    let mut from: usize = 0;
    while from < n && is_space_char(s[from])
        invariant
            n == s.len(),
            from <= n,
            forall|i: int| 0 <= i < from ==> is_space(#[trigger] s@[i]),
        decreases n - from,
    {
        from += 1;
    }
    let mut to: usize = n;
    while to > from && is_space_char(s[to - 1])
        invariant
            n == s.len(),
            from <= to <= n,
            forall|i: int| to <= i < n ==> is_space(#[trigger] s@[i]),
        decreases to,
    {
        to -= 1;
    }
    let mut out: Vec<char> = Vec::new();
    let mut i: usize = from;
    while i < to
        invariant
            from <= i <= to <= n,
            n == s.len(),
            out@ == s@.subrange(from as int, i as int),
        decreases to - i,
    {
        out.push(s[i]);
        i += 1;
    }
    let secret = string_of(&out);
    assert(s@.subrange(from as int, to as int) == secret@);
    secret
}

/// The default port is a port number: with no port set, the server
/// listens on port 1000.
pub proof fn lemma_default_port()
    ensures
        port_of("1000"@) == Some(1000u16),
{
    reveal_strlit("1000");
    let text = "1000"@;
    assert(unsigned_part(text) == text);
    assert(text.drop_last() =~= seq!['1', '0', '0']);
    assert(text.drop_last().drop_last() =~= seq!['1', '0']);
    assert(text.drop_last().drop_last().drop_last() =~= seq!['1']);
    assert(text.drop_last().drop_last().drop_last().drop_last() =~= Seq::<char>::empty());
    reveal_with_fuel(digits_value, 5);
    assert(digits_value(text) == 1000);
}

impl Config {
    /// Whether settings can be loaded with the port set as `port`: whether
    /// the text that counts for the port is a port number.
    pub fn can_load(port: &Option<String>) -> (ok: bool)
        ensures
            ok == (port_of(chosen(*port, "1000"@)) is Some),
    {
        match port {
            Some(text) => parse_port(text.as_str()).is_some(),
            None => parse_port("1000").is_some(),
        }
    }

    /// The settings that the environment gives: the port from `port`, or
    /// 1000 where none is set; the key of the search index from the text of
    /// its secret's file; the two addresses from `meili_url` and
    /// `redis_url`, or their defaults. A port that is set must be a port
    /// number.
    pub fn load(port: Option<String>, meili_key_file: &str, meili_url: Option<String>, redis_url: Option<String>) -> (config: Config)
        requires
            port_of(chosen(port, "1000"@)) is Some,
        ensures
            Some(config.port) == port_of(chosen(port, "1000"@)),
            is_trimmed_of(config.meili_key@, meili_key_file@),
            config.meili_url@ == chosen(meili_url, "http://meilisearch:7700"@),
            config.redis_url@ == chosen(redis_url, "redis://redis:6379"@),
    {
        Config {
            port: try_load::<u16>(port, "1000"),
            meili_key: read_secret(meili_key_file),
            meili_url: try_load::<String>(meili_url, "http://meilisearch:7700"),
            redis_url: try_load::<String>(redis_url, "redis://redis:6379"),
        }
    }
}

} // verus!
