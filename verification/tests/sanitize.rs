use food_votes::sanitize::{is_canonical_name, sanitize};

#[test]
fn test_basic() {
    assert_eq!(sanitize("hello_world"), "hello world");
    assert_eq!(sanitize("Rust-lang"), "rust-lang");
    assert_eq!(sanitize("clean-this_text!"), "clean-this text");
}

#[test]
fn test_leading_trailing_spaces() {
    assert_eq!(sanitize("   hello   "), "hello");
    assert_eq!(sanitize("  multiple   spaces  "), "multiple spaces");
}

#[test]
fn test_special_characters() {
    assert_eq!(sanitize("!@#$%^&*()"), "");
    assert_eq!(sanitize("abc123!@#"), "abc123");
}

#[test]
fn test_underscores_and_dashes() {
    assert_eq!(sanitize("hello_world-test"), "hello world-test");
    assert_eq!(sanitize("_start_end_"), "start end");
}

#[test]
fn test_empty_string() {
    assert_eq!(sanitize(""), "");
    assert_eq!(sanitize("     "), "");
}

#[test]
fn sanitize_is_idempotent_on_samples() {
    let samples = vec![
        "hello_world",
        "Rust-lang",
        "  multiple   spaces  ",
        "!@#$%^&*()",
        "_start_end_",
        "Crème Brûlée",
        "a  _  b",
        "   ",
        "--x--",
        "Tab\tSeparated",
    ];
    for raw in samples {
        let once = sanitize(raw);
        let twice = sanitize(&once);
        assert_eq!(once, twice);
    }
}

#[test]
fn sanitize_drops_what_is_not_ascii() {
    assert_eq!(sanitize("Crème Brûlée"), "crme brle");
    assert_eq!(sanitize("Tab\tSeparated"), "tabseparated");
    assert_eq!(sanitize("piña_colada"), "pia colada");
}

#[test]
fn sanitize_joins_spaces_that_dropping_brings_together() {
    assert_eq!(sanitize("a ! b"), "a b");
    assert_eq!(sanitize("a _!_ b"), "a b");
    assert_eq!(sanitize("! a"), "a");
    assert_eq!(sanitize("a !"), "a");
}

#[test]
fn sanitize_keeps_hyphens_and_digits() {
    assert_eq!(sanitize("7-Up"), "7-up");
    assert_eq!(sanitize("-"), "-");
    assert_eq!(sanitize(" - "), "-");
    assert_eq!(sanitize("A-Z 0-9"), "a-z 0-9");
}

#[test]
fn canonical_names_are_recognised() {
    assert!(is_canonical_name("hello world"));
    assert!(is_canonical_name("rust-lang"));
    assert!(is_canonical_name(""));
    assert!(is_canonical_name("7-up"));
    assert!(!is_canonical_name("Hello"));
    assert!(!is_canonical_name(" hello"));
    assert!(!is_canonical_name("hello "));
    assert!(!is_canonical_name("hello  world"));
    assert!(!is_canonical_name("hello_world"));
    assert!(!is_canonical_name("caf\u{e9}"));
}

#[test]
fn a_name_is_canonical_exactly_when_sanitize_keeps_it() {
    let samples = vec!["pizza", "Pizza", "mac  cheese", "mac cheese", " x", "x-y", "x_y", ""];
    for s in samples {
        assert_eq!(is_canonical_name(s), sanitize(s) == s);
    }
}

struct Patterns {
    replace: regex::Regex,
    clean: regex::Regex,
    collapse: regex::Regex,
}

fn patterns() -> Patterns {
    Patterns {
        replace: regex::Regex::new(r"[_]").unwrap(),
        clean: regex::Regex::new(r"[^A-Za-z0-9- ]").unwrap(),
        collapse: regex::Regex::new(r" +").unwrap(),
    }
}

fn by_patterns(patterns: &Patterns, input: &str) -> String {
    let mut s = patterns.replace.replace_all(input, " ").into_owned();

    s = patterns.clean.replace_all(&s, "").into_owned();

    s = s.trim().to_string();

    patterns.collapse.replace_all(&s, " ").into_owned().to_lowercase()
}

#[test]
fn sanitize_agrees_with_the_three_patterns() {
    let mut samples: Vec<String> = vec![
        "hello_world",
        "Rust-lang",
        "clean-this_text!",
        "   hello   ",
        "  multiple   spaces  ",
        "!@#$%^&*()",
        "abc123!@#",
        "hello_world-test",
        "_start_end_",
        "",
        "     ",
        "Cr\u{e8}me Br\u{fb}l\u{e9}e",
        "Tab\tSeparated\nLines\r\n",
        "\u{a0}no-break\u{a0}",
        "\u{3000}wide\u{3000}space",
        "a ! b",
        "a _!_ b",
        "-- - --",
        "A-Z a-z 0-9",
        "[brackets] {braces} (parens)",
        "back\\slash ^caret ]close",
        "\u{130}stanbul \u{3a3}\u{391}\u{3a3}",
        "K\u{212a}elvin \u{17f}long-s",
        "x__y  _ z",
        "\u{0}nul\u{7f}del",
    ]
    .into_iter()
    .map(String::from)
    .collect();
    let alphabet = ['a', 'Z', '5', '-', ' ', '_', '!', '\t', '\u{e9}'];
    for a in alphabet {
        for b in alphabet {
            for c in alphabet {
                samples.push([a, b, c].iter().collect());
                samples.push([a, b, ' ', c, b].iter().collect());
            }
        }
    }
    for code in 0u32..0x250 {
        if let Some(c) = char::from_u32(code) {
            samples.push(format!("a{}b", c));
            samples.push(c.to_string());
        }
    }
    let patterns = patterns();
    for raw in samples {
        assert_eq!(sanitize(&raw), by_patterns(&patterns, &raw), "{:?}", raw);
    }
}
