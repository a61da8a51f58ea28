use food_votes::config::{parse_port, read_secret, try_load, Config, Setting};
use food_votes::error::AppError;
use food_votes::routes::{hello_handler, search_handler, Token};

#[test]
fn a_port_is_decimal_digits() {
    assert_eq!(parse_port("1000"), Some(1000));
    assert_eq!(parse_port("0"), Some(0));
    assert_eq!(parse_port("65535"), Some(65535));
    assert_eq!(parse_port("+8080"), Some(8080));
    assert_eq!(parse_port("00080"), Some(80));
    assert_eq!(parse_port("0000000000000000000000065535"), Some(65535));
}

#[test]
fn what_is_no_port() {
    assert_eq!(parse_port(""), None);
    assert_eq!(parse_port("+"), None);
    assert_eq!(parse_port("65536"), None);
    assert_eq!(parse_port("99999999999999999999999"), None);
    assert_eq!(parse_port("-1"), None);
    assert_eq!(parse_port("80 "), None);
    assert_eq!(parse_port(" 80"), None);
    assert_eq!(parse_port("8o"), None);
    assert_eq!(parse_port("++1"), None);
    assert_eq!(parse_port("1+"), None);
    assert_eq!(parse_port("\u{663}"), None);
}

#[test]
fn parse_port_reads_as_the_standard_integer_parser_does() {
    let samples = vec!["1000", "0", "65535", "65536", "+1", "", "+", "-0", "12a", "007", "655350", " 1"];
    for s in samples {
        assert_eq!(parse_port(s), s.parse::<u16>().ok());
    }
}

#[test]
fn a_setting_that_is_not_found_takes_its_default() {
    assert_eq!(try_load::<String>(None, "redis://redis:6379"), "redis://redis:6379");
    assert_eq!(
        try_load::<String>(Some("redis://elsewhere".to_string()), "redis://redis:6379"),
        "redis://elsewhere"
    );
    assert_eq!(try_load::<String>(Some(String::new()), "x"), "");
    assert_eq!(try_load::<u16>(None, "1000"), 1000);
}

#[test]
fn a_setting_that_is_found_is_read() {
    assert_eq!(try_load::<u16>(Some("8080".to_string()), "1000"), 8080);
    assert_eq!(try_load::<u16>(Some("+65535".to_string()), "1000"), 65535);
    assert_eq!(try_load::<u16>(Some("0".to_string()), "not a port"), 0);
}

#[test]
fn whether_a_text_writes_a_setting_is_tested_beforehand() {
    assert_eq!(<u16 as Setting>::parse("70000"), None);
    assert_eq!(<u16 as Setting>::parse("eighty"), None);
    assert_eq!(<u16 as Setting>::parse(""), None);
    assert_eq!(<u16 as Setting>::parse("1000"), Some(1000));
    assert_eq!(<String as Setting>::parse("anything at all"), Some("anything at all".to_string()));
    assert_eq!(<String as Setting>::parse(""), Some(String::new()));
}

#[test]
fn a_secret_is_its_file_without_the_space_around() {
    assert_eq!(read_secret("  key \n"), "key");
    assert_eq!(read_secret("key"), "key");
    assert_eq!(read_secret("\t a b \r\n"), "a b");
    assert_eq!(read_secret(" \n\t "), "");
    assert_eq!(read_secret(""), "");
    assert_eq!(read_secret("\u{a0}k\u{3000}"), "k");
}

#[test]
fn read_secret_trims_as_the_standard_trim_does() {
    let samples = vec!["  key \n", "\u{2003}x\u{2003}", "\u{85}y", "z\u{1680}", "\u{200b}w", "a\u{feff}"];
    for s in samples {
        assert_eq!(read_secret(s), s.trim());
    }
}

#[test]
fn the_defaults_of_the_settings() {
    let config = Config::load(None, "secret\n", None, None);
    assert_eq!(
        config,
        Config {
            port: 1000,
            meili_key: "secret".to_string(),
            meili_url: "http://meilisearch:7700".to_string(),
            redis_url: "redis://redis:6379".to_string(),
        }
    );
}

#[test]
fn what_is_set_counts() {
    let config = Config::load(
        Some("8080".to_string()),
        " k ",
        Some("http://m".to_string()),
        Some("redis://r".to_string()),
    );
    assert_eq!(config.port, 8080);
    assert_eq!(config.meili_key, "k");
    assert_eq!(config.meili_url, "http://m");
    assert_eq!(config.redis_url, "redis://r");
}

#[test]
fn errors_have_a_status_and_a_text() {
    assert_eq!(AppError::MalformedPayload.status(), 400);
    assert_eq!(AppError::InternalError("boom".to_string()).status(), 500);
    assert_eq!(AppError::MalformedPayload.message(), "Malformed payload");
    assert_eq!(AppError::InternalError("boom".to_string()).message(), "Internal error: boom");
    assert_eq!(AppError::MalformedPayload.into_response(), (400, "Malformed payload".to_string()));
    assert_eq!(
        AppError::InternalError("store".to_string()).into_response(),
        (500, "Internal error: store".to_string())
    );
}

#[test]
fn a_token_comes_back_as_it_went() {
    assert_eq!(hello_handler(Token { token: "abc".to_string() }), (200, "abc".to_string()));
    assert_eq!(search_handler(Token { token: String::new() }), (200, String::new()));
}
