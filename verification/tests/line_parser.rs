use servicefile::chars::{collect_chars, is_comment, is_space};
use servicefile::entry::{parse_line, ServiceEntry, ServiceError};
use servicefile::field::{find_slash, parse_port};
use servicefile::tokens::{discard_ws, next_token, skip_ws, word_end};

fn entry(name: &str, port: usize, protocol: &str, aliases: &[&str]) -> ServiceEntry {
    ServiceEntry {
        name: name.to_string(),
        port,
        protocol: protocol.to_string(),
        aliases: aliases.iter().map(|a| a.to_string()).collect(),
    }
}

#[test]
fn parse_entry() {
    assert_eq!(
        parse_line("tcpmux            1/tcp     # TCP Port Service Multiplexer"),
        Ok(ServiceEntry {
            name: "tcpmux".to_string(),
            port: 1,
            protocol: "tcp".to_string(),
            aliases: vec!(),
        })
    );
}

#[test]
fn parse_entry_multiple_aliases() {
    assert_eq!(
        parse_line("tcpmux 1/tcp tcpmultiplexer niceservice"),
        Ok(ServiceEntry {
            name: "tcpmux".to_string(),
            port: 1,
            protocol: "tcp".to_string(),
            aliases: vec!("tcpmultiplexer".to_string(), "niceservice".to_string()),
        })
    );
}

#[test]
fn parse_entry_without_aliases_or_comment() {
    assert_eq!(parse_line("tcpmux 1/tcp"), Ok(entry("tcpmux", 1, "tcp", &[])));
}

#[test]
fn aliases_stop_at_the_first_comment_token() {
    assert_eq!(
        parse_line("http 80/tcp www www-http # WorldWideWeb HTTP extra"),
        Ok(entry("http", 80, "tcp", &["www", "www-http"]))
    );
    assert_eq!(
        parse_line("http 80/tcp www #www-http more"),
        Ok(entry("http", 80, "tcp", &["www"]))
    );
    assert_eq!(parse_line("http 80/tcp #www more"), Ok(entry("http", 80, "tcp", &[])));
}

#[test]
fn duplicate_aliases_are_kept_in_order() {
    assert_eq!(
        parse_line("svc 7/udp b a b"),
        Ok(entry("svc", 7, "udp", &["b", "a", "b"]))
    );
}

#[test]
fn a_marker_inside_a_token_is_part_of_it() {
    assert_eq!(parse_line("a#b 1/tcp#x c#d"), Ok(entry("a#b", 1, "tcp#x", &["c#d"])));
}

#[test]
fn surrounding_whitespace_is_insignificant() {
    assert_eq!(
        parse_line(" \t tcpmux\t\t1/tcp \u{00A0}alias\u{3000}\r\n"),
        Ok(entry("tcpmux", 1, "tcp", &["alias"]))
    );
}

#[test]
fn tokens_may_hold_characters_beyond_ascii() {
    assert_eq!(
        parse_line("\u{2003}sérvice\u{2003}443/tçp\u{2003}ålias"),
        Ok(entry("sérvice", 443, "tçp", &["ålias"]))
    );
}

#[test]
fn missing_second_token() {
    assert_eq!(parse_line("service"), Err(ServiceError::MissingPortProtocolField));
    assert_eq!(parse_line("service   "), Err(ServiceError::MissingPortProtocolField));
}

#[test]
fn comment_in_place_of_the_field() {
    assert_eq!(parse_line("service # 1/tcp"), Err(ServiceError::MissingPortProtocolField));
    assert_eq!(parse_line("service #1/tcp"), Err(ServiceError::MissingPortProtocolField));
}

#[test]
fn marker_after_the_port() {
    assert_eq!(parse_line("service 1#/tcp"), Err(ServiceError::MalformedPort));
}

#[test]
fn marker_before_the_protocol() {
    assert_eq!(parse_line("service 1/#tcp"), Err(ServiceError::MissingProtocolField));
}

#[test]
fn port_that_is_no_number() {
    assert_eq!(parse_line("service asdf/tcp"), Err(ServiceError::MalformedPort));
    assert_eq!(parse_line("service asdf/"), Err(ServiceError::MalformedPort));
    assert_eq!(parse_line("service asdf"), Err(ServiceError::MalformedPort));
    assert_eq!(parse_line("service /tcp"), Err(ServiceError::MalformedPort));
    assert_eq!(parse_line("service 1.5/tcp"), Err(ServiceError::MalformedPort));
    assert_eq!(parse_line("service 1,000/tcp"), Err(ServiceError::MalformedPort));
    assert_eq!(parse_line("service 0x10/tcp"), Err(ServiceError::MalformedPort));
}

#[test]
fn signed_port_is_refused() {
    assert_eq!(parse_line("service +1/tcp"), Err(ServiceError::MalformedPort));
    assert_eq!(parse_line("service -1/tcp"), Err(ServiceError::MalformedPort));
}

#[test]
fn port_too_large_is_refused() {
    let max = usize::MAX;
    assert_eq!(
        parse_line(&format!("service {}/tcp", max)),
        Ok(entry("service", max, "tcp", &[]))
    );
    assert_eq!(
        parse_line(&format!("service {}0/tcp", max)),
        Err(ServiceError::MalformedPort)
    );
    assert_eq!(
        parse_line("service 99999999999999999999999999999999999999999/tcp"),
        Err(ServiceError::MalformedPort)
    );
    let digits = format!("{}", max);
    let last = digits.chars().last().unwrap().to_digit(10).unwrap();
    if last < 9 {
        let above = format!("{}{}", &digits[..digits.len() - 1], last + 1);
        assert_eq!(
            parse_line(&format!("service {}/tcp", above)),
            Err(ServiceError::MalformedPort)
        );
    }
}

#[test]
fn port_values() {
    assert_eq!(parse_line("a 0/tcp"), Ok(entry("a", 0, "tcp", &[])));
    assert_eq!(parse_line("a 007/tcp"), Ok(entry("a", 7, "tcp", &[])));
    assert_eq!(parse_line("a 65535/tcp"), Ok(entry("a", 65535, "tcp", &[])));
    assert_eq!(parse_line("a 70000/tcp"), Ok(entry("a", 70000, "tcp", &[])));
    assert_eq!(parse_line("a 1234567890/udp"), Ok(entry("a", 1234567890, "udp", &[])));
}

#[test]
fn missing_protocol() {
    assert_eq!(parse_line("service 80"), Err(ServiceError::MissingProtocolField));
    assert_eq!(parse_line("service 80/"), Err(ServiceError::MissingProtocolField));
    assert_eq!(parse_line("service 80/ tcp"), Err(ServiceError::MissingProtocolField));
    assert_eq!(parse_line("service 80/#"), Err(ServiceError::MissingProtocolField));
}

#[test]
fn protocol_is_what_follows_the_first_slash() {
    assert_eq!(parse_line("service 80/tcp/x"), Ok(entry("service", 80, "tcp/x", &[])));
    assert_eq!(parse_line("service 80//"), Ok(entry("service", 80, "/", &[])));
}

#[test]
fn name_that_is_a_comment() {
    assert_eq!(parse_line("#service 1/tcp"), Err(ServiceError::MalformedInput));
    assert_eq!(parse_line("  # service"), Err(ServiceError::MalformedInput));
}

#[test]
fn error_messages() {
    assert_eq!(
        ServiceError::InvalidSource.message(),
        "File does not exist or is not a regular file"
    );
    assert_eq!(ServiceError::OpenFailed.message(), "Could not open file");
    assert_eq!(ServiceError::ReadFailed.message(), "Error reading file");
    assert_eq!(ServiceError::MalformedInput.message(), "Malformed input");
    assert_eq!(
        ServiceError::MissingPortProtocolField.message(),
        "Could not find port and protocol field"
    );
    assert_eq!(ServiceError::MalformedPort.message(), "Malformed port");
    assert_eq!(ServiceError::MissingProtocolField.message(), "Could not find protocol");
}

#[test]
fn parsing_a_line_twice_gives_the_same() {
    let line = "tcpmux 1/tcp a b # c";
    assert_eq!(parse_line(line), parse_line(line));
    let bad = "tcpmux x/tcp";
    assert_eq!(parse_line(bad), parse_line(bad));
}

#[test]
fn whitespace_is_the_unicode_property() {
    let mut code: u32 = 0;
    while code <= 0x10FFFF {
        if let Some(c) = char::from_u32(code) {
            assert_eq!(is_space(c), c.is_whitespace(), "at {:x}", code);
        }
        code += 1;
    }
}

#[test]
fn whitespace_samples() {
    assert!(is_space(' '));
    assert!(is_space('\t'));
    assert!(is_space('\n'));
    assert!(is_space('\u{0085}'));
    assert!(is_space('\u{2028}'));
    assert!(!is_space('a'));
    assert!(!is_space('#'));
    assert!(!is_space('\u{200B}'));
    assert!(!is_space('\u{180E}'));
}

#[test]
fn comment_marker() {
    assert!(is_comment("#"));
    assert!(is_comment("# text"));
    assert!(is_comment("#text"));
    assert!(!is_comment(""));
    assert!(!is_comment(" #"));
    assert!(!is_comment("a#"));
}

#[test]
fn characters_are_collected_in_order() {
    assert_eq!(collect_chars(""), Vec::<char>::new());
    assert_eq!(collect_chars("a é#"), vec!['a', ' ', 'é', '#']);
}

#[test]
fn leading_whitespace_is_discarded() {
    assert_eq!(discard_ws("", 0), 0);
    assert_eq!(discard_ws("abc", 0), 0);
    assert_eq!(discard_ws("  \t abc", 0), 4);
    assert_eq!(discard_ws("  \t abc", 2), 4);
    assert_eq!(discard_ws("ab  cd", 1), 1);
    assert_eq!(discard_ws("ab  cd", 2), 4);
    assert_eq!(discard_ws("   ", 0), 3);
    assert_eq!(discard_ws("   ", 3), 3);
    assert_eq!(discard_ws("\u{3000}\u{2003}é x", 0), 2);
    assert_eq!(discard_ws("é\u{3000} x", 1), 3);
}

#[test]
fn token_bounds() {
    let chars: Vec<char> = "  ab \tcde  ".chars().collect();
    assert_eq!(skip_ws(&chars, 0), 2);
    assert_eq!(word_end(&chars, 2), 4);
    assert_eq!(word_end(&chars, 4), 4);
    assert_eq!(next_token(&chars, 0), Some((2, 4)));
    assert_eq!(next_token(&chars, 3), Some((3, 4)));
    assert_eq!(next_token(&chars, 4), Some((6, 9)));
    assert_eq!(next_token(&chars, 9), None);
    assert_eq!(next_token(&chars, 11), None);
    let none: Vec<char> = Vec::new();
    assert_eq!(next_token(&none, 0), None);
}

#[test]
fn slash_and_port_of_a_field() {
    let chars: Vec<char> = "x 8080/tcp/y".chars().collect();
    assert_eq!(find_slash(&chars, 2, 12), 6);
    assert_eq!(find_slash(&chars, 7, 12), 10);
    assert_eq!(find_slash(&chars, 2, 6), 6);
    assert_eq!(find_slash(&chars, 0, 1), 1);
    assert_eq!(parse_port(&chars, 2, 6), Some(8080));
    assert_eq!(parse_port(&chars, 3, 6), Some(80));
    assert_eq!(parse_port(&chars, 2, 2), None);
    assert_eq!(parse_port(&chars, 2, 7), None);
    assert_eq!(parse_port(&chars, 0, 1), None);
}
