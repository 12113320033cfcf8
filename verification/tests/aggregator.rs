use servicefile::entry::{ServiceEntry, ServiceError};
use servicefile::source::{parse_file, parse_servicefile, services_path, Source};

fn opened(text: &str) -> Source {
    Source::Opened { lines: text.lines().map(|l| l.to_string()).collect(), read_failed: false }
}

fn broken(text: &str) -> Source {
    Source::Opened { lines: text.lines().map(|l| l.to_string()).collect(), read_failed: true }
}

fn entry(name: &str, port: usize, protocol: &str, aliases: &[&str]) -> ServiceEntry {
    ServiceEntry {
        name: name.to_string(),
        port,
        protocol: protocol.to_string(),
        aliases: aliases.iter().map(|a| a.to_string()).collect(),
    }
}

#[test]
fn test_parse_file() {
    let source = opened(
        "\
                # WELL KNOWN PORT NUMBERS\n\
                #
                rtmp              1/ddp    #Routing Table Maintenance Protocol\n\
                tcpmux            1/udp     # TCP Port Service Multiplexer\n\
                tcpmux            1/tcp     # TCP Port Service Multiplexer\n\
                #                          Mark Lottor <MKL@nisc.sri.com>\n\
                nbp               2/ddp    #Name Binding Protocol\n\
                compressnet       2/udp     # Management Utility\n\
                compressnet       2/tcp     # Management Utility\n\
                compressnet       3/udp     # Compression Process\n\
                compressnet       3/tcp     # Compression Process\n\
            ",
    );
    assert_eq!(
        parse_file(&source, false),
        Ok(vec!(
            ServiceEntry {
                name: "rtmp".to_string(),
                port: 1,
                protocol: "ddp".to_string(),
                aliases: vec!(),
            },
            ServiceEntry {
                name: "tcpmux".to_string(),
                port: 1,
                protocol: "udp".to_string(),
                aliases: vec!(),
            },
            ServiceEntry {
                name: "tcpmux".to_string(),
                port: 1,
                protocol: "tcp".to_string(),
                aliases: vec!(),
            },
            ServiceEntry {
                name: "nbp".to_string(),
                port: 2,
                protocol: "ddp".to_string(),
                aliases: vec!(),
            },
            ServiceEntry {
                name: "compressnet".to_string(),
                port: 2,
                protocol: "udp".to_string(),
                aliases: vec!(),
            },
            ServiceEntry {
                name: "compressnet".to_string(),
                port: 2,
                protocol: "tcp".to_string(),
                aliases: vec!(),
            },
            ServiceEntry {
                name: "compressnet".to_string(),
                port: 3,
                protocol: "udp".to_string(),
                aliases: vec!(),
            },
            ServiceEntry {
                name: "compressnet".to_string(),
                port: 3,
                protocol: "tcp".to_string(),
                aliases: vec!(),
            },
        ))
    );
}

#[test]
fn test_parse_file_errors() {
    assert_eq!(
        parse_file(&opened("service\n"), false).map_err(|e| e.message()),
        Err("Could not find port and protocol field")
    );
    assert_eq!(
        parse_file(&opened("service # 1/tcp\n"), false).map_err(|e| e.message()),
        Err("Could not find port and protocol field")
    );
    assert_eq!(
        parse_file(&opened("service  1#/tcp\n"), false).map_err(|e| e.message()),
        Err("Malformed port")
    );
    assert_eq!(
        parse_file(&opened("service  1/#tcp\n"), false).map_err(|e| e.message()),
        Err("Could not find protocol")
    );
    assert_eq!(
        parse_file(&opened("service asdf/tcp\n"), false).map_err(|e| e.message()),
        Err("Malformed port")
    );
    assert_eq!(
        parse_file(&opened("service asdf/\n"), false).map_err(|e| e.message()),
        Err("Malformed port")
    );
    assert_eq!(
        parse_file(&Source::NotRegularFile, false).map_err(|e| e.message()),
        Err("File does not exist or is not a regular file")
    );
}

#[test]
fn test_parse_servicefile() {
    let source = opened(
        "# Network services, Internet style\n\
         \n\
         tcpmux\t\t1/tcp\t\t\t\t# TCP port service multiplexer\n\
         echo\t\t7/tcp\n\
         echo\t\t7/udp\n\
         discard\t\t9/tcp\t\tsink null\n\
         \t\t9/udp\t\tsink null\n\
         smtp\t\t25/tcp\t\tmail\n\
         broken\n",
    );
    assert_eq!(parse_servicefile(&source, true).is_ok(), true);
}

#[test]
fn the_default_source_is_parsed_as_any_other() {
    let source = opened("echo 7/tcp\nbroken\necho 7/udp\n");
    assert_eq!(parse_servicefile(&source, true), parse_file(&source, true));
    assert_eq!(parse_servicefile(&source, false), parse_file(&source, false));
    assert_eq!(
        parse_servicefile(&source, true),
        Ok(vec![entry("echo", 7, "tcp", &[]), entry("echo", 7, "udp", &[])])
    );
    assert_eq!(parse_servicefile(&source, false), Err(ServiceError::MissingPortProtocolField));
    assert_eq!(services_path(), "/etc/services");
}

#[test]
fn sources_that_cannot_be_read() {
    for ignore in [false, true] {
        assert_eq!(parse_file(&Source::NotRegularFile, ignore), Err(ServiceError::InvalidSource));
        assert_eq!(parse_file(&Source::Unopenable, ignore), Err(ServiceError::OpenFailed));
        assert_eq!(
            parse_servicefile(&Source::NotRegularFile, ignore),
            Err(ServiceError::InvalidSource)
        );
        assert_eq!(parse_servicefile(&Source::Unopenable, ignore), Err(ServiceError::OpenFailed));
    }
}

#[test]
fn a_read_fault_is_never_tolerated() {
    for ignore in [false, true] {
        assert_eq!(parse_file(&broken("echo 7/tcp\n"), ignore), Err(ServiceError::ReadFailed));
        assert_eq!(parse_file(&broken(""), ignore), Err(ServiceError::ReadFailed));
    }
    assert_eq!(parse_file(&broken("echo 7/tcp\nbad\n"), true), Err(ServiceError::ReadFailed));
}

#[test]
fn a_malformed_line_comes_before_a_later_read_fault() {
    assert_eq!(
        parse_file(&broken("echo 7/tcp\nbad x/tcp\n"), false),
        Err(ServiceError::MalformedPort)
    );
}

#[test]
fn comments_and_blank_lines_give_nothing() {
    let source = opened("# one\n\n   \n\t# two\n#\n \u{3000} \n   #three 1/tcp\n");
    assert_eq!(parse_file(&source, false), Ok(vec![]));
    assert_eq!(parse_file(&source, true), Ok(vec![]));
    assert_eq!(parse_file(&opened(""), false), Ok(vec![]));
    assert_eq!(parse_file(&opened(""), true), Ok(vec![]));
}

#[test]
fn malformed_lines_are_dropped_when_ignored() {
    let source = opened(
        "echo 7/tcp\n\
         service\n\
         # comment\n\
         discard 9/tcp sink null\n\
         bad asdf/tcp\n\
         worse 1/#tcp\n\
         daytime 13/udp # last\n",
    );
    assert_eq!(
        parse_file(&source, true),
        Ok(vec![
            entry("echo", 7, "tcp", &[]),
            entry("discard", 9, "tcp", &["sink", "null"]),
            entry("daytime", 13, "udp", &[]),
        ])
    );
}

#[test]
fn the_first_malformed_line_aborts_when_not_ignored() {
    let source = opened(
        "echo 7/tcp\n\
         discard 9/tcp sink null\n\
         bad asdf/tcp\n\
         service\n\
         daytime 13/udp\n",
    );
    assert_eq!(parse_file(&source, false), Err(ServiceError::MalformedPort));
    let other = opened("echo 7/tcp\nworse 1/#tcp\nbad asdf/tcp\n");
    assert_eq!(parse_file(&other, false), Err(ServiceError::MissingProtocolField));
}

#[test]
fn indented_entries_are_parsed() {
    let source = opened("   echo 7/tcp\n\t\u{00A0}discard 9/udp sink\n");
    assert_eq!(
        parse_file(&source, false),
        Ok(vec![entry("echo", 7, "tcp", &[]), entry("discard", 9, "udp", &["sink"])])
    );
}

#[test]
fn parsing_a_source_twice_gives_the_same() {
    let source = opened("echo 7/tcp\nbad\n# c\ndiscard 9/tcp sink null\n");
    assert_eq!(parse_file(&source, true), parse_file(&source, true));
    assert_eq!(parse_file(&source, false), parse_file(&source, false));
}
