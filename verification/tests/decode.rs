use quake3::codec::decode_status;
use quake3::error::DecodeFault;
use quake3::error::QueryError;

#[test]
fn well_formed_payload() {
    let r = decode_status(b"H\n\\k1\\v1\\k2\\v2\n123 45 Alice\n").unwrap();
    assert_eq!(r.header, "H");
    assert_eq!(r.variables.len(), 2);
    let k1 = String::from("k1");
    let k2 = String::from("k2");
    assert_eq!(r.variable(&k1), Some(String::from("v1")));
    assert_eq!(r.variable(&k2), Some(String::from("v2")));
    assert_eq!(r.players.len(), 1);
    assert_eq!(r.players[0].score, 123);
    assert_eq!(r.players[0].ping, 45);
    assert_eq!(r.players[0].name, "Alice");
}

#[test]
fn duplicate_key_last_wins() {
    let r = decode_status(b"H\n\\k\\a\\k\\b\n\n").unwrap();
    assert_eq!(r.variables.len(), 1);
    let k = String::from("k");
    assert_eq!(r.variable(&k), Some(String::from("b")));
    let missing = String::from("missing");
    assert_eq!(r.variable(&missing), None);
}

#[test]
fn nul_line_excluded() {
    let r = decode_status(b"H\n\n1 2 A\n\x003 4 B\n5 6 C").unwrap();
    assert_eq!(r.players.len(), 2);
    assert_eq!(r.players[0].name, "A");
    assert_eq!(r.players[1].name, "C");
}

#[test]
fn nul_padding_only_players() {
    let r = decode_status(b"H\n\n\x00\x00\x00").unwrap();
    assert!(r.players.is_empty());
}

#[test]
fn non_numeric_score_defaults() {
    let r = decode_status(b"H\n\nxx 45 Bob").unwrap();
    assert_eq!(r.players.len(), 1);
    assert_eq!(r.players[0].score, 0);
    assert_eq!(r.players[0].ping, 45);
    assert_eq!(r.players[0].name, "Bob");
}

#[test]
fn non_numeric_ping_defaults() {
    let r = decode_status(b"H\n\n7 ?? Carol").unwrap();
    assert_eq!(r.players[0].score, 7);
    assert_eq!(r.players[0].ping, 0);
}

#[test]
fn missing_header_separator() {
    let r = decode_status(b"no-newline-at-all");
    assert!(matches!(
        r,
        Err(QueryError::MalformedResponse(DecodeFault::MissingHeaderSeparator))
    ));
}

#[test]
fn missing_body_separator() {
    let r = decode_status(b"H\nrest-without-second-newline");
    assert!(matches!(
        r,
        Err(QueryError::MalformedResponse(DecodeFault::MissingBodySeparator))
    ));
}

#[test]
fn decode_twice_identical() {
    let payload = b"H\n\\g\\baseq3\\sv_maxclients\\16\n12 30 One\n\x00pad\n3 999999 Two\n";
    let a = decode_status(payload).unwrap();
    let b = decode_status(payload).unwrap();
    assert_eq!(a, b);
}

#[test]
fn score_bounds() {
    let r = decode_status(b"H\n\n4294967295 1 Max\n4294967296 1 Over").unwrap();
    assert_eq!(r.players[0].score, u32::MAX);
    assert_eq!(r.players[1].score, 0);
}

#[test]
fn ping_bounds() {
    let r = decode_status(b"H\n\n1 65535 Max\n1 65536 Over").unwrap();
    assert_eq!(r.players[0].ping, u16::MAX);
    assert_eq!(r.players[1].ping, 0);
}

#[test]
fn plus_sign_accepted() {
    let r = decode_status(b"H\n\n+7 +8 Plus\n+ 1 Lone").unwrap();
    assert_eq!(r.players[0].score, 7);
    assert_eq!(r.players[0].ping, 8);
    assert_eq!(r.players[1].score, 0);
    assert_eq!(r.players[1].name, "Lone");
}

#[test]
fn short_line_skipped() {
    let r = decode_status(b"H\n\n1 2\n3 4 D\n\n").unwrap();
    assert_eq!(r.players.len(), 1);
    assert_eq!(r.players[0].name, "D");
}

#[test]
fn name_is_third_token_only() {
    let r = decode_status(b"H\n\n1 2 Name With Spaces").unwrap();
    assert_eq!(r.players[0].name, "Name");
}

#[test]
fn whitespace_runs_separate_fields() {
    let r = decode_status(b"H\n\n10\t\t20   Tab").unwrap();
    assert_eq!(r.players[0].score, 10);
    assert_eq!(r.players[0].ping, 20);
    assert_eq!(r.players[0].name, "Tab");
}

#[test]
fn odd_trailing_variable_token_dropped() {
    let r = decode_status(b"H\n\\k1\\v1\\k2\n\n").unwrap();
    assert_eq!(r.variables.len(), 1);
    let k2 = String::from("k2");
    assert_eq!(r.variable(&k2), None);
}

#[test]
fn extra_leading_delimiters_skipped() {
    let r = decode_status(b"H\n\\\\k\\v\n\n").unwrap();
    assert_eq!(r.variables.len(), 1);
    let k = String::from("k");
    assert_eq!(r.variable(&k), Some(String::from("v")));
}

#[test]
fn empty_body_segments() {
    let r = decode_status(b"H\n\n").unwrap();
    assert!(r.variables.is_empty());
    assert!(r.players.is_empty());
}

#[test]
fn invalid_utf8_becomes_replacement() {
    let r = decode_status(&[0x48, 0xFF, 0x0A, 0x0A]).unwrap();
    assert_eq!(r.header, "H\u{FFFD}");
}

#[test]
fn header_keeps_raw_text() {
    let r = decode_status(b"\xFF\xFF\xFF\xFFstatusResponse\n\\sv_hostname\\Arena\n").unwrap();
    assert_eq!(r.header, "\u{FFFD}\u{FFFD}\u{FFFD}\u{FFFD}statusResponse");
    let k = String::from("sv_hostname");
    assert_eq!(r.variable(&k), Some(String::from("Arena")));
}
