use bifrost::outpoint::{format_outpoint, parse_outpoint, Outpoint, ParseError};

fn hex64() -> String {
    "0123456789abcdef".repeat(4)
}

#[test]
fn parse_valid_path_yields_vout_3() {
    let path = format!("/{}:3", hex64());
    let o = parse_outpoint(path.as_bytes()).expect("valid path must parse");
    assert_eq!(o.vout, 3);
    assert_eq!(o.txid.len(), 32);
    assert_eq!(o.txid[0], 0x01);
    assert_eq!(o.txid[1], 0x23);
    assert_eq!(o.txid[7], 0xef);
    assert_eq!(o.txid[8], 0x01);
    assert_eq!(o.txid[31], 0xef);
}

#[test]
fn parse_uppercase_hex_accepted() {
    let path = format!("/{}:0", "AB".repeat(32));
    let o = parse_outpoint(path.as_bytes()).expect("uppercase hex must parse");
    assert!(o.txid.iter().all(|&b| b == 0xab));
    assert_eq!(o.vout, 0);
}

#[test]
fn parse_non_hex_fails() {
    let r = parse_outpoint(b"/xyz:3");
    assert_eq!(r.unwrap_err(), ParseError::InvalidHex);
}

#[test]
fn parse_wrong_hex_length_fails() {
    // Well-formed hex, but not a 32-byte hash.
    let r = parse_outpoint(b"/abcd:3");
    assert_eq!(r.unwrap_err(), ParseError::InvalidHex);
}

#[test]
fn parse_extra_colon_fails() {
    let r = parse_outpoint(b"/abcd:3:4");
    assert_eq!(r.unwrap_err(), ParseError::BadColonCount);
}

#[test]
fn parse_missing_colon_fails() {
    let r = parse_outpoint(b"/abcd");
    assert_eq!(r.unwrap_err(), ParseError::BadColonCount);
}

#[test]
fn parse_missing_leading_slash_fails() {
    let path = format!("{}:3", hex64());
    let r = parse_outpoint(path.as_bytes());
    assert_eq!(r.unwrap_err(), ParseError::WrongSegmentCount);
}

#[test]
fn parse_extra_segment_fails() {
    let path = format!("/{}:3/more", hex64());
    let r = parse_outpoint(path.as_bytes());
    assert_eq!(r.unwrap_err(), ParseError::WrongSegmentCount);
}

#[test]
fn parse_empty_path_fails() {
    let r = parse_outpoint(b"");
    assert_eq!(r.unwrap_err(), ParseError::WrongSegmentCount);
}

#[test]
fn parse_empty_vout_fails() {
    let path = format!("/{}:", hex64());
    let r = parse_outpoint(path.as_bytes());
    assert_eq!(r.unwrap_err(), ParseError::InvalidVout);
}

#[test]
fn parse_non_numeric_vout_fails() {
    let path = format!("/{}:12x", hex64());
    let r = parse_outpoint(path.as_bytes());
    assert_eq!(r.unwrap_err(), ParseError::InvalidVout);
}

#[test]
fn parse_vout_out_of_range_fails() {
    let path = format!("/{}:4294967296", hex64());
    let r = parse_outpoint(path.as_bytes());
    assert_eq!(r.unwrap_err(), ParseError::InvalidVout);
}

#[test]
fn parse_vout_at_max_succeeds() {
    let path = format!("/{}:4294967295", hex64());
    let o = parse_outpoint(path.as_bytes()).expect("u32::MAX vout must parse");
    assert_eq!(o.vout, u32::MAX);
}

#[test]
fn parse_vout_with_leading_zeroes_succeeds() {
    let path = format!("/{}:007", hex64());
    let o = parse_outpoint(path.as_bytes()).expect("leading zeroes are digits");
    assert_eq!(o.vout, 7);
}

#[test]
fn format_zero_outpoint_exact() {
    let o = Outpoint { txid: vec![0u8; 32], vout: 0 };
    let text = format_outpoint(&o);
    let expected = format!("{}:0", "0".repeat(64));
    assert_eq!(text, expected.as_bytes());
}

#[test]
fn format_mixed_outpoint_exact() {
    let mut txid = vec![0u8; 32];
    txid[0] = 0xde;
    txid[1] = 0xad;
    txid[31] = 0x0f;
    let o = Outpoint { txid, vout: 65537 };
    let text = format_outpoint(&o);
    let expected = format!("dead{}0f:65537", "0".repeat(58));
    assert_eq!(text, expected.as_bytes());
}

#[test]
fn format_then_parse_round_trip() {
    let txid: Vec<u8> = (0u8..32).collect();
    let o = Outpoint { txid: txid.clone(), vout: 123456 };
    let mut path = vec![b'/'];
    path.extend_from_slice(&format_outpoint(&o));
    let back = parse_outpoint(&path).expect("formatted outpoint must parse back");
    assert_eq!(back.txid, txid);
    assert_eq!(back.vout, 123456);
}
