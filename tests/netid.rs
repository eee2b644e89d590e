use netid64::{NetId64, ParseError, Triple};

#[test]
fn layout_roundtrip() {
    let id = NetId64::make(1, 0x1234, 0xABCDE);
    assert_eq!(id.kind(), 1);
    assert_eq!(id.node(), 0x1234);
    assert_eq!(id.counter(), 0xABCDE);
    assert_eq!(NetId64::from_be_bytes(id.to_be_bytes()).raw(), id.raw());
}

#[test]
fn parse_and_display() {
    let id: NetId64 = "7:42:999".parse().unwrap();
    assert_eq!(id.kind(), 7);
    assert_eq!(id.node(), 42);
    assert_eq!(id.counter(), 999);
    assert_eq!(id.to_string(), "7:42:999");
    let hex = id.to_debug_string();
    assert!(hex.contains("0x"));
}

#[test]
fn make_places_fields() {
    let id = NetId64::make(1, 0x1234, 0xABCDE);
    assert_eq!(id.raw(), 0x0112_3400_000A_BCDE);
    assert_eq!(id.counter(), 703710);
    assert_eq!(id.node(), 4660);
    let t: Triple = id.to_triple();
    assert_eq!(t, Triple { kind: 1, node: 0x1234, counter: 0xABCDE });
}

#[test]
fn fields_at_their_limits() {
    let id = NetId64::make(255, 65535, (1u64 << 40) - 1);
    assert_eq!(id.raw(), u64::MAX);
    assert_eq!(id.kind(), 255);
    assert_eq!(id.node(), 65535);
    assert_eq!(id.counter(), (1u64 << 40) - 1);
    let zero = NetId64::make(0, 0, 0);
    assert_eq!(zero.raw(), 0);
    assert_eq!(zero.to_string(), "0:0:0");
}

#[test]
fn counter_is_cut_to_forty_bits() {
    let big = NetId64::make(3, 9, (1u64 << 40) + 5);
    assert_eq!(big, NetId64::make(3, 9, 5));
    assert_eq!(big.counter(), 5);
    assert_eq!(NetId64::make(3, 9, u64::MAX), NetId64::make(3, 9, (1u64 << 40) - 1));
}

#[test]
fn bytes_are_big_endian() {
    let id = NetId64::make(7, 42, 999);
    assert_eq!(id.to_be_bytes(), [0x07, 0x00, 0x2A, 0x00, 0x00, 0x00, 0x03, 0xE7]);
    let back = NetId64::from_be_bytes([1, 2, 3, 4, 5, 6, 7, 8]);
    assert_eq!(back.raw(), 0x0102_0304_0506_0708);
    assert_eq!(back.kind(), 1);
    assert_eq!(back.node(), 0x0203);
}

#[test]
fn bytes_round_trip_on_many_values() {
    for v in [0u64, 1, 255, 256, 0x0102_0304_0506_0708, u64::MAX, 1u64 << 63] {
        assert_eq!(NetId64::from_be_bytes(NetId64(v).to_be_bytes()), NetId64(v));
    }
}

#[test]
fn canonical_text_round_trips() {
    for (k, n, c) in [(0u8, 0u16, 0u64), (7, 42, 999), (255, 65535, (1u64 << 40) - 1), (10, 100, 1000)] {
        let text = format!("{k}:{n}:{c}");
        let id = NetId64::parse(&text).unwrap();
        let t = id.to_triple();
        assert_eq!((t.kind, t.node, t.counter), (k, n, c));
        assert_eq!(id.to_string(), text);
    }
}

#[test]
fn hex_form_reads_raw_value() {
    assert_eq!(NetId64::parse("0x0700002A000003E7"), Ok(NetId64(0x0700_002A_0000_03E7)));
    assert_eq!(NetId64::parse("0x700002a000003e7"), Ok(NetId64(0x0700_002A_0000_03E7)));
    assert_eq!(NetId64::parse("0xFFFFFFFFFFFFFFFF"), Ok(NetId64(u64::MAX)));
    assert_eq!(NetId64::parse("0x0000000000000000000001"), Ok(NetId64(1)));
    assert_eq!(NetId64::parse("0xaBc"), Ok(NetId64(0xABC)));
    let v: u64 = 0xDEAD_BEEF_0123_4567;
    assert_eq!(NetId64::parse(&format!("0x{v:x}")), Ok(NetId64(v)));
    assert_eq!(NetId64::parse(&format!("0x{v:X}")), Ok(NetId64(v)));
}

#[test]
fn malformed_text_is_rejected() {
    for s in ["1:2", "1:2:3:4", "256:0:0", "a:b:c", "0xZZ"] {
        assert_eq!(NetId64::parse(s), Err(ParseError));
    }
}

#[test]
fn other_malformed_text_is_rejected() {
    for s in [
        "",
        "0x",
        "0x10000000000000000",
        "1:65536:0",
        "1:2:18446744073709551616",
        "1::3",
        ":2:3",
        "-1:2:3",
        " 1:2:3",
        "1:2:3 ",
        "+",
        "1:2:+",
        "0X12",
    ] {
        assert_eq!(NetId64::parse(s), Err(ParseError), "{s}");
    }
}

#[test]
fn leading_plus_and_zeros_are_taken() {
    assert_eq!(NetId64::parse("+7:+42:+999"), Ok(NetId64::make(7, 42, 999)));
    assert_eq!(NetId64::parse("007:0042:0999"), Ok(NetId64::make(7, 42, 999)));
    assert_eq!(NetId64::parse("0x+ff"), Ok(NetId64(0xFF)));
}

#[test]
fn triple_counter_is_cut_when_parsed() {
    let id = NetId64::parse("1:2:18446744073709551615").unwrap();
    assert_eq!(id, NetId64::make(1, 2, u64::MAX));
    assert_eq!(id.counter(), (1u64 << 40) - 1);
}

#[test]
fn diagnostic_text_shows_fields_and_raw() {
    let id = NetId64::make(7, 42, 999);
    assert_eq!(id.to_debug_string(), "NetId64(7:42:999 | 0x07002A00000003E7)");
    assert_eq!(NetId64(0).to_debug_string(), "NetId64(0:0:0 | 0x0000000000000000)");
}

#[test]
fn order_follows_kind_then_node_then_counter() {
    assert!(NetId64::make(1, 0, 0) > NetId64::make(0, 65535, (1u64 << 40) - 1));
    assert!(NetId64::make(1, 2, 0) > NetId64::make(1, 1, 5));
    assert!(NetId64::make(1, 2, 3) < NetId64::make(1, 2, 4));
}

#[test]
fn parse_error_message() {
    assert_eq!(ParseError.to_string(), "invalid NetId64");
}

#[test]
fn from_str_matches_parse() {
    let a: Result<NetId64, ParseError> = "9:8:7".parse();
    assert_eq!(a, NetId64::parse("9:8:7"));
    let b: Result<NetId64, ParseError> = "9:8".parse();
    assert_eq!(b, Err(ParseError));
}
