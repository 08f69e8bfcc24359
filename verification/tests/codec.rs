use bencode_tools::Bencode;
use bencode_tools::ParseError;

fn check_serialize(expected: &str, obj: &Bencode) {
    let actual = obj.serialize();
    assert_eq!(expected.as_bytes(), &actual[..]);
}

fn try_parse(s: &str) -> Result<Bencode, ParseError> {
    Bencode::parse(s.as_bytes())
}

fn check_parse(expect: &Bencode, s: &str) {
    let actual = try_parse(s).unwrap();
    assert_eq!(*expect, actual);
}

fn parse_expecting_exception(testcases: &[&str], expect: ParseError) {
    for cs in testcases {
        let err = try_parse(cs).unwrap_err();
        assert_eq!(expect, err);
    }
}

#[test]
fn test_serialize_integer() {
    check_serialize("i0e", &Bencode::Int(0));
    check_serialize("i2e", &Bencode::Int(2));
    check_serialize("i-1e", &Bencode::Int(-1));
    check_serialize("i3141592e", &Bencode::Int(3141592));
    check_serialize("i-27182818284e", &Bencode::Int(-27182818284));
}

#[test]
fn test_serialize_integer_extremes() {
    check_serialize("i9223372036854775807e", &Bencode::Int(i64::MAX));
    check_serialize("i-9223372036854775808e", &Bencode::Int(i64::MIN));
}

#[test]
fn test_serialize_byte_string() {
    check_serialize("0:", &Bencode::Bytes(vec![]));
    check_serialize("1:\u{0}", &Bencode::Bytes(vec![0]));
    check_serialize("2:\u{4}\u{1}", &Bencode::Bytes(Vec::from(&b"\x04\x01"[..])));
    check_serialize("3:ben", &Bencode::Bytes(Vec::from(&b"ben"[..])));
    check_serialize("10:ABCDE98765", &Bencode::Bytes(Vec::from("ABCDE98765".as_bytes())));
}

#[test]
fn test_serialize_list() {
    check_serialize("le", &Bencode::List(vec![]));
    check_serialize("li4ee", &Bencode::List(vec![Bencode::Int(4)]));
    check_serialize(
        "li7e5:Helloe",
        &Bencode::List(vec![Bencode::Int(7), Bencode::Bytes(Vec::from("Hello".as_bytes()))]),
    );
    check_serialize(
        "li-88ele1:Xe",
        &Bencode::List(vec![
            Bencode::Int(-88),
            Bencode::List(vec![]),
            Bencode::Bytes(vec![b'X']),
        ]),
    );
}

#[test]
fn test_serialize_dictionary() {
    check_serialize("de", &Bencode::Dict(vec![]));
    check_serialize(
        "d0:lee",
        &Bencode::Dict(vec![(Vec::from(&b""[..]), Bencode::List(vec![]))]),
    );
    check_serialize(
        "d3:AAA6:-141422:ZZi768ee",
        &Bencode::Dict(vec![
            (Vec::from(&b"AAA"[..]), Bencode::Bytes(Vec::from(&b"-14142"[..]))),
            (Vec::from(&b"ZZ"[..]), Bencode::Int(768)),
        ]),
    );
    check_serialize(
        "d1:\u{3}le1:\u{8}dee",
        &Bencode::Dict(vec![
            (Vec::from(&b"\x03"[..]), Bencode::List(vec![])),
            (Vec::from(&b"\x08"[..]), Bencode::Dict(vec![])),
        ]),
    );
}

#[test]
fn test_parse_empty() {
    parse_expecting_exception(&[""], ParseError::EndOfInput);
}

#[test]
fn test_parse_invalid() {
    parse_expecting_exception(&["i0ei1e", "1:a2:bc3:def", "le0:de"], ParseError::InvalidGrammar);
}

#[test]
fn test_parse_integer() {
    check_parse(&Bencode::Int(0), "i0e");
    check_parse(&Bencode::Int(11), "i11e");
    check_parse(&Bencode::Int(-749), "i-749e");
    check_parse(&Bencode::Int(9223372036854775807), "i9223372036854775807e");
    check_parse(&Bencode::Int(-9223372036854775808), "i-9223372036854775808e");
}

#[test]
fn test_parse_integer_eof() {
    parse_expecting_exception(&["i", "i0", "i1248", "i-"], ParseError::EndOfInput);
}

#[test]
fn test_parse_integer_invalid() {
    parse_expecting_exception(
        &[
            "ie", "i00", "i00e", "i019", "i0199e", "i-e", "i-0", "i-0e", "i-026e", "i-B", "iA",
            "iAe", "i01Ce", "i+5e", "i4.0e", "i9E9e",
        ],
        ParseError::InvalidGrammar,
    );
}

#[test]
fn test_parse_integer_overflow() {
    parse_expecting_exception(
        &[
            "i9223372036854775808e",
            "i-9223372036854775809e",
            "i18446744073709551616e",
            "i99999999999999999999999999e",
        ],
        ParseError::InvalidGrammar,
    );
}

#[test]
fn test_parse_byte_string() {
    check_parse(&Bencode::Bytes(Vec::from(&b""[..])), "0:");
    check_parse(&Bencode::Bytes(Vec::from(&b"&"[..])), "1:&");
    check_parse(&Bencode::Bytes(Vec::from(&b"abcdefghijklm"[..])), "13:abcdefghijklm");
}

#[test]
fn test_parse_byte_string_eof() {
    parse_expecting_exception(
        &["0", "1", "843", "1:", "2:", "2:q", "d", "d3:$"],
        ParseError::EndOfInput,
    );
}

#[test]
fn test_parse_byte_string_invalid() {
    parse_expecting_exception(
        &["00", "01", "00:", "01:", "-", "-0", "-1:"],
        ParseError::InvalidGrammar,
    );
}

#[test]
fn test_parse_list() {
    check_parse(&Bencode::List(vec![]), "le");
    check_parse(&Bencode::List(vec![Bencode::Int(-6)]), "li-6ee");
    check_parse(
        &Bencode::List(vec![Bencode::Bytes(Vec::from(&b"00"[..])), Bencode::Int(55)]),
        "l2:00i55ee",
    );
    check_parse(
        &Bencode::List(vec![Bencode::List(vec![]), Bencode::List(vec![])]),
        "llelee",
    );
}

#[test]
fn test_parse_list_eof() {
    parse_expecting_exception(&["l", "li0e", "llleleel"], ParseError::EndOfInput);
}

#[test]
fn test_parse_dictionary() {
    check_parse(&Bencode::Dict(vec![]), "de");
    check_parse(
        &Bencode::Dict(vec![(Vec::from(&b"-"[..]), Bencode::Int(404))]),
        "d1:-i404ee",
    );
    check_parse(
        &Bencode::Dict(vec![
            (Vec::from(&b"010"[..]), Bencode::Bytes(Vec::from(&b"101"[..]))),
            (Vec::from(&b"yU"[..]), Bencode::List(vec![])),
        ]),
        "d3:0103:1012:yUlee",
    );
}

#[test]
fn test_parse_dictionary_eof() {
    parse_expecting_exception(&["d", "d1::", "d2:  0:", "d0:d"], ParseError::EndOfInput);
}

#[test]
fn test_parse_dictionary_invalid() {
    parse_expecting_exception(
        &[
            "d:",
            "d-",
            "d1:A0:1:A1:.",
            "d1:B0:1:A1:.",
            "d1:B0:1:D0:1:C0:",
            "d1:E0:1:F0:1:E0:",
            "d2:gg0:1:g0:",
        ],
        ParseError::InvalidGrammar,
    );
}

#[test]
fn test_round_trip_parse_then_serialize() {
    // a successful parse of a canonical input re-serializes byte for byte
    let inputs = [
        "i0e",
        "i-27182818284e",
        "0:",
        "13:abcdefghijklm",
        "le",
        "li-88ele1:Xe",
        "de",
        "d3:AAA6:-141422:ZZi768ee",
        "d1:-i404ee",
        "ld1:ai1eel0:ee",
    ];
    for s in inputs {
        let v = try_parse(s).unwrap();
        assert_eq!(s.as_bytes().to_vec(), v.serialize());
    }
}

#[test]
fn test_round_trip_serialize_then_parse() {
    // serializing any well-formed value parses back to an equal value
    let values = [
        Bencode::Int(i64::MIN),
        Bencode::Int(i64::MAX),
        Bencode::Bytes(vec![0, 255, 10]),
        Bencode::List(vec![
            Bencode::Int(-1),
            Bencode::List(vec![Bencode::Bytes(vec![])]),
            Bencode::Dict(vec![
                (b"k".to_vec(), Bencode::Int(7)),
                (b"kk".to_vec(), Bencode::Bytes(b"v".to_vec())),
            ]),
        ]),
    ];
    for v in values {
        let encoded = v.serialize();
        let reparsed = Bencode::parse(&encoded).unwrap();
        assert_eq!(v, reparsed);
    }
}

#[test]
fn test_parse_rejects_unsorted_nested_dictionary() {
    // key order is enforced inside nested values too
    parse_expecting_exception(&["ld1:B0:1:A0:ee"], ParseError::InvalidGrammar);
    assert!(try_parse("ld1:A0:1:B0:ee").is_ok());
}
