use nxd::errors::HexError;
use nxd::parse::{for_parsed_data, parse_octets, recognize_line, DumpLine, Offset};

#[test]
fn test_recognize_line() {
    let p = |offset: &str, data: &str, comment: &str| DumpLine {
        offset: offset.to_string(),
        data: data.to_string(),
        comment: comment.to_string(),
    };
    assert_eq!(recognize_line(""), p("", "", ""));
    assert_eq!(recognize_line("abcd"), p("", "abcd", ""));
    assert_eq!(recognize_line("0: abcd"), p("0", "abcd", ""));
    assert_eq!(recognize_line("00000000: abcd"), p("00000000", "abcd", ""));
    assert_eq!(recognize_line("  deadbeef: abcd"), p("deadbeef", "abcd", ""));
    assert_eq!(recognize_line(": abcd"), p("", "abcd", ""));
    assert_eq!(recognize_line(":abcd"), p("", "abcd", ""));
    assert_eq!(recognize_line("0: abcd|????"), p("0", "abcd", "????"));
    assert_eq!(recognize_line("0: abcd |????"), p("0", "abcd", "????"));
    assert_eq!(recognize_line("0: abcd| ????"), p("0", "abcd", " ????"));
    assert_eq!(recognize_line("0: abcd | ????"), p("0", "abcd", " ????"));
    assert_eq!(recognize_line("0: abcd "), p("0", "abcd", ""));
    assert_eq!(recognize_line("0:    abcd "), p("0", "abcd", ""));
    assert_eq!(recognize_line(" abcd "), p("", "abcd", ""));
    assert_eq!(recognize_line("  abcd "), p("", "abcd", ""));
    assert_eq!(recognize_line(" abcd | ????"), p("", "abcd", " ????"));
    assert_eq!(recognize_line("00 abcd |  ????"), p("", "00 abcd", "  ????"));
    assert_eq!(recognize_line("abcd |0:  ????"), p("", "abcd", "0:  ????"));
}

#[test]
fn test_offset_parsing() {
    let abs = Offset::Absolute;
    let rel = Offset::Relative;
    assert_eq!(Offset::parse("00000000"), Ok(abs(0)));
    assert_eq!(Offset::parse("00000001"), Ok(abs(1)));
    assert_eq!(Offset::parse("a"), Ok(abs(10)));
    assert_eq!(Offset::parse("A"), Ok(abs(10)));
    assert!(Offset::parse("g").is_err());
    assert!(Offset::parse("+").is_err());
    assert!(Offset::parse("-").is_err());
    assert_eq!(Offset::parse("+1"), Ok(rel(1)));
    assert_eq!(Offset::parse("-1"), Ok(rel(-1)));
}

#[test]
fn test_offset_parsing_limits() {
    assert_eq!(
        Offset::parse("ffffffffffffffff"),
        Ok(Offset::Absolute(u64::MAX))
    );
    assert_eq!(Offset::parse("10000000000000000"), Err(HexError::InvalidOffset));
    assert_eq!(Offset::parse("+7fffffffffffffff"), Ok(Offset::Relative(i64::MAX)));
    assert_eq!(Offset::parse("-8000000000000000"), Ok(Offset::Relative(i64::MIN)));
    assert_eq!(Offset::parse("+8000000000000000"), Err(HexError::InvalidOffset));
    assert_eq!(Offset::parse("-8000000000000001"), Err(HexError::InvalidOffset));
    assert_eq!(Offset::parse(""), Err(HexError::InvalidOffset));
    assert_eq!(Offset::parse("12g4"), Err(HexError::InvalidOffset));
}

#[test]
fn test_to_absolute() {
    assert_eq!(Offset::Absolute(7).to_absolute(None), Ok(7));
    assert_eq!(Offset::Absolute(7).to_absolute(Some(100)), Ok(7));
    assert_eq!(
        Offset::Relative(1).to_absolute(None),
        Err(HexError::NoBasisForRelativeOffset)
    );
    assert_eq!(Offset::Relative(2).to_absolute(Some(5)), Ok(7));
    assert_eq!(Offset::Relative(-2).to_absolute(Some(5)), Ok(3));
    assert_eq!(
        Offset::Relative(-6).to_absolute(Some(5)),
        Err(HexError::OffsetOverflow)
    );
    assert_eq!(
        Offset::Relative(1).to_absolute(Some(u64::MAX)),
        Err(HexError::OffsetOverflow)
    );
    assert_eq!(Offset::Relative(i64::MIN).to_absolute(Some(u64::MAX)), Ok(i64::MAX as u64));
}

#[test]
fn test_parse_octets() {
    let (bytes, err) = parse_octets("aa");
    assert_eq!(bytes, vec![0xAA]);
    assert_eq!(err, None);

    let (bytes, err) = parse_octets("a");
    assert_eq!(bytes, Vec::<u8>::new());
    assert_eq!(err, Some(HexError::MalformedOctet));

    let (bytes, err) = parse_octets("");
    assert_eq!(bytes, Vec::<u8>::new());
    assert_eq!(err, None);

    // Bytes decoded before the bad spot stay decoded.
    let (bytes, err) = parse_octets("aabb ccgg");
    assert_eq!(bytes, vec![0xAA, 0xBB, 0xCC]);
    assert_eq!(err, Some(HexError::InvalidHexDigit));

    let (bytes, err) = parse_octets("  0aB9\t10 ");
    assert_eq!(bytes, vec![0x0A, 0xB9, 0x10]);
    assert_eq!(err, None);
}

#[test]
fn test_for_parsed_data() {
    assert_eq!(for_parsed_data("deadbeef"), Ok(vec![0xDE, 0xAD, 0xBE, 0xEF]));
    assert_eq!(for_parsed_data("de ad be ef"), Ok(vec![0xDE, 0xAD, 0xBE, 0xEF]));
    assert_eq!(for_parsed_data("abc"), Err(HexError::MalformedOctet));
    assert_eq!(for_parsed_data("zz"), Err(HexError::InvalidHexDigit));
    assert_eq!(for_parsed_data(""), Ok(Vec::new()));
}

#[test]
fn test_error_describe() {
    assert!(!HexError::MalformedOctet.describe().is_empty());
    assert!(!HexError::InvalidHexDigit.describe().is_empty());
    assert!(!HexError::InvalidOffset.describe().is_empty());
    assert!(!HexError::NoBasisForRelativeOffset.describe().is_empty());
    assert!(!HexError::OffsetOverflow.describe().is_empty());
    assert!(!HexError::OffsetAdjustmentOverflow.describe().is_empty());
    assert!(!HexError::OffsetRequiredBeforeData.describe().is_empty());
    assert!(!HexError::InvalidConfiguration.describe().is_empty());
}
