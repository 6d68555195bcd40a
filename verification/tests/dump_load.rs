use nxd::dump::dump_impl;
use nxd::errors::HexError;
use nxd::load::{extract_dump, load_impl, split_lines};
use nxd::parse::for_parsed_data;

fn dump(i: impl AsRef<[u8]>, columns: usize, groupsize: usize) -> Result<String, HexError> {
    let out = dump_impl(i.as_ref(), columns, groupsize, 0)?;
    Ok(String::from_utf8(out).unwrap())
}

fn hex(s: &str) -> Vec<u8> {
    for_parsed_data(s).unwrap()
}

#[test]
fn test_dump() {
    assert!(dump("abcd", 0, 4).is_err());
    assert_eq!(dump("abcd", 4, 0).unwrap(), "00000000: 61626364 | abcd\n");
    assert_eq!(
        dump("abcd", 1, 0).unwrap(),
        "00000000: 61 | a\n00000001: 62 | b\n00000002: 63 | c\n00000003: 64 | d\n"
    );
    assert_eq!(dump("abcd", 2, 0).unwrap(), "00000000: 6162 | ab\n00000002: 6364 | cd\n");
    assert_eq!(dump("abc", 2, 0).unwrap(), "00000000: 6162 | ab\n00000002: 63   | c\n");
    assert_eq!(dump("\n", 2, 0).unwrap(), "00000000: 0a | .\n");
    assert_eq!(dump(hex("aaaa"), 2, 0).unwrap(), "00000000: aaaa | ..\n");
}

#[test]
fn test_dump_grouped() {
    assert_eq!(
        dump("abcdef", 4, 2).unwrap(),
        "00000000: 6162 6364 | abcd\n00000004: 6566      | ef\n"
    );
    assert_eq!(dump("", 4, 2).unwrap(), "");
    assert_eq!(dump("abcd", 4, 4).unwrap(), "00000000: 61626364 | abcd\n");
}

#[test]
fn test_dump_initial_offset() {
    assert_eq!(
        dump_impl(b"ab", 2, 0, 0x100).unwrap(),
        b"00000100: 6162 | ab\n".to_vec()
    );
    // An offset wide enough spills past the eight-digit column.
    assert_eq!(
        dump_impl(b"a", 1, 0, 0x1_0000_0000).unwrap(),
        b"100000000: 61 | a\n".to_vec()
    );
}

#[test]
fn test_extract_dump() {
    assert_eq!(extract_dump(""), "");
    assert_eq!(extract_dump("abcd"), "abcd");
    assert_eq!(extract_dump("0: abcd"), "abcd");
    assert_eq!(extract_dump(": abcd"), "abcd");
    assert_eq!(extract_dump(":abcd"), "abcd");
    assert_eq!(extract_dump("0: abcd|????"), "abcd");
    assert_eq!(extract_dump("0: abcd |????"), "abcd");
    assert_eq!(extract_dump("0: abcd| ????"), "abcd");
    assert_eq!(extract_dump("0: abcd | ????"), "abcd");
    assert_eq!(extract_dump("0: abcd "), "abcd");
    assert_eq!(extract_dump("0:    abcd "), "abcd");
    assert_eq!(extract_dump(" abcd "), "abcd");
    assert_eq!(extract_dump("  abcd "), "abcd");
    assert_eq!(extract_dump(" abcd | ????"), "abcd");
    assert_eq!(extract_dump("00 abcd |  ????"), "00 abcd");
    assert_eq!(extract_dump("abcd |0:  ????"), "abcd");
}

#[test]
fn test_split_lines() {
    assert_eq!(split_lines(""), Vec::<String>::new());
    assert_eq!(split_lines("ab"), vec!["ab".to_string()]);
    assert_eq!(split_lines("ab\n"), vec!["ab".to_string()]);
    assert_eq!(split_lines("ab\ncd"), vec!["ab".to_string(), "cd".to_string()]);
    assert_eq!(split_lines("ab\r\ncd\r\n"), vec!["ab".to_string(), "cd".to_string()]);
    assert_eq!(split_lines("\n\n"), vec!["".to_string(), "".to_string()]);
    // A carriage return is stripped only as part of a CRLF terminator: a
    // final fragment keeps it, as a line reader would yield it.
    assert_eq!(split_lines("ab\r"), vec!["ab\r".to_string()]);
}

#[test]
fn test_load_impl() {
    let (bytes, err) = load_impl("00000000: 6162 | ab\n00000002: 6364 | cd\n");
    assert_eq!(bytes, b"abcd".to_vec());
    assert_eq!(err, None);

    let (bytes, err) = load_impl("6162\r\n6364\r\n");
    assert_eq!(bytes, b"abcd".to_vec());
    assert_eq!(err, None);

    // Offsets and comments are ignored entirely.
    let (bytes, err) = load_impl("ffff: 61 | this comment is not data\n");
    assert_eq!(bytes, vec![0x61]);
    assert_eq!(err, None);

    // Bytes before the failing line are kept; the error ends the run.
    let (bytes, err) = load_impl("6162\n63zz\n6465\n");
    assert_eq!(bytes, vec![0x61, 0x62, 0x63]);
    assert_eq!(err, Some(HexError::InvalidHexDigit));

    let (bytes, err) = load_impl("616\n");
    assert_eq!(bytes, Vec::<u8>::new());
    assert_eq!(err, Some(HexError::MalformedOctet));
}

#[test]
fn test_round_trip_concrete() {
    let cases: Vec<Vec<u8>> = vec![
        b"".to_vec(),
        b"a".to_vec(),
        b"abcd".to_vec(),
        b"hello world, with | pipe: and colon".to_vec(),
        (0u8..=255).collect(),
    ];
    for input in cases {
        for columns in [1usize, 2, 3, 16] {
            for groupsize in [0usize, 1, 2, 4, 7] {
                let text = dump_impl(&input, columns, groupsize, 0).unwrap();
                let (bytes, err) = load_impl(&String::from_utf8(text).unwrap());
                assert_eq!(err, None);
                assert_eq!(bytes, input);
            }
        }
    }
}
