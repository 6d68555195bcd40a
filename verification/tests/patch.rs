use nxd::errors::HexError;
use nxd::parse::for_parsed_data;
use nxd::patch::patch_impl;

fn patch(i: &str, o: impl Into<Vec<u8>>) -> Result<Vec<u8>, HexError> {
    patch_offset(i, o, 0)
}

fn patch_offset(i: &str, o: impl Into<Vec<u8>>, offset: i64) -> Result<Vec<u8>, HexError> {
    let mut o = o.into();
    patch_impl(i, &mut o, offset)?;
    Ok(o)
}

fn hex(s: &str) -> Vec<u8> {
    for_parsed_data(s).unwrap()
}

#[test]
fn test_patch() {
    assert!(patch("aa", []).is_err());
    assert_eq!(patch("0: aabbcc", hex("ddccbbaa")).unwrap(), hex("aabbccaa"));
    assert_eq!(patch("0: aabbcc", hex("dd")).unwrap(), hex("aabbcc"));
    assert_eq!(patch("1: aabbcc", hex("ddeeff")).unwrap(), hex("ddaabbcc"));
    assert_eq!(patch("0: aabb\ncc", hex("ddccbbaa")).unwrap(), hex("aabbccaa"));
    assert_eq!(patch("0: aa\nbb\ncc", hex("ddccbbaa")).unwrap(), hex("aabbccaa"));
    assert_eq!(patch("0: aabb\n2:cc", hex("ddccbbaa")).unwrap(), hex("aabbccaa"));
    assert_eq!(patch("0: aabb\n1:cc", hex("ddccbbaa")).unwrap(), hex("aaccbbaa"));
    assert_eq!(patch("", hex("ddccbbaa")).unwrap(), hex("ddccbbaa"));
    assert_eq!(patch("0:", hex("ddccbbaa")).unwrap(), hex("ddccbbaa"));
    assert_eq!(patch("2500:", hex("ddccbbaa")).unwrap(), hex("ddccbbaa"));
    assert_eq!(patch("0:\naabb", hex("ddccbbaa")).unwrap(), hex("aabbbbaa"));
    assert_eq!(patch("5:aabb", hex("ddccbbaa")).unwrap(), hex("ddccbbaa00aabb"));
    assert_eq!(patch("01:01\n+02:03", hex("ddccbbaa")).unwrap(), hex("dd01bb03"));
    assert_eq!(patch("01:01\n-01:00", hex("ddccbbaa")).unwrap(), hex("0001bbaa"));
    assert!(patch("+01:01", hex("ddccbbaa")).is_err());
    assert!(patch("00:\n-01:01", hex("ddccbbaa")).is_err());
}

#[test]
fn test_patch_offset() {
    assert_eq!(patch_offset("0:aa", hex("ddccbbaa"), 1).unwrap(), hex("ddaabbaa"));
    assert_eq!(patch_offset("0:aa", hex("ddccbbaa"), 4).unwrap(), hex("ddccbbaaaa"));
    assert_eq!(patch_offset("1:01\n+1:02", hex("ddccbbaa"), 1).unwrap(), hex("ddcc0102"));
    assert_eq!(patch_offset("1:01\n+1:02", hex("ddccbbaa"), -1).unwrap(), hex("0102bbaa"));
    assert!(patch_offset("1:01\n+1:02", hex("ddccbbaa"), -2).is_err());
}

#[test]
fn test_patch_error_kinds() {
    assert_eq!(patch("aa", vec![]), Err(HexError::OffsetRequiredBeforeData));
    assert_eq!(patch("+01:01", hex("ddccbbaa")), Err(HexError::NoBasisForRelativeOffset));
    assert_eq!(patch("00:\n-01:01", hex("ddccbbaa")), Err(HexError::OffsetOverflow));
    assert_eq!(patch("zz: aa", hex("dd")), Err(HexError::InvalidOffset));
    assert_eq!(patch("0: a", hex("dd")), Err(HexError::MalformedOctet));
    assert_eq!(patch("0: zz", hex("dd")), Err(HexError::InvalidHexDigit));
    assert_eq!(
        patch_offset("0:aa", hex("ddccbbaa"), -1),
        Err(HexError::OffsetAdjustmentOverflow)
    );
    assert_eq!(
        patch_offset("ffffffffffffffff:aa", vec![], 1),
        Err(HexError::OffsetAdjustmentOverflow)
    );
    // An empty line before any offset is vacuous, not an error.
    assert_eq!(patch("\n0:aa", hex("ddcc")).unwrap(), hex("aacc"));
}

#[test]
fn test_patch_partial_writes_remain() {
    // The first line lands, and so do the bytes of the second line that
    // precede the bad pair: what was written stays written.
    let mut target = hex("0000000000");
    let r = patch_impl("0: aabb\ncczz", &mut target, 0);
    assert_eq!(r, Err(HexError::InvalidHexDigit));
    assert_eq!(target, hex("aabbcc0000"));
}

#[test]
fn test_patch_idempotent_concrete() {
    let texts = ["0: aabbcc", "1: aabb\ncc", "5:aabb", "01:01\n+02:03", "2500:"];
    for text in texts {
        let target = hex("ddccbbaa");
        let once = patch(text, target.clone()).unwrap();
        let twice = patch(text, once.clone()).unwrap();
        assert_eq!(twice, once);
    }
}
