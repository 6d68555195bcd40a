use nxd::cli::{DumpArgs, EditArgs};

#[test]
fn test_dump_args_default() {
    let d = DumpArgs::default();
    assert_eq!(d.columns, 16);
    assert_eq!(d.groupsize, 4);
    assert_eq!(d.offset, 0);
    assert!(d.input.is_none());
}

#[test]
fn test_edit_args_default() {
    let e = EditArgs::default();
    assert_eq!(e.columns, 16);
    assert_eq!(e.groupsize, 4);
    assert_eq!(e.input, "");
}
