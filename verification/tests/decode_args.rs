use wiktionary::decode::decode_arguments;
use wiktionary::template::RawArg;

fn pos_arg(v: &[u8]) -> RawArg {
    RawArg { name: None, value: v.to_vec() }
}

fn named_arg(n: &[u8], v: &[u8]) -> RawArg {
    RawArg { name: Some(n.to_vec()), value: v.to_vec() }
}

#[test]
fn explicit_numeric_override_wins() {
    let args = vec![pos_arg(b"x"), named_arg(b"1", b"y")];
    let (nargs, _) = decode_arguments(&args);
    assert_eq!(nargs.len(), 1);
    assert_eq!(nargs[0].as_slice(), b"y");
}

#[test]
fn implicit_positions_count_up() {
    let args = vec![pos_arg(b"a"), pos_arg(b"b"), pos_arg(b"c")];
    let (nargs, _) = decode_arguments(&args);
    assert_eq!(nargs.len(), 3);
    assert_eq!(nargs[0].as_slice(), b"a");
    assert_eq!(nargs[1].as_slice(), b"b");
    assert_eq!(nargs[2].as_slice(), b"c");
}

#[test]
fn numeric_override_jumps_ahead_with_gaps() {
    let args = vec![named_arg(b"3", b"c"), pos_arg(b"a")];
    let (nargs, _) = decode_arguments(&args);
    assert_eq!(nargs.len(), 3);
    assert_eq!(nargs[0].as_slice(), b"a");
    assert_eq!(nargs[1].as_slice(), b"");
    assert_eq!(nargs[2].as_slice(), b"c");
}

#[test]
fn override_does_not_advance_implicit_counter() {
    let args = vec![named_arg(b"2", b"late"), pos_arg(b"first"), pos_arg(b"second")];
    let (nargs, _) = decode_arguments(&args);
    assert_eq!(nargs.len(), 2);
    assert_eq!(nargs[0].as_slice(), b"first");
    assert_eq!(nargs[1].as_slice(), b"second");
}

#[test]
fn non_numeric_names_go_to_the_mapping() {
    let args = vec![named_arg(b"lang", b"en"), pos_arg(b"dog")];
    let (nargs, kwargs) = decode_arguments(&args);
    assert_eq!(nargs.len(), 1);
    assert_eq!(nargs[0].as_slice(), b"dog");
    assert_eq!(kwargs.get(b"lang").unwrap().as_slice(), b"en");
    assert!(kwargs.get(b"missing").is_none());
}

#[test]
fn later_duplicate_names_overwrite() {
    let args = vec![named_arg(b"k", b"old"), named_arg(b"k", b"new")];
    let (_, kwargs) = decode_arguments(&args);
    assert_eq!(kwargs.get(b"k").unwrap().as_slice(), b"new");
}

#[test]
fn names_and_values_are_trimmed() {
    let args = vec![named_arg(b" lang ", b" en "), pos_arg(b"  dog  ")];
    let (nargs, kwargs) = decode_arguments(&args);
    assert_eq!(nargs[0].as_slice(), b"dog");
    assert_eq!(kwargs.get(b"lang").unwrap().as_slice(), b"en");
}

#[test]
fn huge_numeric_name_is_treated_as_a_name() {
    let args = vec![named_arg(b"99999999999999999999999", b"v")];
    let (nargs, kwargs) = decode_arguments(&args);
    assert_eq!(nargs.len(), 0);
    assert_eq!(
        kwargs.get(b"99999999999999999999999").unwrap().as_slice(),
        b"v"
    );
}

#[test]
fn plus_signed_index_is_numeric() {
    let args = vec![named_arg(b"+2", b"v")];
    let (nargs, _) = decode_arguments(&args);
    assert_eq!(nargs.len(), 2);
    assert_eq!(nargs[0].as_slice(), b"");
    assert_eq!(nargs[1].as_slice(), b"v");
}
