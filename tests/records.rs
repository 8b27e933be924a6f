use mmv::error::Error;
use mmv::flags::{usage_line, Arg, ArgOutcome, Flags};
use mmv::plan::BuildError;
use mmv::records::{
    frame_input, frame_one, is_terminal, parse_helper_output, parse_records, record_string,
    split_records, RecordError,
};

fn strings(xs: &[&str]) -> Vec<String> {
    xs.iter().map(|x| x.to_string()).collect()
}

#[test]
fn newline_records() {
    assert_eq!(parse_records(&b"a\nb\n".to_vec(), false, false).unwrap(), strings(&["a", "b"]));
    assert_eq!(parse_records(&b"a\nb".to_vec(), false, false).unwrap(), strings(&["a", "b"]));
    assert!(parse_records(&Vec::new(), false, false).unwrap().is_empty());
}

#[test]
fn nul_records_may_hold_newlines() {
    assert_eq!(parse_records(&b"a\nb\0c\0".to_vec(), true, false).unwrap(), strings(&["a\nb", "c"]));
}

#[test]
fn empty_records_are_errors() {
    assert_eq!(split_records(&b"a\n\nb\n".to_vec(), false), Err(RecordError::EmptyRecord));
    assert_eq!(split_records(&b"\n".to_vec(), false), Err(RecordError::EmptyRecord));
    assert_eq!(parse_records(&b"\0a".to_vec(), true, false), Err(RecordError::EmptyRecord));
}

#[test]
fn records_must_be_utf8() {
    assert_eq!(parse_records(&vec![b'a', b'\n', 0xff, b'\n'], false, false), Err(RecordError::NotUtf8));
}

#[test]
fn helper_output_is_decoded() {
    assert_eq!(
        parse_helper_output(&b"a\\nb\0c\\\\\0".to_vec(), true, true).unwrap(),
        strings(&["a\nb", "c\\"])
    );
    assert_eq!(parse_helper_output(&b"x\0y\0".to_vec(), true, false).unwrap(), strings(&["x", "y"]));
    match parse_helper_output(&b"a\\x\n".to_vec(), false, true) {
        Err(RecordError::BadDecoding(e)) => assert_eq!(e.text, "a\\x"),
        _ => panic!("expected a decoding error"),
    }
}

#[test]
fn single_record_output() {
    assert_eq!(record_string(b"b\\tc".to_vec(), true).unwrap(), "b\tc");
    assert_eq!(record_string(b"b\\tc".to_vec(), false).unwrap(), "b\\tc");
}

#[test]
fn helper_input_framing() {
    let srcs = strings(&["a\nb", "c"]);
    assert_eq!(frame_input(&srcs, true, false), "a\nb\0c\0");
    assert_eq!(frame_input(&srcs, true, true), "a\\nb\0c\0");
    assert_eq!(frame_input(&srcs, false, true), "a\\nb\nc\n");
    assert_eq!(frame_input(&srcs, false, false), "a\nb\nc\n");
    assert_eq!(frame_one(&"t\\".to_string(), true), "t\\\\");
}

#[test]
fn terminal_bytes() {
    assert!(is_terminal(false, &b'\n'));
    assert!(!is_terminal(false, &0));
    assert!(is_terminal(true, &0));
    assert!(!is_terminal(true, &b'\n'));
}

#[test]
fn default_flags() {
    let f = Flags::default();
    assert!(f.backup && !f.dryrun && !f.encode && !f.individual && !f.mcp && !f.nul && !f.verbose);
}

#[test]
fn copy_variant_flags() {
    let f = Flags::for_program("mcp", "mcp");
    assert!(f.mcp && !f.backup);
    let g = Flags::for_program("mmv", "mcp");
    assert!(!g.mcp && g.backup);
}

#[test]
fn flags_from_arguments() {
    let mut f = Flags::default();
    assert_eq!(f.apply(&Arg::Short('0')), ArgOutcome::Flag);
    assert_eq!(f.apply(&Arg::Long("dry-run".to_string())), ArgOutcome::Flag);
    assert_eq!(f.apply(&Arg::Short('e')), ArgOutcome::Flag);
    assert_eq!(f.apply(&Arg::Long("individual".to_string())), ArgOutcome::Flag);
    assert_eq!(f.apply(&Arg::Short('n')), ArgOutcome::Flag);
    assert_eq!(f.apply(&Arg::Long("verbose".to_string())), ArgOutcome::Flag);
    assert!(f.nul && f.dryrun && f.encode && f.individual && !f.backup && f.verbose);
    assert_eq!(f.apply(&Arg::Value), ArgOutcome::Command);
    assert_eq!(f.apply(&Arg::Short('x')), ArgOutcome::Unexpected);
    assert_eq!(f.apply(&Arg::Long("bogus".to_string())), ArgOutcome::Unexpected);
}

#[test]
fn copy_variant_rejects_no_backup() {
    let mut f = Flags::for_program("mcp", "mcp");
    assert_eq!(f.apply(&Arg::Short('n')), ArgOutcome::Unexpected);
    assert_eq!(f.apply(&Arg::Long("no-backup".to_string())), ArgOutcome::Unexpected);
    assert!(!f.backup);
}

#[test]
fn usage_lines() {
    assert_eq!(usage_line("mmv", false), "Usage: mmv [-0deinv] command [argument ...]");
    assert_eq!(usage_line("mcp", true), "Usage: mcp [-0deiv] command [argument ...]");
}

#[test]
fn errors_from_stages() {
    assert!(matches!(Error::from_build(BuildError::SourceDestinationCount), Error::BadLengths));
    assert!(matches!(Error::from_build(BuildError::ScratchConflict), Error::ScratchConflict));
    assert!(matches!(Error::from_record(RecordError::EmptyRecord), Error::EmptyRecord));
    assert!(matches!(Error::from_record(RecordError::NotUtf8), Error::NotUtf8));
    let d = mmv::codec::decode_string("\\q").unwrap_err();
    match Error::from_record(RecordError::BadDecoding(d)) {
        Error::BadDecoding(t) => assert_eq!(t, "\\q"),
        _ => panic!("wrong variant"),
    }
}

#[test]
fn error_messages() {
    assert_eq!(Error::BadLengths.message("mmv", false), "mmv: Files have been added or removed during editing");
    assert_eq!(Error::Nop.message("mmv", false), "");
    assert_eq!(Error::BadArgs(None).message("mcp", true), "mcp: Usage: mcp [-0deiv] command [argument ...]");
    assert_eq!(
        Error::BadArgs(Some("invalid option '-x'".to_string())).message("mmv", false),
        "mmv: invalid option '-x'; Usage: mmv [-0deinv] command [argument ...]"
    );
    assert_eq!(
        Error::BadDecoding("a\\q".to_string()).message("mmv", false),
        "mmv: Decoding the file “a\\q” failed!"
    );
    assert_eq!(
        Error::SpawnFailed("ed".to_string(), "not found".to_string()).message("mmv", false),
        "mmv: Failed to spawn utility “ed”: not found"
    );
    match mmv::plan::build("/work", "/tmp/s", &strings(&["x", "y"]), &strings(&["z", "z"])) {
        Err(e) => assert_eq!(
            Error::from_build(e).message("mmv", false),
            "mmv: The paths [/work/z] were listed as destinations multiple times"
        ),
        Ok(_) => panic!("expected duplicates"),
    }
}

#[test]
fn helper_output_skips_empty_runs() {
    assert_eq!(parse_helper_output(&b"a\n\nb\n".to_vec(), false, false).unwrap(), strings(&["a", "b"]));
    assert_eq!(parse_helper_output(&b"\0\0x\0\0".to_vec(), true, false).unwrap(), strings(&["x"]));
    assert!(parse_helper_output(&b"\n\n".to_vec(), false, false).unwrap().is_empty());
}

#[test]
fn nul_records_echoed_by_the_helper() {
    let srcs = parse_records(&b"a\nb\0c\0".to_vec(), true, false).unwrap();
    for encode in [false, true] {
        let sent = frame_input(&srcs, true, encode);
        let back = parse_helper_output(&sent.into_bytes(), true, encode).unwrap();
        assert_eq!(back, strings(&["a\nb", "c"]));
    }
}
