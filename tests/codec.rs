use mmv::codec::{decode_string, encode_string};

#[test]
fn encode_escapes_backslash_newline_and_tab() {
    assert_eq!(encode_string("a\\b\nc\td"), "a\\\\b\\nc\\td");
}

#[test]
fn encode_leaves_other_text_alone() {
    assert_eq!(encode_string("plain name.txt"), "plain name.txt");
    assert_eq!(encode_string(""), "");
}

#[test]
fn decode_inverts_escapes() {
    assert_eq!(decode_string("a\\\\b\\nc\\td").unwrap(), "a\\b\nc\td");
}

#[test]
fn decode_of_encode_round_trips() {
    for s in ["", "abc", "\\", "\n\n", "tab\there", "ünïcödé\\n", "x\\\\\n\t\\y"] {
        assert_eq!(decode_string(&encode_string(s)).unwrap(), s);
    }
}

#[test]
fn encode_is_injective_on_examples() {
    let inputs = ["\\n", "\n", "\\\\", "\\", "n", "\t", "\\t"];
    for a in inputs {
        for b in inputs {
            if a != b {
                assert_ne!(encode_string(a), encode_string(b));
            }
        }
    }
}

#[test]
fn decode_rejects_trailing_backslash() {
    let e = decode_string("abc\\").unwrap_err();
    assert_eq!(e.text, "abc\\");
}

#[test]
fn decode_rejects_unknown_escape() {
    let e = decode_string("a\\xb").unwrap_err();
    assert_eq!(e.text, "a\\xb");
}
