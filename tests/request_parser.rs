use hashkv::parser::Cmd;

#[test]
fn parses_set_with_value() {
    assert_eq!(
        Cmd::new(b"set foo bar baz"),
        Cmd::Put { key: String::from("foo"), value: b"bar baz".to_vec() }
    );
}

#[test]
fn parses_set_with_empty_value() {
    assert_eq!(
        Cmd::new(b"set foo "),
        Cmd::Put { key: String::from("foo"), value: Vec::new() }
    );
}

#[test]
fn parses_get_and_del_in_any_case() {
    assert_eq!(Cmd::new(b"GET foo"), Cmd::Get { key: String::from("foo") });
    assert_eq!(Cmd::new(b"gEt foo trailing"), Cmd::Get { key: String::from("foo") });
    assert_eq!(Cmd::new(b"Del foo"), Cmd::Del { key: String::from("foo") });
}

#[test]
fn parses_non_ascii_key() {
    assert_eq!(Cmd::new("get clé".as_bytes()), Cmd::Get { key: String::from("clé") });
}

#[test]
fn rejects_malformed_requests() {
    for request in [
        &b"se"[..],
        &b"get"[..],
        &b"put foo bar"[..],
        &b"set foo"[..],
        &b"get \xff\xfe"[..],
    ] {
        assert!(matches!(Cmd::new(request), Cmd::Unknown { .. }), "{:?}", request);
    }
}
