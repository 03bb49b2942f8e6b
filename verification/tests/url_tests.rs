use typst_url::{
    debug_repr, join, make_relative, parse_display_fmt, parse_str, parse_url,
    supplementary_repr, ParseReason, TypstError,
};

fn display(input: &[u8]) -> Vec<u8> {
    parse_display_fmt(input).expect("expected a parse")
}

#[test]
fn display_normalizes() {
    assert_eq!(
        display(b"HTTP://Example.COM/a/./b/../c"),
        b"http://example.com/a/c".to_vec()
    );
}

#[test]
fn display_keeps_query_and_fragment() {
    assert_eq!(
        display(b"https://u:pw@host:8080/a?x=1#frag"),
        b"https://u:pw@host:8080/a?x=1#frag".to_vec()
    );
}

#[test]
fn trim_of_surrounding_whitespace() {
    assert_eq!(display(b"  http://a/b\n"), b"http://a/b".to_vec());
}

#[test]
fn roundtrip_is_stable() {
    let once = display(b"http://User@Example.com:0080/a/../b%20c?q=%41#f");
    let twice = display(&once);
    assert_eq!(once, twice);
}

#[test]
fn roundtrip_opaque_is_stable() {
    let once = display(b"mailto:A@B.com?subject=hi");
    let twice = display(&once);
    assert_eq!(once, twice);
}

#[test]
fn join_empty_reference_drops_query_and_fragment() {
    assert_eq!(
        join(b"http://a/b/c?q=1#f", b"").unwrap(),
        b"http://a/b/c".to_vec()
    );
}

#[test]
fn join_dot_segments() {
    assert_eq!(
        join(b"http://a/b/c/d", b"../../x").unwrap(),
        b"http://a/x".to_vec()
    );
}

#[test]
fn join_absolute_reference_wins() {
    assert_eq!(
        join(b"http://a/b", b"ftp://h/z").unwrap(),
        b"ftp://h/z".to_vec()
    );
}

#[test]
fn join_rooted_and_protocol_relative() {
    assert_eq!(join(b"http://a/b/c", b"/x/y").unwrap(), b"http://a/x/y".to_vec());
    assert_eq!(join(b"http://a/b/c", b"//h/z").unwrap(), b"http://h/z".to_vec());
}

#[test]
fn join_query_and_fragment_references() {
    assert_eq!(
        join(b"http://a/b?old#of", b"?new").unwrap(),
        b"http://a/b?new".to_vec()
    );
    assert_eq!(
        join(b"http://a/b?q#of", b"#nf").unwrap(),
        b"http://a/b?q#nf".to_vec()
    );
}

#[test]
fn join_relative_against_opaque_fails() {
    let e = join(b"mailto:a@b.com", b"x").unwrap_err();
    assert!(matches!(
        e,
        TypstError::ParseError {
            reason: ParseReason::RelativeWithCannotBeABase,
            ..
        }
    ));
}

#[test]
fn cannot_be_a_base_shape() {
    let rep = debug_repr(b"mailto:a@b.com").unwrap();
    assert!(rep.cannot_be_a_base);
    assert_eq!(rep.host, None);
    assert_eq!(rep.path, b"a@b.com".to_vec());
    let sup = supplementary_repr(b"mailto:a@b.com").unwrap();
    assert_eq!(sup.path_segments, None);
    assert_eq!(sup.origin, None);
}

#[test]
fn default_port_is_omitted_but_effective() {
    let rep = debug_repr(b"http://example.com:80/").unwrap();
    assert_eq!(rep.port, None);
    let sup = supplementary_repr(b"http://example.com:80/").unwrap();
    assert_eq!(sup.port_or_known_default, Some(80));
    let origin = sup.origin.expect("http origin is a tuple");
    assert_eq!(origin.0, b"http".to_vec());
    assert_eq!(origin.1, b"example.com".to_vec());
    assert_eq!(origin.2, 80);
}

#[test]
fn explicit_port_is_kept() {
    let rep = debug_repr(b"http://example.com:8080/").unwrap();
    assert_eq!(rep.port, Some(8080));
}

#[test]
fn invalid_utf8_is_input_error() {
    let e = parse_display_fmt(b"\xFF\xFE").unwrap_err();
    assert!(matches!(e, TypstError::InputError { valid_up_to: 0, .. }));
}

#[test]
fn invalid_utf8_offset() {
    let e = parse_str(b"ab\xFFcd").unwrap_err();
    match e {
        TypstError::InputError { input, valid_up_to } => {
            assert_eq!(input, b"ab\xFFcd".to_vec());
            assert_eq!(valid_up_to, 2);
        }
        other => panic!("expected InputError, got {:?}", other),
    }
}

#[test]
fn parse_str_decodes() {
    assert_eq!(parse_str("caf\u{e9}".as_bytes()).unwrap(), "caf\u{e9}");
}

#[test]
fn no_scheme_is_parse_error() {
    let e = parse_display_fmt(b"not a url").unwrap_err();
    assert!(matches!(
        e,
        TypstError::ParseError {
            reason: ParseReason::BadScheme,
            ..
        }
    ));
}

#[test]
fn bad_host_is_parse_error() {
    let e = parse_display_fmt(b"http://ex ample/").unwrap_err();
    assert!(matches!(
        e,
        TypstError::ParseError {
            reason: ParseReason::BadHost,
            ..
        }
    ));
    let e2 = parse_display_fmt(b"http://[::1/").unwrap_err();
    assert!(matches!(
        e2,
        TypstError::ParseError {
            reason: ParseReason::BadHost,
            ..
        }
    ));
    let e3 = parse_display_fmt(b"http://").unwrap_err();
    assert!(matches!(
        e3,
        TypstError::ParseError {
            reason: ParseReason::BadHost,
            ..
        }
    ));
}

#[test]
fn bad_port_is_parse_error() {
    for input in [&b"http://h:x/"[..], b"http://h:70000/", b"http://h:/"] {
        let e = parse_display_fmt(input).unwrap_err();
        assert!(matches!(
            e,
            TypstError::ParseError {
                reason: ParseReason::BadPort,
                ..
            }
        ));
    }
}

#[test]
fn query_pairs_decoding() {
    let sup = supplementary_repr(b"http://h/p?a=1&b=&c").unwrap();
    let pairs: Vec<(Vec<u8>, Vec<u8>)> = vec![
        (b"a".to_vec(), b"1".to_vec()),
        (b"b".to_vec(), b"".to_vec()),
        (b"c".to_vec(), b"".to_vec()),
    ];
    assert_eq!(sup.query_pairs, pairs);
}

#[test]
fn query_pairs_plus_and_percent() {
    let sup = supplementary_repr(b"http://h/?a+b=c%20d").unwrap();
    assert_eq!(
        sup.query_pairs,
        vec![(b"a b".to_vec(), b"c d".to_vec())]
    );
}

#[test]
fn relative_shortening() {
    assert_eq!(
        make_relative(b"http://a/x/y", b"http://a/x/z").unwrap(),
        b"z".to_vec()
    );
    assert_eq!(
        make_relative(b"http://a/x/y", b"http://a/w").unwrap(),
        b"../w".to_vec()
    );
}

#[test]
fn relative_query_and_fragment() {
    assert_eq!(
        make_relative(b"http://a/x?q1", b"http://a/x?q2").unwrap(),
        b"?q2".to_vec()
    );
    assert_eq!(
        make_relative(b"http://a/x#f1", b"http://a/x#f2").unwrap(),
        b"#f2".to_vec()
    );
    assert_eq!(
        make_relative(b"http://a/x", b"http://a/x").unwrap(),
        b"".to_vec()
    );
}

#[test]
fn relative_absolute_when_authority_differs() {
    assert_eq!(
        make_relative(b"http://a/x", b"http://b/y").unwrap(),
        b"http://b/y".to_vec()
    );
}

#[test]
fn relative_reference_rejoins_to_target() {
    let cases: [(&[u8], &[u8]); 6] = [
        (b"http://a/x/y", b"http://a/x/z"),
        (b"http://a/x/y", b"http://a/w"),
        (b"http://a/b/c/d?q", b"http://a/b/e/f#g"),
        (b"http://a/x", b"https://b/y?q#f"),
        (b"http://a/x?q", b"http://a/x?r#f"),
        (b"http://a/x/y/", b"http://a/x/"),
    ];
    for (b, t) in cases {
        let rel = make_relative(b, t).unwrap();
        assert_eq!(join(b, &rel).unwrap(), display(t), "case {:?} {:?}", b, t);
    }
}

#[test]
fn file_urls() {
    assert_eq!(display(b"file:///tmp/x"), b"file:///tmp/x".to_vec());
    let rep = debug_repr(b"file:///tmp/x").unwrap();
    assert_eq!(rep.host, Some(b"".to_vec()));
    assert_eq!(rep.port, None);
    let sup = supplementary_repr(b"file:///tmp/x").unwrap();
    assert!(sup.is_special);
    assert_eq!(sup.origin, None);
}

#[test]
fn special_scheme_backslashes() {
    assert_eq!(display(b"http:\\\\host\\a\\b"), b"http://host/a/b".to_vec());
}

#[test]
fn path_segments_are_decoded() {
    let sup = supplementary_repr(b"http://h/a%20b/c").unwrap();
    assert_eq!(
        sup.path_segments,
        Some(vec![b"a b".to_vec(), b"c".to_vec()])
    );
}

#[test]
fn domain_and_address_hosts() {
    let sup = supplementary_repr(b"http://example.com/").unwrap();
    assert_eq!(sup.domain, Some(b"example.com".to_vec()));
    let sup4 = supplementary_repr(b"http://127.0.0.1/").unwrap();
    assert_eq!(sup4.domain, None);
    let sup6 = supplementary_repr(b"http://[::1]/").unwrap();
    assert_eq!(sup6.domain, None);
}

#[test]
fn authority_reconstruction() {
    let sup = supplementary_repr(b"ftp://u:pw@h:2121/d").unwrap();
    assert_eq!(sup.authority, b"u:pw@h:2121".to_vec());
    let none = supplementary_repr(b"mailto:a@b.com").unwrap();
    assert_eq!(none.authority, b"".to_vec());
}

#[test]
fn parse_url_components() {
    let u = parse_url(b"wss://user@Host.Example:9/a/b?q#f").unwrap();
    assert_eq!(u.scheme, b"wss".to_vec());
    assert_eq!(u.username, b"user".to_vec());
    assert_eq!(u.host, Some(b"host.example".to_vec()));
    assert_eq!(u.port, Some(9));
    assert_eq!(u.query, Some(b"q".to_vec()));
    assert_eq!(u.fragment, Some(b"f".to_vec()));
}

#[test]
fn percent_encoding_is_applied_per_component() {
    assert_eq!(
        display(b"http://h/a b?c d#e f"),
        b"http://h/a%20b?c%20d#e%20f".to_vec()
    );
}
