use yew_router_route_parser::primitives::{capture, capture_or_match, match_specific, valid_ident_characters};
use yew_router_route_parser::{CaptureOrMatch, CaptureVariant, Context, ErrorKind, RouteParserToken};

#[test]
fn match_any() {
    let cap = capture("{}").expect("Should match").1;
    assert_eq!(cap, RouteParserToken::Capture(CaptureVariant::Unnamed));
}

#[test]
fn capture_named_test() {
    let cap = capture("{hellothere}").unwrap();
    assert_eq!(cap, ("", RouteParserToken::Capture(CaptureVariant::Named("hellothere".to_string()))));
}

#[test]
fn capture_many_unnamed_test() {
    let cap = capture("{*}").unwrap();
    assert_eq!(cap, ("", RouteParserToken::Capture(CaptureVariant::ManyUnnamed)));
}

#[test]
fn capture_unnamed_test() {
    let cap = capture("{}").unwrap();
    assert_eq!(cap, ("", RouteParserToken::Capture(CaptureVariant::Unnamed)));
}

#[test]
fn capture_numbered_unnamed_test() {
    let cap = capture("{5}").unwrap();
    assert_eq!(cap, ("", RouteParserToken::Capture(CaptureVariant::NumberedUnnamed { sections: 5 })));
}

#[test]
fn capture_numbered_named_test() {
    let cap = capture("{5:name}").unwrap();
    assert_eq!(
        cap,
        ("", RouteParserToken::Capture(CaptureVariant::NumberedNamed { sections: 5, name: "name".to_string() }))
    );
}

#[test]
fn capture_many_named() {
    let cap = capture("{*:name}").unwrap();
    assert_eq!(cap, ("", RouteParserToken::Capture(CaptureVariant::ManyNamed("name".to_string()))));
}

#[test]
fn rejects_invalid_ident() {
    valid_ident_characters("+-Hello").expect_err("Should reject at +");
}

#[test]
fn accepts_valid_ident() {
    valid_ident_characters("Hello").expect("Should accept");
}

#[test]
fn capture_consumes() {
    capture("{aoeu").expect_err("Should not complete");
}

#[test]
fn valid_ident_consumes_whole_identifier() {
    assert_eq!(valid_ident_characters("hello_world"), Ok(("", "hello_world")));
    assert_eq!(valid_ident_characters("h\u{e9}llo"), Ok(("", "h\u{e9}llo")));
    assert_eq!(valid_ident_characters("a1"), Ok(("", "a1")));
}

#[test]
fn valid_ident_stops_at_forbidden_character() {
    assert_eq!(valid_ident_characters("abc/def"), Ok(("/def", "abc")));
    assert_eq!(valid_ident_characters("x y"), Ok((" y", "x")));
    assert_eq!(valid_ident_characters("ab\tc"), Ok(("\tc", "ab")));
}

#[test]
fn valid_ident_rejects_leading_digit() {
    let e = valid_ident_characters("5abc").unwrap_err();
    assert_eq!(e.kind, ErrorKind::InvalidLeadingDigit);
    assert_eq!(e.remaining, "5abc");
    assert_eq!(e.contexts, vec![Context::ValidIdent]);
}

#[test]
fn valid_ident_rejects_empty_run() {
    let e = valid_ident_characters("+-Hello").unwrap_err();
    assert_eq!(e.kind, ErrorKind::EmptyIdentifier);
    assert_eq!(e.remaining, "+-Hello");
    let e = valid_ident_characters("").unwrap_err();
    assert_eq!(e.kind, ErrorKind::EmptyIdentifier);
    assert_eq!(e.remaining, "");
}

#[test]
fn capture_leaves_the_rest() {
    let (rest, tok) = capture("{id}/x").unwrap();
    assert_eq!(rest, "/x");
    assert_eq!(tok, RouteParserToken::Capture(CaptureVariant::Named("id".to_string())));
    let (rest, tok) = capture("{12:page}abc").unwrap();
    assert_eq!(rest, "abc");
    assert_eq!(
        tok,
        RouteParserToken::Capture(CaptureVariant::NumberedNamed { sections: 12, name: "page".to_string() })
    );
}

#[test]
fn capture_section_count_values() {
    assert_eq!(
        capture("{0}").unwrap(),
        ("", RouteParserToken::Capture(CaptureVariant::NumberedUnnamed { sections: 0 }))
    );
    assert_eq!(
        capture("{307}").unwrap(),
        ("", RouteParserToken::Capture(CaptureVariant::NumberedUnnamed { sections: 307 }))
    );
    let max = format!("{{{}}}", usize::MAX);
    assert_eq!(
        capture(&max).unwrap(),
        ("", RouteParserToken::Capture(CaptureVariant::NumberedUnnamed { sections: usize::MAX }))
    );
}

#[test]
fn capture_rejects_oversized_section_count() {
    let e = capture("{99999999999999999999999999}").unwrap_err();
    assert_eq!(e.kind, ErrorKind::InvalidSectionCount);
    assert_eq!(e.remaining, "99999999999999999999999999}");
    assert_eq!(e.contexts, vec![Context::Capture]);
}

#[test]
fn capture_unterminated() {
    let e = capture("{aoeu").unwrap_err();
    assert_eq!(e.kind, ErrorKind::UnterminatedCapture);
    assert_eq!(e.remaining, "");
    let e = capture("{").unwrap_err();
    assert_eq!(e.kind, ErrorKind::UnterminatedCapture);
    assert_eq!(e.remaining, "");
    let e = capture("{+").unwrap_err();
    assert_eq!(e.kind, ErrorKind::UnterminatedCapture);
    assert_eq!(e.remaining, "+");
}

#[test]
fn capture_malformed() {
    let e = capture("{+}").unwrap_err();
    assert_eq!(e.kind, ErrorKind::MalformedCapture);
    assert_eq!(e.remaining, "+}");
    let e = capture("{a b}").unwrap_err();
    assert_eq!(e.kind, ErrorKind::MalformedCapture);
    assert_eq!(e.remaining, " b}");
    let e = capture("{*:5}").unwrap_err();
    assert_eq!(e.kind, ErrorKind::MalformedCapture);
    assert_eq!(e.remaining, ":5}");
    let e = capture("hello").unwrap_err();
    assert_eq!(e.kind, ErrorKind::MalformedCapture);
    assert_eq!(e.remaining, "hello");
    assert_eq!(e.contexts, vec![Context::Capture]);
}

#[test]
fn match_specific_reads_literal() {
    assert_eq!(match_specific("abc{d}"), Ok(("{d}", RouteParserToken::Match("abc".to_string()))));
    let e = match_specific("{d}").unwrap_err();
    assert_eq!(e.kind, ErrorKind::EmptyIdentifier);
    assert_eq!(e.remaining, "{d}");
    assert_eq!(e.contexts, vec![Context::ValidIdent, Context::Match]);
}

#[test]
fn capture_or_match_prefers_capture() {
    assert_eq!(capture_or_match("{id}x"), Ok(("x", CaptureOrMatch::Capture(CaptureVariant::Named("id".to_string())))));
    assert_eq!(capture_or_match("id{x}"), Ok(("{x}", CaptureOrMatch::Match("id".to_string()))));
    let e = capture_or_match("9").unwrap_err();
    assert_eq!(e.kind, ErrorKind::InvalidLeadingDigit);
    assert_eq!(e.remaining, "9");
    assert_eq!(e.contexts, vec![Context::ValidIdent, Context::Match, Context::CaptureOrMatch]);
}

#[test]
fn context_names() {
    assert_eq!(Context::SectionMatchers.name(), "section matchers");
    assert_eq!(Context::Capture.name(), "capture");
    assert_eq!(Context::PathParser.name(), "path parser");
}
