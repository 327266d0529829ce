use yew_router_route_parser::path::{parse_route, path_parser, section_matchers};
use yew_router_route_parser::{CaptureVariant, Context, ErrorKind, RouteParserToken};

fn m(s: &str) -> RouteParserToken {
    RouteParserToken::Match(s.to_string())
}

#[test]
fn path_must_start_with_separator() {
    parse_route("hello").expect_err("Should reject at absence of /");
}

#[test]
fn path_cant_contain_multiple_matches_in_a_row_0() {
    let e = parse_route("/path{}{match}").expect_err("Should not validate");
    assert_eq!(e.kind, ErrorKind::UnparsedTrailingInput);
    assert_eq!(e.remaining, "{match}");
}

#[test]
fn path_cant_contain_multiple_matches_in_a_row_1() {
    let e = parse_route("/path{match1}{match2}").expect_err("Should not validate");
    assert_eq!(e.kind, ErrorKind::UnparsedTrailingInput);
    assert_eq!(e.remaining, "{match2}");
}

#[test]
fn path_cant_contain_multiple_matches_in_a_row_2() {
    let e = parse_route("/path{}{}").expect_err("Should not validate");
    assert_eq!(e.kind, ErrorKind::UnparsedTrailingInput);
    assert_eq!(e.remaining, "{}");
}

#[test]
fn section_matchers_falis_to_match() {
    let e = section_matchers("{aoeu").expect_err("Should not complete");
    assert_eq!(e.kind, ErrorKind::UnterminatedCapture);
    assert_eq!(e.remaining, "");
    let names: Vec<&str> = e.contexts.iter().map(|c| c.name()).collect();
    assert_eq!(names, vec!["capture", "section matchers"]);
}

#[test]
fn cant_have_double_slash() {
    parse_route("//)").expect_err("Should not validate");
}

#[test]
fn option_section() {
    path_parser("/hello(/hello)").expect("Should validate");
}

#[test]
fn option_section_with_trailing_sep() {
    path_parser("/hello(/hello)/").expect("Should validate");
}

#[test]
fn many_option_section() {
    path_parser("/hello(/hello)(/hello)").expect("Should validate");
}

#[test]
fn option_section_can_start_matcher_string() {
    path_parser("(/hello)").expect("Should validate");
}

#[test]
fn cant_alternate_optional_sections() {
    parse_route("/hello(/hello)/hello").expect_err("Should not validate");
}

#[test]
fn missing_leading_separator_fails_at_start() {
    let e = parse_route("hello").unwrap_err();
    assert_eq!(e.kind, ErrorKind::UnparsedTrailingInput);
    assert_eq!(e.remaining, "hello");
    assert_eq!(e.contexts, vec![Context::PathParser]);
}

#[test]
fn double_slash_leaves_rest() {
    let e = parse_route("//)").unwrap_err();
    assert_eq!(e.kind, ErrorKind::UnparsedTrailingInput);
    assert_eq!(e.remaining, "/)");
}

#[test]
fn optional_group_tokens() {
    let toks = parse_route("/hello(/hello)").unwrap();
    assert_eq!(
        toks,
        vec![RouteParserToken::Separator, m("hello"), RouteParserToken::Optional(vec![RouteParserToken::Separator, m("hello")])]
    );
}

#[test]
fn optional_group_with_trailing_separator_tokens() {
    let toks = parse_route("/hello(/hello)/").unwrap();
    assert_eq!(
        toks,
        vec![
            RouteParserToken::Separator,
            m("hello"),
            RouteParserToken::Optional(vec![RouteParserToken::Separator, m("hello")]),
            RouteParserToken::Separator,
        ]
    );
}

#[test]
fn optional_group_alone_tokens() {
    let toks = parse_route("(/hello)").unwrap();
    assert_eq!(toks, vec![RouteParserToken::Optional(vec![RouteParserToken::Separator, m("hello")])]);
}

#[test]
fn mandatory_after_optional_leaves_rest() {
    let e = parse_route("/hello(/hello)/hello").unwrap_err();
    assert_eq!(e.kind, ErrorKind::UnparsedTrailingInput);
    assert_eq!(e.remaining, "/hello");
}

#[test]
fn chained_optional_groups_are_independent() {
    let toks = parse_route("/a(/b)(/{c})/").unwrap();
    assert_eq!(
        toks,
        vec![
            RouteParserToken::Separator,
            m("a"),
            RouteParserToken::Optional(vec![RouteParserToken::Separator, m("b")]),
            RouteParserToken::Optional(vec![
                RouteParserToken::Separator,
                RouteParserToken::Capture(CaptureVariant::Named("c".to_string())),
            ]),
            RouteParserToken::Separator,
        ]
    );
}

#[test]
fn single_separator_and_empty_pattern() {
    assert_eq!(parse_route("/").unwrap(), vec![RouteParserToken::Separator]);
    assert_eq!(parse_route("").unwrap(), Vec::<RouteParserToken>::new());
    let (rest, toks) = path_parser("/)").unwrap();
    assert_eq!(rest, ")");
    assert_eq!(toks, vec![RouteParserToken::Separator]);
}

#[test]
fn mandatory_segments_with_captures() {
    let toks = parse_route("/user/{id}/posts{*:rest}").unwrap();
    assert_eq!(
        toks,
        vec![
            RouteParserToken::Separator,
            m("user"),
            RouteParserToken::Separator,
            RouteParserToken::Capture(CaptureVariant::Named("id".to_string())),
            RouteParserToken::Separator,
            m("posts"),
            RouteParserToken::Capture(CaptureVariant::ManyNamed("rest".to_string())),
        ]
    );
}

#[test]
fn section_alternates_kinds() {
    let (rest, toks) = section_matchers("a{b}c{5}/x").unwrap();
    assert_eq!(rest, "/x");
    assert_eq!(
        toks,
        vec![
            m("a"),
            RouteParserToken::Capture(CaptureVariant::Named("b".to_string())),
            m("c"),
            RouteParserToken::Capture(CaptureVariant::NumberedUnnamed { sections: 5 }),
        ]
    );
    let (rest, toks) = section_matchers("{}{x}").unwrap();
    assert_eq!(rest, "{x}");
    assert_eq!(toks, vec![RouteParserToken::Capture(CaptureVariant::Unnamed)]);
}

#[test]
fn section_stops_at_broken_capture() {
    let (rest, toks) = section_matchers("ab{cd").unwrap();
    assert_eq!(rest, "{cd");
    assert_eq!(toks, vec![m("ab")]);
}

#[test]
fn section_reports_capture_error() {
    let e = section_matchers("+x").unwrap_err();
    assert_eq!(e.kind, ErrorKind::MalformedCapture);
    assert_eq!(e.remaining, "+x");
    assert_eq!(e.contexts, vec![Context::Capture, Context::SectionMatchers]);
}

#[test]
fn unclosed_optional_group_is_left() {
    let e = parse_route("/a(/b").unwrap_err();
    assert_eq!(e.kind, ErrorKind::UnparsedTrailingInput);
    assert_eq!(e.remaining, "(/b");
}

#[test]
fn trailing_separator_only_at_end() {
    let toks = parse_route("/a/").unwrap();
    assert_eq!(toks, vec![RouteParserToken::Separator, m("a"), RouteParserToken::Separator]);
    let (rest, toks) = path_parser("/a/)").unwrap();
    assert_eq!(rest, "/)");
    assert_eq!(toks, vec![RouteParserToken::Separator, m("a")]);
}
