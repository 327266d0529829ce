use yew_router_route_parser::{parse_route, to_pattern, CaptureVariant, RouteParserToken};

#[test]
fn to_pattern_writes_each_token_kind() {
    let toks = vec![
        RouteParserToken::Separator,
        RouteParserToken::Match("user".to_string()),
        RouteParserToken::Separator,
        RouteParserToken::Capture(CaptureVariant::Unnamed),
        RouteParserToken::Separator,
        RouteParserToken::Capture(CaptureVariant::ManyUnnamed),
        RouteParserToken::Separator,
        RouteParserToken::Capture(CaptureVariant::Named("id".to_string())),
        RouteParserToken::Separator,
        RouteParserToken::Capture(CaptureVariant::ManyNamed("rest".to_string())),
        RouteParserToken::Separator,
        RouteParserToken::Capture(CaptureVariant::NumberedUnnamed { sections: 120 }),
        RouteParserToken::Separator,
        RouteParserToken::Capture(CaptureVariant::NumberedNamed { sections: 7, name: "n".to_string() }),
        RouteParserToken::Optional(vec![RouteParserToken::Separator, RouteParserToken::Match("x".to_string())]),
    ];
    assert_eq!(to_pattern(&toks), "/user/{}/{*}/{id}/{*:rest}/{120}/{7:n}(/x)");
}

#[test]
fn to_pattern_drops_leading_zeros() {
    let toks = parse_route("/a{007}").unwrap();
    assert_eq!(to_pattern(&toks), "/a{7}");
    assert_eq!(to_pattern(&Vec::new()), "");
}

#[test]
fn reparse_gives_same_tokens() {
    for pattern in [
        "/hello(/hello)",
        "/hello(/hello)/",
        "(/hello)",
        "/",
        "",
        "/a{b}c/{*:rest}(/{05:x}y)(/z)/",
        "/user/{id}/posts(/archived)",
    ] {
        let toks = parse_route(pattern).unwrap();
        let text = to_pattern(&toks);
        assert_eq!(parse_route(&text).unwrap(), toks);
    }
}
