//! The values produced by the parser, and their mathematical views.
use vstd::prelude::*;

verus! {

/// The kind of value a capture extracts from a path.
#[derive(Debug, Clone, PartialEq, Eq)]
pub enum CaptureVariant {
    /// `{}`: exactly one segment, discarded.
    Unnamed,
    /// `{*}`: zero or more segments, discarded.
    ManyUnnamed,
    /// `{name}`: exactly one segment, bound to `name`.
    Named(String),
    /// `{*:name}`: zero or more segments, bound to `name`.
    ManyNamed(String),
    /// `{5}`: exactly `sections` segments, discarded.
    NumberedUnnamed { sections: usize },
    /// `{5:name}`: exactly `sections` segments, bound to `name`.
    NumberedNamed { sections: usize, name: String },
}

/// One element of a parsed route pattern.
#[derive(Debug, PartialEq, Eq)]
pub enum RouteParserToken {
    /// A literal `/`.
    Separator,
    /// Text that must appear verbatim in a path segment.
    Match(String),
    /// A placeholder that consumes part of a path.
    Capture(CaptureVariant),
    /// A group of tokens that may be absent as a whole.
    Optional(Vec<RouteParserToken>),
}

/// Either a literal match or a capture: the tokens that may occupy a segment.
#[derive(Debug, Clone, PartialEq, Eq)]
pub enum CaptureOrMatch {
    Match(String),
    Capture(CaptureVariant),
}

/// Why a parse failed.
#[derive(Debug, Clone, Copy, PartialEq, Eq, Structural)]
pub enum ErrorKind {
    /// An identifier started with a decimal digit.
    InvalidLeadingDigit,
    /// An identifier was required but no valid character was found.
    EmptyIdentifier,
    /// A capture was opened with `{` and no `}` follows where it could end.
    UnterminatedCapture,
    /// The text is not a capture: it does not start with `{`, or what follows
    /// is none of the six shapes although a `}` comes later.
    MalformedCapture,
    /// The section count of a capture does not fit in a `usize`.
    InvalidSectionCount,
    /// The grammar stopped before the end of the pattern.
    UnparsedTrailingInput,
}

/// A grammar rule, recorded in the trail of a [`ParseError`].
#[derive(Debug, Clone, Copy, PartialEq, Eq, Structural)]
pub enum Context {
    ValidIdent,
    Match,
    Capture,
    CaptureOrMatch,
    SectionMatchers,
    PathParser,
}

/// The human-readable name of a grammar rule.
pub open spec fn context_name(c: Context) -> Seq<char> {
    match c {
        Context::ValidIdent => seq!['v', 'a', 'l', 'i', 'd', ' ', 'i', 'd', 'e', 'n', 't'],
        Context::Match => seq!['m', 'a', 't', 'c', 'h'],
        Context::Capture => seq!['c', 'a', 'p', 't', 'u', 'r', 'e'],
        Context::CaptureOrMatch => seq![
            'c', 'a', 'p', 't', 'u', 'r', 'e', ' ', 'o', 'r', ' ', 'm', 'a', 't', 'c', 'h',
        ],
        Context::SectionMatchers => seq![
            's', 'e', 'c', 't', 'i', 'o', 'n', ' ', 'm', 'a', 't', 'c', 'h', 'e', 'r', 's',
        ],
        Context::PathParser => seq!['p', 'a', 't', 'h', ' ', 'p', 'a', 'r', 's', 'e', 'r'],
    }
}

impl Context {
    /// A human-readable name of the rule.
    pub fn name(&self) -> (r: &'static str)
        ensures
            r@ == context_name(*self),
    {
        proof {
            reveal_strlit("valid ident");
            reveal_strlit("match");
            reveal_strlit("capture");
            reveal_strlit("capture or match");
            reveal_strlit("section matchers");
            reveal_strlit("path parser");
        }
        match self {
            Context::ValidIdent => "valid ident",
            Context::Match => "match",
            Context::Capture => "capture",
            Context::CaptureOrMatch => "capture or match",
            Context::SectionMatchers => "section matchers",
            Context::PathParser => "path parser",
        }
    }
}

/// A failed parse: what went wrong, the input left where it went wrong, and
/// the rules that were active, innermost first.
#[derive(Debug, Clone, PartialEq, Eq)]
pub struct ParseError {
    pub kind: ErrorKind,
    pub remaining: String,
    pub contexts: Vec<Context>,
}

/// The mathematical view of a [`CaptureVariant`].
pub enum CaptureModel {
    Unnamed,
    ManyUnnamed,
    Named(Seq<char>),
    ManyNamed(Seq<char>),
    NumberedUnnamed(nat),
    NumberedNamed(nat, Seq<char>),
}

/// The mathematical view of a [`RouteParserToken`].
pub enum TokenModel {
    Separator,
    Match(Seq<char>),
    Capture(CaptureModel),
    Optional(Seq<TokenModel>),
}

impl View for CaptureVariant {
    type V = CaptureModel;

    open spec fn view(&self) -> CaptureModel {
        match self {
            CaptureVariant::Unnamed => CaptureModel::Unnamed,
            CaptureVariant::ManyUnnamed => CaptureModel::ManyUnnamed,
            CaptureVariant::Named(n) => CaptureModel::Named(n@),
            CaptureVariant::ManyNamed(n) => CaptureModel::ManyNamed(n@),
            CaptureVariant::NumberedUnnamed { sections } => CaptureModel::NumberedUnnamed(
                *sections as nat,
            ),
            CaptureVariant::NumberedNamed { sections, name } => CaptureModel::NumberedNamed(
                *sections as nat,
                name@,
            ),
        }
    }
}

/// The mathematical view of a token; an optional group's view holds the
/// views of its tokens.
pub open spec fn token_view(t: RouteParserToken) -> TokenModel
    decreases t,
{
    match t {
        RouteParserToken::Separator => TokenModel::Separator,
        RouteParserToken::Match(m) => TokenModel::Match(m@),
        RouteParserToken::Capture(c) => TokenModel::Capture(c@),
        RouteParserToken::Optional(v) => {
            proof {
                broadcast use vstd::std_specs::vec::axiom_vec_index_decreases;
            }
            TokenModel::Optional(
                Seq::new(
                    v.len() as nat,
                    |k: int|
                        if 0 <= k < v.len() {
                            token_view(v[k])
                        } else {
                            TokenModel::Separator
                        },
                ),
            )
        },
    }
}

impl View for RouteParserToken {
    type V = TokenModel;

    open spec fn view(&self) -> TokenModel {
        token_view(*self)
    }
}

/// The views of a sequence of tokens.
pub open spec fn tokens_view(v: Seq<RouteParserToken>) -> Seq<TokenModel> {
    Seq::new(v.len(), |k: int| v[k]@)
}

pub proof fn lemma_tokens_view_concat(a: Seq<RouteParserToken>, b: Seq<RouteParserToken>)
    ensures
        tokens_view(a + b) == tokens_view(a) + tokens_view(b),
{
    assert(tokens_view(a + b) =~= tokens_view(a) + tokens_view(b));
}

pub proof fn lemma_tokens_view_push(a: Seq<RouteParserToken>, t: RouteParserToken)
    ensures
        tokens_view(a.push(t)) == tokens_view(a).push(t@),
{
    assert(tokens_view(a.push(t)) =~= tokens_view(a).push(t@));
}

/// An optional group's view holds the views of its tokens.
pub proof fn lemma_optional_view(v: Vec<RouteParserToken>)
    ensures
        RouteParserToken::Optional(v)@ == TokenModel::Optional(tokens_view(v@)),
{
    let t = RouteParserToken::Optional(v);
    let inner = t@->Optional_0;
    assert(inner.len() == v.len());
    assert forall|k: int| 0 <= k < v.len() implies inner[k] == v@[k]@ by {}
    assert(inner =~= tokens_view(v@));
}

impl View for CaptureOrMatch {
    type V = TokenModel;

    open spec fn view(&self) -> TokenModel {
        match self {
            CaptureOrMatch::Match(m) => TokenModel::Match(m@),
            CaptureOrMatch::Capture(c) => TokenModel::Capture(c@),
        }
    }
}

} // verus!
