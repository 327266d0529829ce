//! Identifiers, literal matches and captures.
use vstd::prelude::*;
use vstd::string::StrSliceExecFns;
use vstd::string::StringExecFns;
use crate::model::{
    brace_error, capture_at, capture_shape_at, char_at, digit_value, digits_end, digits_value,
    has_closing_brace, ident_at, ident_end, is_digit, is_forbidden, lemma_capture_at_bounds,
    lemma_ident_at_bounds,
};
use crate::token::{
    CaptureOrMatch, CaptureVariant, Context, ErrorKind, ParseError,
    RouteParserToken, TokenModel,
};

verus! {

/// The text of `s` from `from` to `to`, as an owned string.
pub(crate) fn slice_to_string(s: &str, from: usize, to: usize) -> (r: String)
    requires
        from <= to <= s@.len(),
    ensures
        r@ == s@.subrange(from as int, to as int),
{
    String::from_str(s.substring_char(from, to))
}

/// An error of `kind` found at position `pos` of `s`, inside the rule `ctx`.
pub(crate) fn error_at(kind: ErrorKind, s: &str, pos: usize, ctx: Context) -> (e: ParseError)
    requires
        pos <= s@.len(),
    ensures
        e.kind == kind,
        e.remaining@ == s@.subrange(pos as int, s@.len() as int),
        e.contexts@ == seq![ctx],
{
    let len = s.unicode_len();
    let remaining = slice_to_string(s, pos, len);
    let mut contexts: Vec<Context> = Vec::new();
    contexts.push(ctx);
    ParseError { kind, remaining, contexts }
}

/// The same error, seen from the enclosing rule `ctx`.
pub(crate) fn in_context(e: ParseError, ctx: Context) -> (r: ParseError)
    ensures
        r.kind == e.kind,
        r.remaining@ == e.remaining@,
        r.contexts@ == e.contexts@.push(ctx),
{
    let mut e = e;
    e.contexts.push(ctx);
    e
}

fn is_forbidden_char(c: char) -> (r: bool)
    ensures
        r == is_forbidden(c),
{
    c == ' ' || c == '-' || c == '*' || c == '/' || c == '+' || c == '#' || c == '?' || c == '&'
        || c == '^' || c == '@' || c == '~' || c == '`' || c == ';' || c == ',' || c == '.'
        || c == '|' || c == '\\' || c == '{' || c == '}' || c == '[' || c == ']' || c == '('
        || c == ')' || c == '=' || c == '\t' || c == '\n'
}

/// Whether `s[i]` exists and is `c`.
pub(crate) fn char_is(s: &str, len: usize, i: usize, c: char) -> (r: bool)
    requires
        len == s@.len(),
    ensures
        r == char_at(s@, i as int, c),
{
    i < len && s.get_char(i) == c
}

/// The end of the run of identifier characters that starts at `i`.
fn ident_end_from(s: &str, len: usize, i: usize) -> (e: usize)
    requires
        len == s@.len(),
        i <= len,
    ensures
        e == ident_end(s@, i as int),
        i <= e <= len,
{
    let mut k: usize = i;
    while k < len && !is_forbidden_char(s.get_char(k))
        invariant
            len == s@.len(),
            i <= k <= len,
            ident_end(s@, k as int) == ident_end(s@, i as int),
        decreases len - k,
    {
        k = k + 1;
    }
    k
}

/// An identifier at `i`: where it ends.
fn ident_from(s: &str, len: usize, i: usize) -> (r: Result<usize, ErrorKind>)
    requires
        len == s@.len(),
        i <= len,
    ensures
        match ident_at(s@, i as int) {
            Ok(e) => r == Ok::<usize, ErrorKind>(e as usize) && i < e <= len,
            Err(k) => r == Err::<usize, ErrorKind>(k),
        },
{
    proof {
        lemma_ident_at_bounds(s@, i as int);
    }
    if i >= len {
        return Err(ErrorKind::EmptyIdentifier);
    }
    let c = s.get_char(i);
    if '0' <= c && c <= '9' {
        Err(ErrorKind::InvalidLeadingDigit)
    } else if is_forbidden_char(c) {
        Err(ErrorKind::EmptyIdentifier)
    } else {
        Ok(ident_end_from(s, len, i))
    }
}

/// Consumes the longest run of identifier characters at the start of `i`.
/// The run must be non-empty and must not start with a digit.
pub fn valid_ident_characters(i: &str) -> (r: Result<(&str, &str), ParseError>)
    ensures
        match ident_at(i@, 0) {
            Ok(e) => r matches Ok((rest, ident)) && rest@ == i@.subrange(e, i@.len() as int)
                && ident@ == i@.subrange(0, e),
            Err(k) => r matches Err(err) && err.kind == k && err.remaining@ == i@
                && err.contexts@ == seq![Context::ValidIdent],
        },
{
    let len = i.unicode_len();
    match ident_from(i, len, 0) {
        Ok(e) => Ok((i.substring_char(e, len), i.substring_char(0, e))),
        Err(k) => {
            let err = error_at(k, i, 0, Context::ValidIdent);
            proof {
                assert(i@.subrange(0, len as int) =~= i@);
            }
            Err(err)
        },
    }
}

/// The run of decimal digits that starts at `j`: where it ends, and the
/// number it writes when that fits in a `usize`.
fn digits_from(s: &str, len: usize, j: usize) -> (r: (usize, Option<usize>))
    requires
        len == s@.len(),
        j <= len,
    ensures
        r.0 == digits_end(s@, j as int),
        j <= r.0 <= len,
        match r.1 {
            Some(n) => n == digits_value(s@, j as int, r.0 as int),
            None => digits_value(s@, j as int, r.0 as int) > usize::MAX,
        },
{
    let mut k: usize = j;
    let mut value: Option<usize> = Some(0);
    while k < len && '0' <= s.get_char(k) && s.get_char(k) <= '9'
        invariant
            len == s@.len(),
            j <= k <= len,
            digits_end(s@, k as int) == digits_end(s@, j as int),
            match value {
                Some(n) => n == digits_value(s@, j as int, k as int),
                None => digits_value(s@, j as int, k as int) > usize::MAX,
            },
        decreases len - k,
    {
        let c = s.get_char(k);
        let d = ((c as u32) - ('0' as u32)) as usize;
        assert(d == digit_value(s@[k as int]));
        assert(digits_value(s@, j as int, k + 1) == digits_value(s@, j as int, k as int) * 10
            + digit_value(s@[k as int]));
        value = match value {
            Some(n) => match n.checked_mul(10) {
                Some(m) => m.checked_add(d),
                None => None,
            },
            None => None,
        };
        k = k + 1;
    }
    (k, value)
}

/// The shape of a capture whose content starts at `j`, just after its `{`.
fn capture_shape_from(s: &str, len: usize, j: usize) -> (r: Result<(usize, CaptureVariant), ErrorKind>)
    requires
        len == s@.len(),
        j <= len,
    ensures
        match capture_shape_at(s@, j as int) {
            Ok((e, c)) => r matches Ok((re, rc)) && re == e && rc@ == c,
            Err(k) => r == Err::<(usize, CaptureVariant), ErrorKind>(k),
        },
{
    if char_is(s, len, j, '}') {
        return Ok((j, CaptureVariant::Unnamed));
    }
    if char_is(s, len, j, '*') && char_is(s, len, j + 1, ':') {
        if let Ok(e) = ident_from(s, len, j + 2) {
            return Ok((e, CaptureVariant::ManyNamed(slice_to_string(s, j + 2, e))));
        }
    }
    if char_is(s, len, j, '*') {
        return Ok((j + 1, CaptureVariant::ManyUnnamed));
    }
    if let Ok(e) = ident_from(s, len, j) {
        return Ok((e, CaptureVariant::Named(slice_to_string(s, j, e))));
    }
    if j < len && '0' <= s.get_char(j) && s.get_char(j) <= '9' {
        let (d, value) = digits_from(s, len, j);
        match value {
            None => Err(ErrorKind::InvalidSectionCount),
            Some(n) => {
                if char_is(s, len, d, ':') {
                    if let Ok(e) = ident_from(s, len, d + 1) {
                        return Ok(
                            (
                                e,
                                CaptureVariant::NumberedNamed {
                                    sections: n,
                                    name: slice_to_string(s, d + 1, e),
                                },
                            ),
                        );
                    }
                }
                Ok((d, CaptureVariant::NumberedUnnamed { sections: n }))
            },
        }
    } else {
        Err(ErrorKind::MalformedCapture)
    }
}

/// Whether a `}` occurs at or after position `i`.
fn closing_brace_from(s: &str, len: usize, i: usize) -> (r: bool)
    requires
        len == s@.len(),
    ensures
        r == has_closing_brace(s@, i as int),
{
    let mut k: usize = i;
    while k < len
        invariant
            len == s@.len(),
            i <= k,
            forall|t: int| i <= t < k && t < len ==> s@[t] != '}',
        decreases len - k,
    {
        if s.get_char(k) == '}' {
            return true;
        }
        k = k + 1;
    }
    false
}

/// The error for content at `k` that cannot be read as a capture.
fn brace_error_from(s: &str, len: usize, k: usize) -> (r: ErrorKind)
    requires
        len == s@.len(),
    ensures
        r == brace_error(s@, k as int),
{
    if closing_brace_from(s, len, k) {
        ErrorKind::MalformedCapture
    } else {
        ErrorKind::UnterminatedCapture
    }
}

/// A capture at position `i`: where it ends and its variant, or the error and
/// where it was found.
pub(crate) fn capture_from(s: &str, len: usize, i: usize) -> (r: Result<(usize, CaptureVariant), (ErrorKind, usize)>)
    requires
        len == s@.len(),
        i <= len,
    ensures
        match capture_at(s@, i as int) {
            Ok((e, c)) => r matches Ok((re, rc)) && re == e && rc@ == c && i < re <= len,
            Err((k, p)) => r matches Err((rk, rp)) && rk == k && rp == p && rp <= len,
        },
{
    proof {
        lemma_capture_at_bounds(s@, i as int);
        if i < len {
            lemma_capture_at_bounds(s@, i + 1);
        }
    }
    if !char_is(s, len, i, '{') {
        return Err((ErrorKind::MalformedCapture, i));
    }
    match capture_shape_from(s, len, i + 1) {
        Err(k) => {
            if k == ErrorKind::MalformedCapture {
                Err((brace_error_from(s, len, i + 1), i + 1))
            } else {
                Err((k, i + 1))
            }
        },
        Ok((e, c)) => {
            if char_is(s, len, e, '}') {
                Ok((e + 1, c))
            } else {
                Err((brace_error_from(s, len, e), e))
            }
        },
    }
}

/// A capture `{...}` at the start of `i`, in one of six shapes:
/// `{}`, `{*:name}`, `{*}`, `{name}`, `{5:name}` and `{5}`, tried in that order.
pub fn capture(i: &str) -> (r: Result<(&str, RouteParserToken), ParseError>)
    ensures
        match capture_at(i@, 0) {
            Ok((e, c)) => r matches Ok((rest, tok)) && rest@ == i@.subrange(e, i@.len() as int)
                && tok@ == TokenModel::Capture(c),
            Err((k, p)) => r matches Err(err) && err.kind == k
                && err.remaining@ == i@.subrange(p, i@.len() as int)
                && err.contexts@ == seq![Context::Capture],
        },
{
    let len = i.unicode_len();
    match capture_from(i, len, 0) {
        Ok((e, c)) => Ok((i.substring_char(e, len), RouteParserToken::Capture(c))),
        Err((k, p)) => Err(error_at(k, i, p, Context::Capture)),
    }
}

/// An identifier is read whole: on a non-empty sequence of identifier
/// characters that does not start with a digit, the identifier rule consumes
/// everything, so that nothing remains and the identifier is the input itself.
pub proof fn lemma_identifier_read_whole(s: Seq<char>)
    requires
        s.len() > 0,
        !is_digit(s[0]),
        forall|k: int| 0 <= k < s.len() ==> !is_forbidden(#[trigger] s[k]),
    ensures
        ident_at(s, 0) == Ok::<int, ErrorKind>(s.len() as int),
        s.subrange(0, s.len() as int) == s,
        s.subrange(s.len() as int, s.len() as int) == Seq::<char>::empty(),
{
    lemma_ident_end_to_end(s, 0);
    assert(s.subrange(0, s.len() as int) =~= s);
    assert(s.subrange(s.len() as int, s.len() as int) =~= Seq::<char>::empty());
}

proof fn lemma_ident_end_to_end(s: Seq<char>, i: int)
    requires
        0 <= i <= s.len(),
        forall|k: int| 0 <= k < s.len() ==> !is_forbidden(#[trigger] s[k]),
    ensures
        ident_end(s, i) == s.len(),
    decreases s.len() - i,
{
    if i < s.len() {
        lemma_ident_end_to_end(s, i + 1);
    }
}

/// A literal match at position `i`: where it ends and its token.
pub(crate) fn match_from(s: &str, len: usize, i: usize) -> (r: Result<(usize, RouteParserToken), ErrorKind>)
    requires
        len == s@.len(),
        i <= len,
    ensures
        match ident_at(s@, i as int) {
            Ok(e) => r matches Ok((re, tok)) && re == e && i < re <= len
                && tok@ == TokenModel::Match(s@.subrange(i as int, e)),
            Err(k) => r matches Err(rk) && rk == k,
        },
{
    match ident_from(s, len, i) {
        Ok(e) => Ok((e, RouteParserToken::Match(slice_to_string(s, i, e)))),
        Err(k) => Err(k),
    }
}

/// A literal match at the start of `i`: a non-empty run of identifier
/// characters that does not start with a digit.
pub fn match_specific(i: &str) -> (r: Result<(&str, RouteParserToken), ParseError>)
    ensures
        match ident_at(i@, 0) {
            Ok(e) => r matches Ok((rest, tok)) && rest@ == i@.subrange(e, i@.len() as int)
                && tok@ == TokenModel::Match(i@.subrange(0, e)),
            Err(k) => r matches Err(err) && err.kind == k && err.remaining@ == i@
                && err.contexts@ == seq![Context::ValidIdent, Context::Match],
        },
{
    let len = i.unicode_len();
    match match_from(i, len, 0) {
        Ok((e, tok)) => Ok((i.substring_char(e, len), tok)),
        Err(k) => {
            let err = in_context(error_at(k, i, 0, Context::ValidIdent), Context::Match);
            proof {
                assert(i@.subrange(0, len as int) =~= i@);
                assert(err.contexts@ =~= seq![Context::ValidIdent, Context::Match]);
            }
            Err(err)
        },
    }
}

/// A capture or, where there is none, a literal match at the start of `i`.
pub fn capture_or_match(i: &str) -> (r: Result<(&str, CaptureOrMatch), ParseError>)
    ensures
        match capture_at(i@, 0) {
            Ok((e, c)) => r matches Ok((rest, tok)) && rest@ == i@.subrange(e, i@.len() as int)
                && tok@ == TokenModel::Capture(c),
            Err(_) => match ident_at(i@, 0) {
                Ok(e) => r matches Ok((rest, tok)) && rest@ == i@.subrange(e, i@.len() as int)
                    && tok@ == TokenModel::Match(i@.subrange(0, e)),
                Err(k) => r matches Err(err) && err.kind == k && err.remaining@ == i@
                    && err.contexts@ == seq![
                    Context::ValidIdent,
                    Context::Match,
                    Context::CaptureOrMatch,
                ],
            },
        },
{
    let len = i.unicode_len();
    match capture_from(i, len, 0) {
        Ok((e, c)) => Ok((i.substring_char(e, len), CaptureOrMatch::Capture(c))),
        Err(_) => match ident_from(i, len, 0) {
            Ok(e) => Ok((i.substring_char(e, len), CaptureOrMatch::Match(slice_to_string(i, 0, e)))),
            Err(k) => {
                let err = in_context(
                    in_context(error_at(k, i, 0, Context::ValidIdent), Context::Match),
                    Context::CaptureOrMatch,
                );
                proof {
                    assert(i@.subrange(0, len as int) =~= i@);
                    assert(err.contexts@ =~= seq![
                        Context::ValidIdent,
                        Context::Match,
                        Context::CaptureOrMatch,
                    ]);
                }
                Err(err)
            },
        },
    }
}

} // verus!
