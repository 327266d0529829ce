//! Sections and whole route patterns.
use vstd::prelude::*;
use vstd::string::StrSliceExecFns;
use crate::model::{
    lemma_section_at_bounds, mandatory_at, matchers_after, optional_group_at,
    optionals_at, path_at, section_at,
};
use crate::primitives::{capture_from, char_is, error_at, in_context, match_from};
use crate::token::{
    lemma_optional_view, lemma_tokens_view_concat, lemma_tokens_view_push, tokens_view, Context, ErrorKind, ParseError, RouteParserToken,
    TokenModel,
};

verus! {

/// A section at position `i`: where it ends and its tokens, or the error of
/// its first token and where it was found.
fn section_from(s: &str, len: usize, i: usize) -> (r: Result<(usize, Vec<RouteParserToken>), (ErrorKind, usize)>)
    requires
        len == s@.len(),
        i <= len,
    ensures
        match section_at(s@, i as int) {
            Ok((e, ts)) => r matches Ok((re, rts)) && re == e && i < re <= len
                && tokens_view(rts@) == ts,
            Err((k, p)) => r matches Err((rk, rp)) && rk == k && rp == p && rp <= len,
        },
{
    let mut tokens: Vec<RouteParserToken> = Vec::new();
    let mut pos: usize;
    let mut after_match: bool;
    match match_from(s, len, i) {
        Ok((e, tok)) => {
            tokens.push(tok);
            pos = e;
            after_match = true;
        },
        Err(_) => match capture_from(s, len, i) {
            Ok((e, c)) => {
                tokens.push(RouteParserToken::Capture(c));
                pos = e;
                after_match = false;
            },
            Err(err) => {
                return Err(err);
            },
        },
    }
    proof {
        assert(tokens_view(tokens@) =~= seq![tokens@[0]@]);
        lemma_section_at_bounds(s@, i as int);
    }
    loop
        invariant
            len == s@.len(),
            i < pos <= len,
            section_at(s@, i as int) is Ok,
            section_at(s@, i as int)->Ok_0.0 == matchers_after(s@, pos as int, after_match).0,
            section_at(s@, i as int)->Ok_0.1 == tokens_view(tokens@) + matchers_after(
                s@,
                pos as int,
                after_match,
            ).1,
        ensures
            matchers_after(s@, pos as int, after_match).0 == pos,
            matchers_after(s@, pos as int, after_match).1 =~= Seq::<TokenModel>::empty(),
        decreases len - pos,
    {
        let ghost old_view = tokens_view(tokens@);
        if after_match {
            match capture_from(s, len, pos) {
                Ok((e, c)) => {
                    let tok = RouteParserToken::Capture(c);
                    let ghost tv = tok@;
                    tokens.push(tok);
                    proof {
                        assert(tokens_view(tokens@) =~= old_view.push(tv));
                        assert(old_view + matchers_after(s@, pos as int, true).1 =~= old_view.push(
                            tv,
                        ) + matchers_after(s@, e as int, false).1);
                    }
                    pos = e;
                    after_match = false;
                },
                Err(_) => {
                    break ;
                },
            }
        } else {
            match match_from(s, len, pos) {
                Ok((e, tok)) => {
                    let ghost tv = tok@;
                    tokens.push(tok);
                    proof {
                        assert(tokens_view(tokens@) =~= old_view.push(tv));
                        assert(old_view + matchers_after(s@, pos as int, false).1 =~= old_view.push(
                            tv,
                        ) + matchers_after(s@, e as int, true).1);
                    }
                    pos = e;
                    after_match = true;
                },
                Err(_) => {
                    break ;
                },
            }
        }
    }
    assert(tokens_view(tokens@) + matchers_after(s@, pos as int, after_match).1 =~= tokens_view(
        tokens@,
    ));
    Ok((pos, tokens))
}

/// One section of a pattern at the start of `i`: a literal match or a
/// capture, followed by tokens that alternate between the two kinds.  The
/// section stops, leaving the rest unread, where the next token would be of
/// the same kind as the one before it or where no token can be read.
pub fn section_matchers(i: &str) -> (r: Result<(&str, Vec<RouteParserToken>), ParseError>)
    ensures
        match section_at(i@, 0) {
            Ok((e, ts)) => r matches Ok((rest, toks)) && rest@ == i@.subrange(e, i@.len() as int)
                && tokens_view(toks@) == ts,
            Err((k, p)) => r matches Err(err) && err.kind == k
                && err.remaining@ == i@.subrange(p, i@.len() as int)
                && err.contexts@ == seq![Context::Capture, Context::SectionMatchers],
        },
{
    let len = i.unicode_len();
    match section_from(i, len, 0) {
        Ok((e, toks)) => Ok((i.substring_char(e, len), toks)),
        Err((k, p)) => {
            let err = in_context(error_at(k, i, p, Context::Capture), Context::SectionMatchers);
            assert(err.contexts@ =~= seq![Context::Capture, Context::SectionMatchers]);
            Err(err)
        },
    }
}

/// The mandatory segments at the start of `s`.
fn mandatory_from(s: &str, len: usize, tokens: &mut Vec<RouteParserToken>) -> (end: usize)
    requires
        len == s@.len(),
        old(tokens)@.len() == 0,
    ensures
        end == mandatory_at(s@, 0).0,
        end <= len,
        tokens_view(final(tokens)@) == mandatory_at(s@, 0).1,
{
    let mut pos: usize = 0;
    assert(tokens_view(tokens@) + mandatory_at(s@, 0).1 =~= mandatory_at(s@, 0).1);
    loop
        invariant
            len == s@.len(),
            pos <= len,
            mandatory_at(s@, 0).0 == mandatory_at(s@, pos as int).0,
            mandatory_at(s@, 0).1 == tokens_view(tokens@) + mandatory_at(s@, pos as int).1,
        ensures
            mandatory_at(s@, pos as int).0 == pos,
            mandatory_at(s@, pos as int).1 =~= Seq::<TokenModel>::empty(),
        decreases len - pos,
    {
        if !char_is(s, len, pos, '/') {
            break ;
        }
        match section_from(s, len, pos + 1) {
            Ok((e, toks)) => {
                let ghost before = tokens@;
                let mut toks = toks;
                let ghost section = toks@;
                tokens.push(RouteParserToken::Separator);
                tokens.append(&mut toks);
                proof {
                    lemma_tokens_view_push(before, RouteParserToken::Separator);
                    lemma_tokens_view_concat(before.push(RouteParserToken::Separator), section);
                    assert(tokens_view(before) + mandatory_at(s@, pos as int).1 =~= tokens_view(
                        tokens@,
                    ) + mandatory_at(s@, e as int).1);
                }
                pos = e;
            },
            Err(_) => {
                break ;
            },
        }
    }
    assert(tokens_view(tokens@) + mandatory_at(s@, pos as int).1 =~= tokens_view(tokens@));
    pos
}

/// The optional groups at position `start` of `s`, appended to `tokens`.
fn optionals_from(s: &str, len: usize, start: usize, tokens: &mut Vec<RouteParserToken>) -> (end: usize)
    requires
        len == s@.len(),
        start <= len,
    ensures
        end == optionals_at(s@, start as int).0,
        end <= len,
        tokens_view(final(tokens)@) == tokens_view(old(tokens)@) + optionals_at(s@, start as int).1,
{
    let mut pos: usize = start;
    let ghost initial = tokens_view(tokens@);
    loop
        invariant
            len == s@.len(),
            pos <= len,
            optionals_at(s@, start as int).0 == optionals_at(s@, pos as int).0,
            initial + optionals_at(s@, start as int).1 == tokens_view(tokens@) + optionals_at(
                s@,
                pos as int,
            ).1,
        ensures
            optionals_at(s@, pos as int).0 == pos,
            optionals_at(s@, pos as int).1 =~= Seq::<TokenModel>::empty(),
        decreases len - pos,
    {
        if !(char_is(s, len, pos, '(') && char_is(s, len, pos + 1, '/')) {
            break ;
        }
        match section_from(s, len, pos + 2) {
            Ok((e, toks)) => {
                if !char_is(s, len, e, ')') {
                    break ;
                }
                assert(optional_group_at(s@, pos as int));
                let mut toks = toks;
                let ghost section = toks@;
                let mut group: Vec<RouteParserToken> = Vec::new();
                group.push(RouteParserToken::Separator);
                group.append(&mut toks);
                let ghost before = tokens@;
                let ghost group_view = group@;
                tokens.push(RouteParserToken::Optional(group));
                proof {
                    lemma_tokens_view_concat(seq![RouteParserToken::Separator], section);
                    assert(seq![RouteParserToken::Separator] + section =~= group_view);
                    assert(tokens_view(seq![RouteParserToken::Separator]) =~= seq![
                        TokenModel::Separator,
                    ]);
                    lemma_optional_view(group);
                    lemma_tokens_view_push(before, tokens@.last());
                    assert(tokens@ =~= before.push(tokens@.last()));
                    assert(tokens_view(before) + optionals_at(s@, pos as int).1 =~= tokens_view(
                        tokens@,
                    ) + optionals_at(s@, e + 1).1);
                }
                pos = e + 1;
            },
            Err(_) => {
                break ;
            },
        }
    }
    assert(tokens_view(tokens@) + optionals_at(s@, pos as int).1 =~= tokens_view(tokens@));
    pos
}

/// A route pattern at the start of `s`: where it stops and its tokens.
fn path_from(s: &str, len: usize) -> (r: (usize, Vec<RouteParserToken>))
    requires
        len == s@.len(),
    ensures
        r.0 == path_at(s@).0,
        r.0 <= len,
        tokens_view(r.1@) == path_at(s@).1,
{
    let mut tokens: Vec<RouteParserToken> = Vec::new();
    let m = mandatory_from(s, len, &mut tokens);
    let o = optionals_from(s, len, m, &mut tokens);
    if char_is(s, len, o, '/') && o + 1 == len {
        let ghost before = tokens@;
        tokens.push(RouteParserToken::Separator);
        proof {
            lemma_tokens_view_push(before, RouteParserToken::Separator);
        }
        (o + 1, tokens)
    } else if o == 0 && char_is(s, len, 0, '/') {
        let mut single: Vec<RouteParserToken> = Vec::new();
        single.push(RouteParserToken::Separator);
        assert(tokens_view(single@) =~= seq![TokenModel::Separator]);
        (1, single)
    } else {
        (o, tokens)
    }
}

/// A route pattern at the start of `i`, in three parts, each of which may be
/// empty: mandatory segments (`/` and a section), then optional groups
/// (`(/section)`), then a `/` that ends the input.  A mandatory segment never
/// follows an optional group.  Where none of these consumes anything, a lone
/// `/` at the start is the pattern.  The pattern stops where nothing more can
/// be read and leaves the rest of the input unread, so this never fails.
pub fn path_parser(i: &str) -> (r: Result<(&str, Vec<RouteParserToken>), ParseError>)
    ensures
        r matches Ok((rest, toks)) && rest@ == i@.subrange(path_at(i@).0, i@.len() as int)
            && tokens_view(toks@) == path_at(i@).1,
{
    let len = i.unicode_len();
    let (e, toks) = path_from(i, len);
    Ok((i.substring_char(e, len), toks))
}

/// A whole route pattern: as [`path_parser`], and the pattern must take up
/// all of `i`.  Where it stops short, the error holds the unread rest.
pub fn parse_route(i: &str) -> (r: Result<Vec<RouteParserToken>, ParseError>)
    ensures
        path_at(i@).0 == i@.len() ==> (r matches Ok(toks) && tokens_view(toks@) == path_at(i@).1),
        path_at(i@).0 != i@.len() ==> (r matches Err(err) && err.kind
            == ErrorKind::UnparsedTrailingInput && err.remaining@ == i@.subrange(
            path_at(i@).0,
            i@.len() as int,
        ) && err.contexts@ == seq![Context::PathParser]),
{
    let len = i.unicode_len();
    let (e, toks) = path_from(i, len);
    if e == len {
        Ok(toks)
    } else {
        Err(error_at(ErrorKind::UnparsedTrailingInput, i, e, Context::PathParser))
    }
}

} // verus!
