//! The grammar of route patterns, stated over sequences of characters.
//!
//! Each rule takes the whole pattern `s` and a position `i` and says where the
//! rule stops and what it produces, or which error it reports and where.
use vstd::prelude::*;
use crate::token::{CaptureModel, ErrorKind, TokenModel};

verus! {

/// Characters that never occur in an identifier.
pub open spec fn is_forbidden(c: char) -> bool {
    c == ' ' || c == '-' || c == '*' || c == '/' || c == '+' || c == '#' || c == '?' || c == '&'
        || c == '^' || c == '@' || c == '~' || c == '`' || c == ';' || c == ',' || c == '.'
        || c == '|' || c == '\\' || c == '{' || c == '}' || c == '[' || c == ']' || c == '('
        || c == ')' || c == '=' || c == '\t' || c == '\n'
}

pub open spec fn is_digit(c: char) -> bool {
    '0' <= c <= '9'
}

pub open spec fn digit_value(c: char) -> nat {
    (c as nat - '0' as nat) as nat
}

/// Whether `s[i]` exists and is `c`.
pub open spec fn char_at(s: Seq<char>, i: int, c: char) -> bool {
    0 <= i < s.len() && s[i] == c
}

/// The end of the longest run of identifier characters starting at `i`.
pub open spec fn ident_end(s: Seq<char>, i: int) -> int
    decreases s.len() - i,
{
    if 0 <= i < s.len() && !is_forbidden(s[i]) {
        ident_end(s, i + 1)
    } else {
        i
    }
}

/// The end of the longest run of decimal digits starting at `i`.
pub open spec fn digits_end(s: Seq<char>, i: int) -> int
    decreases s.len() - i,
{
    if 0 <= i < s.len() && is_digit(s[i]) {
        digits_end(s, i + 1)
    } else {
        i
    }
}

/// The number written by the decimal digits `s[i..j]`.
pub open spec fn digits_value(s: Seq<char>, i: int, j: int) -> nat
    decreases j - i,
{
    if j <= i {
        0
    } else {
        digits_value(s, i, j - 1) * 10 + digit_value(s[j - 1])
    }
}

/// Whether a `}` occurs at or after position `i`.
pub open spec fn has_closing_brace(s: Seq<char>, i: int) -> bool {
    exists|k: int| i <= k < s.len() && 0 <= k && #[trigger] s[k] == '}'
}

/// An identifier at `i`: the position where it ends.
pub open spec fn ident_at(s: Seq<char>, i: int) -> Result<int, ErrorKind> {
    if !(0 <= i < s.len()) {
        Err(ErrorKind::EmptyIdentifier)
    } else if is_digit(s[i]) {
        Err(ErrorKind::InvalidLeadingDigit)
    } else if is_forbidden(s[i]) {
        Err(ErrorKind::EmptyIdentifier)
    } else {
        Ok(ident_end(s, i))
    }
}

/// The content of a capture, starting just after its `{`: the position where
/// the shape ends and the shape, tried in order of priority.
pub open spec fn capture_shape_at(s: Seq<char>, j: int) -> Result<(int, CaptureModel), ErrorKind> {
    if char_at(s, j, '}') {
        Ok((j, CaptureModel::Unnamed))
    } else if char_at(s, j, '*') && char_at(s, j + 1, ':') && ident_at(s, j + 2) is Ok {
        let e = ident_at(s, j + 2)->Ok_0;
        Ok((e, CaptureModel::ManyNamed(s.subrange(j + 2, e))))
    } else if char_at(s, j, '*') {
        Ok((j + 1, CaptureModel::ManyUnnamed))
    } else if ident_at(s, j) is Ok {
        let e = ident_at(s, j)->Ok_0;
        Ok((e, CaptureModel::Named(s.subrange(j, e))))
    } else if 0 <= j < s.len() && is_digit(s[j]) {
        let d = digits_end(s, j);
        let n = digits_value(s, j, d);
        if n > usize::MAX {
            Err(ErrorKind::InvalidSectionCount)
        } else if char_at(s, d, ':') && ident_at(s, d + 1) is Ok {
            let e = ident_at(s, d + 1)->Ok_0;
            Ok((e, CaptureModel::NumberedNamed(n, s.subrange(d + 1, e))))
        } else {
            Ok((d, CaptureModel::NumberedUnnamed(n)))
        }
    } else {
        Err(ErrorKind::MalformedCapture)
    }
}

/// The error for content that cannot be read as a capture at position `k`:
/// unterminated when no `}` follows, malformed otherwise.
pub open spec fn brace_error(s: Seq<char>, k: int) -> ErrorKind {
    if has_closing_brace(s, k) {
        ErrorKind::MalformedCapture
    } else {
        ErrorKind::UnterminatedCapture
    }
}

/// A capture `{...}` at `i`: the position after its `}` and its variant, or
/// the error and the position where it was found.
pub open spec fn capture_at(s: Seq<char>, i: int) -> Result<(int, CaptureModel), (ErrorKind, int)> {
    if !char_at(s, i, '{') {
        Err((ErrorKind::MalformedCapture, i))
    } else {
        match capture_shape_at(s, i + 1) {
            Err(k) => if k == ErrorKind::MalformedCapture {
                Err((brace_error(s, i + 1), i + 1))
            } else {
                Err((k, i + 1))
            },
            Ok((e, c)) => if char_at(s, e, '}') {
                Ok((e + 1, c))
            } else {
                Err((brace_error(s, e), e))
            },
        }
    }
}

pub proof fn lemma_ident_end_bounds(s: Seq<char>, i: int)
    requires
        0 <= i <= s.len(),
    ensures
        i <= ident_end(s, i) <= s.len(),
    decreases s.len() - i,
{
    if i < s.len() && !is_forbidden(s[i]) {
        lemma_ident_end_bounds(s, i + 1);
    }
}

pub proof fn lemma_digits_end_bounds(s: Seq<char>, i: int)
    requires
        0 <= i <= s.len(),
    ensures
        i <= digits_end(s, i) <= s.len(),
    decreases s.len() - i,
{
    if i < s.len() && is_digit(s[i]) {
        lemma_digits_end_bounds(s, i + 1);
    }
}

/// An identifier ends after its start, within the pattern.
pub proof fn lemma_ident_at_bounds(s: Seq<char>, i: int)
    requires
        0 <= i <= s.len(),
    ensures
        ident_at(s, i) is Ok ==> i < ident_at(s, i)->Ok_0 <= s.len(),
{
    lemma_ident_end_bounds(s, i);
    if ident_at(s, i) is Ok {
        assert(ident_end(s, i) == ident_end(s, i + 1));
        lemma_ident_end_bounds(s, i + 1);
    }
}

/// A capture shape ends within the pattern, and a capture after its start.
pub proof fn lemma_capture_at_bounds(s: Seq<char>, i: int)
    requires
        0 <= i <= s.len(),
    ensures
        capture_shape_at(s, i) is Ok ==> i <= capture_shape_at(s, i)->Ok_0.0 <= s.len(),
        capture_at(s, i) is Ok ==> i + 2 <= capture_at(s, i)->Ok_0.0 <= s.len(),
{
    lemma_ident_at_bounds(s, i);
    if i + 2 <= s.len() {
        lemma_ident_at_bounds(s, i + 2);
    }
    if i < s.len() {
        lemma_digits_end_bounds(s, i);
        let d = digits_end(s, i);
        if d + 1 <= s.len() {
            lemma_ident_at_bounds(s, d + 1);
        }
    }
    if i + 1 <= s.len() {
        lemma_ident_at_bounds(s, i + 1);
        if i + 3 <= s.len() {
            lemma_ident_at_bounds(s, i + 3);
        }
        if i + 1 < s.len() {
            lemma_digits_end_bounds(s, i + 1);
            let d = digits_end(s, i + 1);
            if d + 1 <= s.len() {
                lemma_ident_at_bounds(s, d + 1);
            }
        }
    }
}

/// The tokens of a section after its first one, each of the kind opposite to
/// the one before it: a capture after a match, a match after a capture.
/// The run stops, without failing, at the first token of the wrong kind or at
/// the first position where no token of the expected kind can be read.
pub open spec fn matchers_after(s: Seq<char>, i: int, after_match: bool) -> (int, Seq<TokenModel>)
    decreases s.len() - i,
{
    if !(0 <= i <= s.len()) {
        (i, seq![])
    } else if after_match {
        match capture_at(s, i) {
            Ok((e, c)) => {
                proof {
                    lemma_capture_at_bounds(s, i);
                }
                let (end, rest) = matchers_after(s, e, false);
                (end, seq![TokenModel::Capture(c)] + rest)
            },
            Err(_) => (i, seq![]),
        }
    } else {
        match ident_at(s, i) {
            Ok(e) => {
                proof {
                    lemma_ident_at_bounds(s, i);
                }
                let (end, rest) = matchers_after(s, e, true);
                (end, seq![TokenModel::Match(s.subrange(i, e))] + rest)
            },
            Err(_) => (i, seq![]),
        }
    }
}

/// A section at `i`: a literal match or a capture, then alternating tokens.
/// It fails only when no first token can be read; the error is then the
/// capture's.
pub open spec fn section_at(s: Seq<char>, i: int) -> Result<(int, Seq<TokenModel>), (ErrorKind, int)> {
    match ident_at(s, i) {
        Ok(e) => {
            let (end, rest) = matchers_after(s, e, true);
            Ok((end, seq![TokenModel::Match(s.subrange(i, e))] + rest))
        },
        Err(_) => match capture_at(s, i) {
            Ok((e, c)) => {
                let (end, rest) = matchers_after(s, e, false);
                Ok((end, seq![TokenModel::Capture(c)] + rest))
            },
            Err(err) => Err(err),
        },
    }
}

pub proof fn lemma_matchers_after_bounds(s: Seq<char>, i: int, after_match: bool)
    requires
        0 <= i <= s.len(),
    ensures
        i <= matchers_after(s, i, after_match).0 <= s.len(),
    decreases s.len() - i,
{
    lemma_capture_at_bounds(s, i);
    lemma_ident_at_bounds(s, i);
    if after_match {
        if capture_at(s, i) is Ok {
            lemma_matchers_after_bounds(s, capture_at(s, i)->Ok_0.0, false);
        }
    } else {
        if ident_at(s, i) is Ok {
            lemma_matchers_after_bounds(s, ident_at(s, i)->Ok_0, true);
        }
    }
}

/// A section ends after its start, within the pattern.
pub proof fn lemma_section_at_bounds(s: Seq<char>, i: int)
    requires
        0 <= i <= s.len(),
    ensures
        section_at(s, i) is Ok ==> i < section_at(s, i)->Ok_0.0 <= s.len(),
{
    lemma_capture_at_bounds(s, i);
    lemma_ident_at_bounds(s, i);
    if ident_at(s, i) is Ok {
        lemma_matchers_after_bounds(s, ident_at(s, i)->Ok_0, true);
    } else if capture_at(s, i) is Ok {
        lemma_matchers_after_bounds(s, capture_at(s, i)->Ok_0.0, false);
    }
}

/// The mandatory segments at `i`: each a `/` followed by a section, for as
/// long as one can be read.
pub open spec fn mandatory_at(s: Seq<char>, i: int) -> (int, Seq<TokenModel>)
    decreases s.len() - i,
{
    if 0 <= i < s.len() && s[i] == '/' && section_at(s, i + 1) is Ok {
        let (e, toks) = section_at(s, i + 1)->Ok_0;
        proof {
            lemma_section_at_bounds(s, i + 1);
        }
        let (end, rest) = mandatory_at(s, e);
        (end, seq![TokenModel::Separator] + toks + rest)
    } else {
        (i, seq![])
    }
}

/// Whether an optional group `(/section)` starts at `i`.
pub open spec fn optional_group_at(s: Seq<char>, i: int) -> bool {
    char_at(s, i, '(') && char_at(s, i + 1, '/') && section_at(s, i + 2) is Ok && char_at(
        s,
        section_at(s, i + 2)->Ok_0.0,
        ')',
    )
}

/// The optional groups at `i`, for as long as one can be read.
pub open spec fn optionals_at(s: Seq<char>, i: int) -> (int, Seq<TokenModel>)
    decreases s.len() - i,
{
    if 0 <= i < s.len() && optional_group_at(s, i) {
        let (e, toks) = section_at(s, i + 2)->Ok_0;
        proof {
            lemma_section_at_bounds(s, i + 2);
        }
        let (end, rest) = optionals_at(s, e + 1);
        (end, seq![TokenModel::Optional(seq![TokenModel::Separator] + toks)] + rest)
    } else {
        (i, seq![])
    }
}

/// A route pattern: mandatory segments, then optional groups, then a `/`
/// that ends the input.  Where none of these consumes anything, a single `/`
/// at the start is read on its own.  The result is where the pattern stops
/// and its tokens; whatever follows is left unread.
pub open spec fn path_at(s: Seq<char>) -> (int, Seq<TokenModel>) {
    let (m, mandatory) = mandatory_at(s, 0);
    let (o, optionals) = optionals_at(s, m);
    if char_at(s, o, '/') && o + 1 == s.len() {
        (o + 1, mandatory + optionals + seq![TokenModel::Separator])
    } else if o == 0 && char_at(s, 0, '/') {
        (1, seq![TokenModel::Separator])
    } else {
        (o, mandatory + optionals)
    }
}

} // verus!
