//! Writing tokens back as pattern text, and reading that text again.
use vstd::prelude::*;
use crate::model::{
    capture_at, char_at, digits_end, digits_value, digit_value, ident_at, ident_end, is_digit,
    is_forbidden, lemma_capture_at_bounds, lemma_digits_end_bounds, lemma_ident_at_bounds, lemma_section_at_bounds,
    mandatory_at, matchers_after, optional_group_at, optionals_at, path_at, section_at,
};
use vstd::string::StringExecFns;
use crate::token::{
    lemma_optional_view, tokens_view, CaptureModel, CaptureVariant, ErrorKind, RouteParserToken,
    TokenModel,
};

verus! {

/// The character of a decimal digit `d < 10`.
pub open spec fn digit_char(d: nat) -> char {
    if d == 0 { '0' }
    else if d == 1 { '1' }
    else if d == 2 { '2' }
    else if d == 3 { '3' }
    else if d == 4 { '4' }
    else if d == 5 { '5' }
    else if d == 6 { '6' }
    else if d == 7 { '7' }
    else if d == 8 { '8' }
    else { '9' }
}

/// `n` written in decimal, without leading zeros.
pub open spec fn decimal_text(n: nat) -> Seq<char>
    decreases n,
{
    if n < 10 {
        seq![digit_char(n)]
    } else {
        decimal_text(n / 10) + seq![digit_char(n % 10)]
    }
}

/// Whether `m` can be read as an identifier: non-empty, of identifier
/// characters, not starting with a digit.
pub open spec fn is_identifier(m: Seq<char>) -> bool {
    &&& m.len() > 0
    &&& !is_digit(m[0])
    &&& forall|k: int| 0 <= k < m.len() ==> !is_forbidden(#[trigger] m[k])
}

/// Whether a capture's names are identifiers and its count fits a `usize`.
pub open spec fn capture_is_valid(c: CaptureModel) -> bool {
    match c {
        CaptureModel::Unnamed => true,
        CaptureModel::ManyUnnamed => true,
        CaptureModel::Named(n) => is_identifier(n),
        CaptureModel::ManyNamed(n) => is_identifier(n),
        CaptureModel::NumberedUnnamed(k) => k <= usize::MAX,
        CaptureModel::NumberedNamed(k, n) => k <= usize::MAX && is_identifier(n),
    }
}

/// The text of a capture.
pub open spec fn capture_text(c: CaptureModel) -> Seq<char> {
    match c {
        CaptureModel::Unnamed => seq!['{', '}'],
        CaptureModel::ManyUnnamed => seq!['{', '*', '}'],
        CaptureModel::Named(n) => seq!['{'] + n + seq!['}'],
        CaptureModel::ManyNamed(n) => seq!['{', '*', ':'] + n + seq!['}'],
        CaptureModel::NumberedUnnamed(k) => seq!['{'] + decimal_text(k) + seq!['}'],
        CaptureModel::NumberedNamed(k, n) => seq!['{'] + decimal_text(k) + seq![':'] + n + seq![
            '}',
        ],
    }
}

pub proof fn lemma_decimal_text_digits(n: nat)
    ensures
        decimal_text(n).len() > 0,
        forall|k: int| 0 <= k < decimal_text(n).len() ==> is_digit(#[trigger] decimal_text(n)[k]),
    decreases n,
{
    if n >= 10 {
        lemma_decimal_text_digits(n / 10);
    }
}

/// Decimal text at position `i` of `x`, followed by a non-digit or the end,
/// is read back as the number it writes.
pub proof fn lemma_read_decimal(x: Seq<char>, i: int, n: nat)
    requires
        0 <= i,
        i + decimal_text(n).len() <= x.len(),
        x.subrange(i, i + decimal_text(n).len()) == decimal_text(n),
    ensures
        digits_value(x, i, i + decimal_text(n).len()) == n,
    decreases n,
{
    let t = decimal_text(n);
    let j = i + t.len();
    if n < 10 {
        assert(x[i] == t[0]);
        assert(digits_value(x, i, i) == 0);
    } else {
        let p = decimal_text(n / 10);
        assert(x.subrange(i, i + p.len()) =~= x.subrange(i, j).subrange(0, p.len() as int));
        assert(t.subrange(0, p.len() as int) =~= p);
        lemma_read_decimal(x, i, n / 10);
        assert(x[j - 1] == t[t.len() - 1]);
    }
    assert(digit_value(digit_char(n % 10)) == n % 10);
}

proof fn lemma_digits_end_run(x: Seq<char>, k: int, j: int)
    requires
        0 <= k <= j <= x.len(),
        forall|t: int| k <= t < j ==> is_digit(#[trigger] x[t]),
        j == x.len() || !is_digit(x[j]),
    ensures
        digits_end(x, k) == j,
    decreases j - k,
{
    if k < j {
        lemma_digits_end_run(x, k + 1, j);
    }
}

proof fn lemma_ident_end_run(x: Seq<char>, k: int, j: int)
    requires
        0 <= k <= j <= x.len(),
        forall|t: int| k <= t < j ==> !is_forbidden(#[trigger] x[t]),
        j == x.len() || is_forbidden(x[j]),
    ensures
        ident_end(x, k) == j,
    decreases j - k,
{
    if k < j {
        lemma_ident_end_run(x, k + 1, j);
    }
}

/// Whether `x` holds `p` at position `i`.
pub open spec fn holds_at(x: Seq<char>, i: int, p: Seq<char>) -> bool {
    0 <= i && i + p.len() <= x.len() && x.subrange(i, i + p.len()) == p
}

proof fn lemma_holds_at_index(x: Seq<char>, i: int, p: Seq<char>)
    requires
        holds_at(x, i, p),
    ensures
        forall|t: int| 0 <= t < p.len() ==> x[i + t] == #[trigger] p[t],
{
    assert forall|t: int| 0 <= t < p.len() implies x[i + t] == #[trigger] p[t] by {
        assert(x.subrange(i, i + p.len())[t] == x[i + t]);
    }
}

/// `x` holds `a + b` at `i`: it holds `a` there and `b` right after.
proof fn lemma_holds_at_split(x: Seq<char>, i: int, a: Seq<char>, b: Seq<char>)
    requires
        holds_at(x, i, a + b),
    ensures
        holds_at(x, i, a),
        holds_at(x, i + a.len(), b),
{
    lemma_holds_at_index(x, i, a + b);
    assert forall|t: int| 0 <= t < a.len() implies x[i + t] == #[trigger] a[t] by {
        assert(x[i + t] == (a + b)[t]);
    }
    assert forall|t: int| 0 <= t < b.len() implies x[i + a.len() + t] == #[trigger] b[t] by {
        assert(x[i + (a.len() + t)] == (a + b)[a.len() + t]);
    }
    assert(x.subrange(i, i + a.len()) =~= a);
    assert(x.subrange(i + a.len(), i + a.len() + b.len()) =~= b);
}

/// An identifier at `i`, followed by a character outside identifiers or by
/// the end, is read whole.
pub proof fn lemma_read_identifier(x: Seq<char>, i: int, m: Seq<char>)
    requires
        is_identifier(m),
        holds_at(x, i, m),
        i + m.len() == x.len() || is_forbidden(x[i + m.len()]),
    ensures
        ident_at(x, i) == Ok::<int, ErrorKind>(i + m.len()),
{
    lemma_holds_at_index(x, i, m);
    assert(x[i + 0] == m[0]);
    assert forall|t: int| i <= t < i + m.len() implies !is_forbidden(#[trigger] x[t]) by {
        assert(x[i + (t - i)] == m[t - i]);
    }
    lemma_ident_end_run(x, i, i + m.len());
}

/// Decimal text at `i`, followed by a non-digit, is read back as its number.
proof fn lemma_read_decimal_run(x: Seq<char>, i: int, n: nat)
    requires
        holds_at(x, i, decimal_text(n)),
        i + decimal_text(n).len() < x.len(),
        !is_digit(x[i + decimal_text(n).len()]),
    ensures
        digits_end(x, i) == i + decimal_text(n).len(),
        digits_value(x, i, i + decimal_text(n).len()) == n,
        is_digit(x[i]),
{
    lemma_holds_at_index(x, i, decimal_text(n));
    lemma_decimal_text_digits(n);
    assert forall|t: int| i <= t < i + decimal_text(n).len() implies is_digit(#[trigger] x[t]) by {
        assert(x[i + (t - i)] == decimal_text(n)[t - i]);
    }
    lemma_digits_end_run(x, i, i + decimal_text(n).len());
    lemma_read_decimal(x, i, n);
}

/// The text of a valid capture is read back as that capture.
pub proof fn lemma_read_capture(x: Seq<char>, i: int, c: CaptureModel)
    requires
        capture_is_valid(c),
        holds_at(x, i, capture_text(c)),
    ensures
        capture_at(x, i) == Ok::<(int, CaptureModel), (ErrorKind, int)>(
            (i + capture_text(c).len(), c),
        ),
{
    let ct = capture_text(c);
    let j = i + 1;
    lemma_holds_at_index(x, i, ct);
    assert(x[i + 0] == ct[0]);
    match c {
        CaptureModel::Unnamed => {
            assert(x[i + 1] == ct[1]);
        },
        CaptureModel::ManyUnnamed => {
            assert(x[i + 1] == ct[1]);
            assert(x[i + 2] == ct[2]);
        },
        CaptureModel::Named(n) => {
            lemma_holds_at_split(x, i, seq!['{'] + n, seq!['}']);
            lemma_holds_at_split(x, i, seq!['{'], n);
            assert(x[j + n.len()] == ct[(1 + n.len()) as int]);
            lemma_read_identifier(x, j, n);
            assert(x[j] == n[0]);
        },
        CaptureModel::ManyNamed(n) => {
            lemma_holds_at_split(x, i, seq!['{', '*', ':'] + n, seq!['}']);
            lemma_holds_at_split(x, i, seq!['{', '*', ':'], n);
            assert(x[i + 1] == ct[1]);
            assert(x[i + 2] == ct[2]);
            assert(x[j + 2 + n.len()] == ct[(3 + n.len()) as int]);
            lemma_read_identifier(x, j + 2, n);
        },
        CaptureModel::NumberedUnnamed(k) => {
            let d = decimal_text(k);
            lemma_holds_at_split(x, i, seq!['{'] + d, seq!['}']);
            lemma_holds_at_split(x, i, seq!['{'], d);
            assert(x[j + d.len()] == ct[(1 + d.len()) as int]);
            lemma_read_decimal_run(x, j, k);
        },
        CaptureModel::NumberedNamed(k, n) => {
            let d = decimal_text(k);
            lemma_holds_at_split(x, i, seq!['{'] + d + seq![':'] + n, seq!['}']);
            lemma_holds_at_split(x, i, seq!['{'] + d + seq![':'], n);
            lemma_holds_at_split(x, i, seq!['{'] + d, seq![':']);
            lemma_holds_at_split(x, i, seq!['{'], d);
            assert(x[j + d.len()] == ct[(1 + d.len()) as int]);
            assert(x[j + d.len() + 1 + n.len()] == ct[(2 + d.len() + n.len()) as int]);
            lemma_read_decimal_run(x, j, k);
            lemma_read_identifier(x, j + d.len() + 1, n);
        },
    }
}

/// The text of a token.
pub open spec fn token_text(t: TokenModel) -> Seq<char>
    decreases t,
{
    match t {
        TokenModel::Separator => seq!['/'],
        TokenModel::Match(m) => m,
        TokenModel::Capture(c) => capture_text(c),
        TokenModel::Optional(g) => seq!['('] + tokens_text(g) + seq![')'],
    }
}

/// The text of a sequence of tokens: their texts one after another.
pub open spec fn tokens_text(ts: Seq<TokenModel>) -> Seq<char>
    decreases ts,
{
    if ts.len() == 0 {
        seq![]
    } else {
        token_text(ts[0]) + tokens_text(ts.subrange(1, ts.len() as int))
    }
}

/// Whether a token may stand in a section: a literal match whose text is an
/// identifier, or a valid capture.
pub open spec fn matcher_is_valid(t: TokenModel) -> bool {
    match t {
        TokenModel::Match(m) => is_identifier(m),
        TokenModel::Capture(c) => capture_is_valid(c),
        _ => false,
    }
}

/// Whether `ts` are valid section tokens that alternate in kind, the first
/// a capture after a match (`after_match`) and a match otherwise.
pub open spec fn matchers_are_valid(ts: Seq<TokenModel>, after_match: bool) -> bool
    decreases ts.len(),
{
    ts.len() == 0 || (matcher_is_valid(ts[0]) && (ts[0] is Match) == !after_match
        && matchers_are_valid(ts.subrange(1, ts.len() as int), !after_match))
}

/// Whether `ts` is a section: one or more valid tokens of alternating kinds.
pub open spec fn section_is_valid(ts: Seq<TokenModel>) -> bool {
    ts.len() > 0 && matchers_are_valid(ts, !(ts[0] is Match))
}

/// Whether a section may end at position `r` of `x`: at the end, or before
/// `/`, `(` or `)`.
pub open spec fn ends_section(x: Seq<char>, r: int) -> bool {
    r == x.len() || (0 <= r < x.len() && (x[r] == '/' || x[r] == '(' || x[r] == ')'))
}

proof fn lemma_ident_end_chars(s: Seq<char>, i: int)
    requires
        0 <= i <= s.len(),
    ensures
        forall|t: int| i <= t < ident_end(s, i) ==> !is_forbidden(#[trigger] s[t]),
    decreases s.len() - i,
{
    if i < s.len() && !is_forbidden(s[i]) {
        lemma_ident_end_chars(s, i + 1);
    }
}

/// What the identifier rule reads is an identifier.
pub proof fn lemma_ident_valid(s: Seq<char>, i: int)
    requires
        0 <= i <= s.len(),
        ident_at(s, i) is Ok,
    ensures
        is_identifier(s.subrange(i, ident_at(s, i)->Ok_0)),
{
    lemma_ident_at_bounds(s, i);
    lemma_ident_end_chars(s, i);
    let m = s.subrange(i, ident_at(s, i)->Ok_0);
    assert forall|k: int| 0 <= k < m.len() implies !is_forbidden(#[trigger] m[k]) by {
        assert(m[k] == s[i + k]);
    }
}

/// What the capture rule reads is a valid capture.
pub proof fn lemma_capture_valid(s: Seq<char>, i: int)
    requires
        0 <= i <= s.len(),
        capture_at(s, i) is Ok,
    ensures
        capture_is_valid(capture_at(s, i)->Ok_0.1),
{
    let j = i + 1;
    lemma_capture_at_bounds(s, i);
    if j + 2 <= s.len() && ident_at(s, j + 2) is Ok {
        lemma_ident_valid(s, j + 2);
    }
    if ident_at(s, j) is Ok {
        lemma_ident_valid(s, j);
    }
    if j < s.len() && is_digit(s[j]) {
        lemma_digits_end_bounds(s, j);
        let d = digits_end(s, j);
        if d + 1 <= s.len() && ident_at(s, d + 1) is Ok {
            lemma_ident_valid(s, d + 1);
        }
    }
}

/// The tokens that follow the first one of a section are valid and
/// alternate.
pub proof fn lemma_matchers_after_valid(s: Seq<char>, i: int, after_match: bool)
    requires
        0 <= i <= s.len(),
    ensures
        matchers_are_valid(matchers_after(s, i, after_match).1, after_match),
    decreases s.len() - i,
{
    let ts = matchers_after(s, i, after_match).1;
    if after_match {
        if capture_at(s, i) is Ok {
            let e = capture_at(s, i)->Ok_0.0;
            lemma_capture_at_bounds(s, i);
            lemma_capture_valid(s, i);
            lemma_matchers_after_valid(s, e, false);
            assert(ts.subrange(1, ts.len() as int) =~= matchers_after(s, e, false).1);
        }
    } else {
        if ident_at(s, i) is Ok {
            let e = ident_at(s, i)->Ok_0;
            lemma_ident_at_bounds(s, i);
            lemma_ident_valid(s, i);
            lemma_matchers_after_valid(s, e, true);
            assert(ts.subrange(1, ts.len() as int) =~= matchers_after(s, e, true).1);
        }
    }
}

/// A section read by the grammar is valid.
pub proof fn lemma_section_valid(s: Seq<char>, i: int)
    requires
        0 <= i <= s.len(),
        section_at(s, i) is Ok,
    ensures
        section_is_valid(section_at(s, i)->Ok_0.1),
{
    let ts = section_at(s, i)->Ok_0.1;
    if ident_at(s, i) is Ok {
        let e = ident_at(s, i)->Ok_0;
        lemma_ident_at_bounds(s, i);
        lemma_ident_valid(s, i);
        lemma_matchers_after_valid(s, e, true);
        assert(ts.subrange(1, ts.len() as int) =~= matchers_after(s, e, true).1);
    } else {
        let e = capture_at(s, i)->Ok_0.0;
        lemma_capture_at_bounds(s, i);
        lemma_capture_valid(s, i);
        lemma_matchers_after_valid(s, e, false);
        assert(ts.subrange(1, ts.len() as int) =~= matchers_after(s, e, false).1);
    }
}

proof fn lemma_tokens_text_first(ts: Seq<TokenModel>)
    requires
        ts.len() > 0,
    ensures
        tokens_text(ts) == token_text(ts[0]) + tokens_text(ts.subrange(1, ts.len() as int)),
{
}

/// The text of valid section tokens starts with `{` for a capture and with
/// an identifier character for a match.
proof fn lemma_matchers_text_start(ts: Seq<TokenModel>, after_match: bool)
    requires
        matchers_are_valid(ts, after_match),
        ts.len() > 0,
    ensures
        tokens_text(ts).len() > 0,
        ts[0] is Capture ==> tokens_text(ts)[0] == '{',
        ts[0] is Match ==> !is_forbidden(tokens_text(ts)[0]) && !is_digit(tokens_text(ts)[0]),
{
    lemma_tokens_text_first(ts);
    let t = token_text(ts[0]);
    if let TokenModel::Capture(c) = ts[0] {
        assert(t[0] == '{');
    } else if let TokenModel::Match(m) = ts[0] {
        assert(t[0] == m[0]);
    }
}

/// Valid section tokens, written at `q` of `x` and followed by the end of a
/// section, are read back as they are.
pub proof fn lemma_read_matchers(x: Seq<char>, q: int, ts: Seq<TokenModel>, after_match: bool)
    requires
        matchers_are_valid(ts, after_match),
        holds_at(x, q, tokens_text(ts)),
        ends_section(x, q + tokens_text(ts).len()),
    ensures
        matchers_after(x, q, after_match) == (q + tokens_text(ts).len(), ts),
    decreases ts.len(),
{
    if ts.len() == 0 {
        assert(ts =~= Seq::<TokenModel>::empty());
    } else {
        let rest = ts.subrange(1, ts.len() as int);
        let t = token_text(ts[0]);
        lemma_tokens_text_first(ts);
        lemma_holds_at_split(x, q, t, tokens_text(rest));
        let r = q + t.len();
        if rest.len() > 0 {
            lemma_matchers_text_start(rest, !after_match);
            lemma_holds_at_index(x, r, tokens_text(rest));
            assert(x[r + 0] == tokens_text(rest)[0]);
        }
        lemma_read_matchers(x, r, rest, !after_match);
        match ts[0] {
            TokenModel::Capture(c) => {
                lemma_read_capture(x, q, c);
            },
            TokenModel::Match(m) => {
                lemma_read_identifier(x, q, m);
            },
            _ => {},
        }
        assert(seq![ts[0]] + rest =~= ts);
    }
}

/// A valid section, written at `p` of `x` and followed by the end of a
/// section, is read back as it is.
pub proof fn lemma_read_section(x: Seq<char>, p: int, ts: Seq<TokenModel>)
    requires
        section_is_valid(ts),
        holds_at(x, p, tokens_text(ts)),
        ends_section(x, p + tokens_text(ts).len()),
    ensures
        section_at(x, p) == Ok::<(int, Seq<TokenModel>), (ErrorKind, int)>(
            (p + tokens_text(ts).len(), ts),
        ),
{
    let rest = ts.subrange(1, ts.len() as int);
    let t = token_text(ts[0]);
    let first_is_match = ts[0] is Match;
    lemma_tokens_text_first(ts);
    lemma_holds_at_split(x, p, t, tokens_text(rest));
    lemma_matchers_text_start(ts, !first_is_match);
    lemma_holds_at_index(x, p, tokens_text(ts));
    assert(x[p + 0] == tokens_text(ts)[0]);
    let r = p + t.len();
    if rest.len() > 0 {
        lemma_matchers_text_start(rest, first_is_match);
        lemma_holds_at_index(x, r, tokens_text(rest));
        assert(x[r + 0] == tokens_text(rest)[0]);
    }
    lemma_read_matchers(x, r, rest, first_is_match);
    match ts[0] {
        TokenModel::Capture(c) => {
            lemma_read_capture(x, p, c);
        },
        TokenModel::Match(m) => {
            lemma_read_identifier(x, p, m);
        },
        _ => {},
    }
    assert(seq![ts[0]] + rest =~= ts);
}

pub proof fn lemma_tokens_text_concat(a: Seq<TokenModel>, b: Seq<TokenModel>)
    ensures
        tokens_text(a + b) == tokens_text(a) + tokens_text(b),
    decreases a.len(),
{
    if a.len() == 0 {
        assert(a + b =~= b);
        assert(tokens_text(a) + tokens_text(b) =~= tokens_text(b));
    } else {
        let a1 = a.subrange(1, a.len() as int);
        lemma_tokens_text_concat(a1, b);
        assert((a + b).subrange(1, (a + b).len() as int) =~= a1 + b);
        lemma_tokens_text_first(a + b);
        lemma_tokens_text_first(a);
        assert(token_text(a[0]) + (tokens_text(a1) + tokens_text(b)) =~= (token_text(a[0])
            + tokens_text(a1)) + tokens_text(b));
    }
}

pub proof fn lemma_tokens_text_single(t: TokenModel)
    ensures
        tokens_text(seq![t]) == token_text(t),
{
    lemma_tokens_text_first(seq![t]);
    assert(seq![t].subrange(1, 1) =~= Seq::<TokenModel>::empty());
    assert(token_text(t) + tokens_text(Seq::<TokenModel>::empty()) =~= token_text(t));
}

pub proof fn lemma_mandatory_at_bounds(s: Seq<char>, i: int)
    requires
        0 <= i <= s.len(),
    ensures
        i <= mandatory_at(s, i).0 <= s.len(),
        mandatory_at(s, i).1.len() > 0 ==> mandatory_at(s, i).1[0] == TokenModel::Separator,
    decreases s.len() - i,
{
    if 0 <= i < s.len() && s[i] == '/' && section_at(s, i + 1) is Ok {
        lemma_section_at_bounds(s, i + 1);
        lemma_mandatory_at_bounds(s, section_at(s, i + 1)->Ok_0.0);
    }
}

pub proof fn lemma_optionals_at_bounds(s: Seq<char>, i: int)
    requires
        0 <= i <= s.len(),
    ensures
        i <= optionals_at(s, i).0 <= s.len(),
        optionals_at(s, i).1.len() > 0 ==> optionals_at(s, i).1[0] is Optional,
    decreases s.len() - i,
{
    if 0 <= i < s.len() && optional_group_at(s, i) {
        lemma_section_at_bounds(s, i + 2);
        lemma_optionals_at_bounds(s, section_at(s, i + 2)->Ok_0.0 + 1);
    }
}

/// Whether the mandatory segments may end at position `r` of `x`: at the
/// end, before `(`, or before a `/` that ends `x`.
pub open spec fn ends_mandatory(x: Seq<char>, r: int) -> bool {
    r == x.len() || (0 <= r < x.len() && x[r] == '(') || (r + 1 == x.len() && 0 <= r && x[r]
        == '/')
}

/// Whether the optional groups may end at position `r` of `x`: at the end,
/// or before a `/` that ends `x`.
pub open spec fn ends_optionals(x: Seq<char>, r: int) -> bool {
    r == x.len() || (r + 1 == x.len() && 0 <= r && x[r] == '/')
}

/// The mandatory segments read from `s`, written at `p` of `x`, are read back
/// as they are.
pub proof fn lemma_read_mandatory(s: Seq<char>, i: int, x: Seq<char>, p: int)
    requires
        0 <= i <= s.len(),
        holds_at(x, p, tokens_text(mandatory_at(s, i).1)),
        ends_mandatory(x, p + tokens_text(mandatory_at(s, i).1).len()),
    ensures
        mandatory_at(x, p) == (p + tokens_text(mandatory_at(s, i).1).len(), mandatory_at(s, i).1),
    decreases s.len() - i,
{
    let ts = mandatory_at(s, i).1;
    if 0 <= i < s.len() && s[i] == '/' && section_at(s, i + 1) is Ok {
        let (e, sec) = section_at(s, i + 1)->Ok_0;
        lemma_section_at_bounds(s, i + 1);
        lemma_section_valid(s, i + 1);
        let rest = mandatory_at(s, e).1;
        lemma_mandatory_at_bounds(s, e);
        let sep = seq![TokenModel::Separator];
        lemma_tokens_text_concat(sep + sec, rest);
        lemma_tokens_text_concat(sep, sec);
        lemma_tokens_text_single(TokenModel::Separator);
        let st = tokens_text(sec);
        lemma_holds_at_split(x, p, seq!['/'] + st, tokens_text(rest));
        lemma_holds_at_split(x, p, seq!['/'], st);
        lemma_holds_at_index(x, p, seq!['/']);
        let r = p + 1 + st.len();
        if rest.len() > 0 {
            lemma_tokens_text_first(rest);
            lemma_holds_at_index(x, r, tokens_text(rest));
            assert(x[r + 0] == tokens_text(rest)[0]);
            assert(token_text(rest[0]) == seq!['/']);
            assert(x[r] == '/');
        }
        assert(ends_section(x, r));
        lemma_read_section(x, p + 1, sec);
        assert(x[p + 0] == seq!['/'][0]);
        assert(section_at(x, p + 1) == Ok::<(int, Seq<TokenModel>), (ErrorKind, int)>((r, sec)));
        lemma_read_mandatory(s, e, x, r);
        assert(mandatory_at(x, r) == (r + tokens_text(rest).len(), rest));
        assert(ts == sep + sec + rest);
    } else {
        assert(section_at(x, x.len() as int) is Err);
    }
}

/// The optional groups read from `s`, written at `p` of `x`, are read back
/// as they are.
pub proof fn lemma_read_optionals(s: Seq<char>, i: int, x: Seq<char>, p: int)
    requires
        0 <= i <= s.len(),
        holds_at(x, p, tokens_text(optionals_at(s, i).1)),
        ends_optionals(x, p + tokens_text(optionals_at(s, i).1).len()),
    ensures
        optionals_at(x, p) == (p + tokens_text(optionals_at(s, i).1).len(), optionals_at(s, i).1),
    decreases s.len() - i,
{
    if 0 <= i < s.len() && optional_group_at(s, i) {
        let (e, sec) = section_at(s, i + 2)->Ok_0;
        lemma_section_at_bounds(s, i + 2);
        lemma_section_valid(s, i + 2);
        let rest = optionals_at(s, e + 1).1;
        lemma_optionals_at_bounds(s, e + 1);
        let sep = seq![TokenModel::Separator];
        let group = TokenModel::Optional(sep + sec);
        lemma_tokens_text_concat(seq![group], rest);
        lemma_tokens_text_single(group);
        lemma_tokens_text_concat(sep, sec);
        lemma_tokens_text_single(TokenModel::Separator);
        let st = tokens_text(sec);
        assert(token_text(group) == seq!['('] + (seq!['/'] + st) + seq![')']);
        assert(seq!['('] + (seq!['/'] + st) + seq![')'] =~= seq!['(', '/'] + st + seq![')']);
        lemma_holds_at_split(x, p, seq!['(', '/'] + st + seq![')'], tokens_text(rest));
        lemma_holds_at_split(x, p, seq!['(', '/'] + st, seq![')']);
        lemma_holds_at_split(x, p, seq!['(', '/'], st);
        lemma_holds_at_index(x, p, seq!['(', '/']);
        lemma_holds_at_index(x, p + 2 + st.len(), seq![')']);
        assert(x[p + 0] == '(');
        assert(x[p + 1] == '/');
        assert(seq![')'][0] == ')');
        assert(x[p + 2 + st.len() + 0] == ')');
        lemma_read_section(x, p + 2, sec);
        lemma_read_optionals(s, e + 1, x, p + 3 + st.len());
        assert(optional_group_at(x, p));
    }
}

/// Reading is idempotent: the text of the tokens read from any pattern is
/// read back, whole, as the same tokens.
pub proof fn lemma_reparse_idempotent(s: Seq<char>)
    ensures
        path_at(tokens_text(path_at(s).1)) == (tokens_text(path_at(s).1).len() as int, path_at(s).1),
{
    let (m, a) = mandatory_at(s, 0);
    let (o, b) = optionals_at(s, m);
    lemma_mandatory_at_bounds(s, 0);
    lemma_optionals_at_bounds(s, m);
    let ta = tokens_text(a);
    let tb = tokens_text(b);
    lemma_tokens_text_concat(a, b);
    if b.len() > 0 {
        lemma_tokens_text_first(b);
    }
    if char_at(s, o, '/') && o + 1 == s.len() {
        let sep = seq![TokenModel::Separator];
        lemma_tokens_text_concat(a + b, sep);
        lemma_tokens_text_single(TokenModel::Separator);
        let x = ta + tb + seq!['/'];
        assert(x == tokens_text(path_at(s).1));
        assert(x.subrange(0, ta.len() as int) =~= ta);
        assert(x.subrange(ta.len() as int, (ta.len() + tb.len()) as int) =~= tb);
        lemma_read_mandatory(s, 0, x, 0);
        lemma_read_optionals(s, m, x, ta.len() as int);
    } else if o == 0 && char_at(s, 0, '/') {
        let x = seq!['/'];
        lemma_tokens_text_single(TokenModel::Separator);
        assert(section_at(x, 1) is Err);
        assert(mandatory_at(x, 0) == (0int, Seq::<TokenModel>::empty()));
        assert(optionals_at(x, 0) == (0int, Seq::<TokenModel>::empty()));
        assert(Seq::<TokenModel>::empty() + Seq::<TokenModel>::empty() + seq![TokenModel::Separator]
            =~= seq![TokenModel::Separator]);
    } else {
        let x = ta + tb;
        assert(x.subrange(0, ta.len() as int) =~= ta);
        assert(x.subrange(ta.len() as int, (ta.len() + tb.len()) as int) =~= tb);
        lemma_read_mandatory(s, 0, x, 0);
        lemma_read_optionals(s, m, x, ta.len() as int);
    }
}

/// The character of a decimal digit, as a string.
fn digit_str(d: usize) -> (r: &'static str)
    requires
        d < 10,
    ensures
        r@ == seq![digit_char(d as nat)],
{
    proof {
        reveal_strlit("0");
        reveal_strlit("1");
        reveal_strlit("2");
        reveal_strlit("3");
        reveal_strlit("4");
        reveal_strlit("5");
        reveal_strlit("6");
        reveal_strlit("7");
        reveal_strlit("8");
        reveal_strlit("9");
    }
    if d == 0 {
        "0"
    } else if d == 1 {
        "1"
    } else if d == 2 {
        "2"
    } else if d == 3 {
        "3"
    } else if d == 4 {
        "4"
    } else if d == 5 {
        "5"
    } else if d == 6 {
        "6"
    } else if d == 7 {
        "7"
    } else if d == 8 {
        "8"
    } else {
        "9"
    }
}

/// Appends `n` in decimal.
fn write_decimal(out: &mut String, n: usize)
    ensures
        final(out)@ == old(out)@ + decimal_text(n as nat),
    decreases n,
{
    if n < 10 {
        out.append(digit_str(n));
    } else {
        write_decimal(out, n / 10);
        out.append(digit_str(n % 10));
        assert(old(out)@ + decimal_text((n / 10) as nat) + seq![digit_char((n % 10) as nat)]
            =~= old(out)@ + decimal_text(n as nat));
    }
}

/// Appends the text of a capture.
fn write_capture(out: &mut String, c: &CaptureVariant)
    ensures
        final(out)@ == old(out)@ + capture_text(c@),
{
    proof {
        reveal_strlit("{");
        reveal_strlit("}");
        reveal_strlit("*");
        reveal_strlit(":");
        reveal_strlit("{*:");
        reveal_strlit("{*}");
        reveal_strlit("{}");
    }
    let ghost start = out@;
    match c {
        CaptureVariant::Unnamed => {
            out.append("{}");
        },
        CaptureVariant::ManyUnnamed => {
            out.append("{*}");
        },
        CaptureVariant::Named(n) => {
            out.append("{");
            out.append(n.as_str());
            out.append("}");
            assert(out@ =~= start + capture_text(c@));
        },
        CaptureVariant::ManyNamed(n) => {
            out.append("{*:");
            out.append(n.as_str());
            out.append("}");
            assert(out@ =~= start + capture_text(c@));
        },
        CaptureVariant::NumberedUnnamed { sections } => {
            out.append("{");
            write_decimal(out, *sections);
            out.append("}");
            assert(out@ =~= start + capture_text(c@));
        },
        CaptureVariant::NumberedNamed { sections, name } => {
            out.append("{");
            write_decimal(out, *sections);
            out.append(":");
            out.append(name.as_str());
            out.append("}");
            assert(out@ =~= start + capture_text(c@));
        },
    }
}

/// Appends the text of a token.
fn write_token(out: &mut String, t: &RouteParserToken)
    ensures
        final(out)@ == old(out)@ + token_text(t@),
    decreases t, 1nat,
{
    proof {
        reveal_strlit("/");
        reveal_strlit("(");
        reveal_strlit(")");
    }
    let ghost start = out@;
    match t {
        RouteParserToken::Separator => {
            out.append("/");
        },
        RouteParserToken::Match(m) => {
            out.append(m.as_str());
        },
        RouteParserToken::Capture(c) => {
            write_capture(out, c);
        },
        RouteParserToken::Optional(g) => {
            proof {
                lemma_optional_view(*g);
            }
            out.append("(");
            write_tokens(out, g);
            out.append(")");
            assert(out@ =~= start + token_text(t@));
        },
    }
}

/// Appends the text of a sequence of tokens.
fn write_tokens(out: &mut String, tokens: &Vec<RouteParserToken>)
    ensures
        final(out)@ == old(out)@ + tokens_text(tokens_view(tokens@)),
    decreases tokens, 0nat,
{
    let ghost start = out@;
    let mut k: usize = 0;
    assert(tokens_view(tokens@.subrange(0, 0)) =~= Seq::<TokenModel>::empty());
    assert(start + tokens_text(Seq::<TokenModel>::empty()) =~= start);
    while k < tokens.len()
        invariant
            k <= tokens.len(),
            out@ == start + tokens_text(tokens_view(tokens@.subrange(0, k as int))),
        decreases tokens.len() - k,
    {
        proof {
            broadcast use vstd::std_specs::vec::axiom_vec_index_decreases;
        }
        let ghost before = out@;
        write_token(out, &tokens[k]);
        proof {
            let done = tokens_view(tokens@.subrange(0, k as int));
            assert(tokens_view(tokens@.subrange(0, k + 1)) =~= done + seq![tokens@[k as int]@]);
            lemma_tokens_text_concat(done, seq![tokens@[k as int]@]);
            lemma_tokens_text_single(tokens@[k as int]@);
            assert(out@ =~= start + tokens_text(tokens_view(tokens@.subrange(0, k + 1))));
        }
        k = k + 1;
    }
    assert(tokens@.subrange(0, k as int) =~= tokens@);
}

/// Writes tokens back as pattern text: a separator as `/`, a match as its
/// text, a capture in its shape (a section count in decimal, without leading
/// zeros), an optional group as its tokens in parentheses.  Reading that text
/// again gives back the tokens (see [`lemma_reparse_idempotent`]).
pub fn to_pattern(tokens: &Vec<RouteParserToken>) -> (r: String)
    ensures
        r@ == tokens_text(tokens_view(tokens@)),
{
    let mut out = String::new();
    write_tokens(&mut out, tokens);
    assert(out@ =~= tokens_text(tokens_view(tokens@)));
    out
}

} // verus!
