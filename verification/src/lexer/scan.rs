//! Mathematical model of the scan: character classes, maximal runs, and the
//! token that one `next_token` call produces from a given position.

use vstd::prelude::*;

verus! {

/// ASCII whitespace that the scanner skips: space, tab, newline, carriage return.
pub open spec fn is_ws(c: char) -> bool {
    c == ' ' || c == '\t' || c == '\n' || c == '\r'
}

/// ASCII letters, the identifier alphabet.
pub open spec fn is_letter(c: char) -> bool {
    (97 <= c as int && c as int <= 122) || (65 <= c as int && c as int <= 90)
}

/// ASCII decimal digits.
pub open spec fn is_digit(c: char) -> bool {
    48 <= c as int && c as int <= 57
}

/// Index of the first character at or after `p` that is not whitespace
/// (`s.len()` if whitespace runs to the end; `p` itself if `p` is past the end).
pub open spec fn skip_ws_end(s: Seq<char>, p: int) -> int
    decreases s.len() - p,
    when 0 <= p
{
    if p < s.len() && is_ws(s[p]) {
        skip_ws_end(s, p + 1)
    } else {
        p
    }
}

/// Index just past the maximal run of letters starting at `p`.
pub open spec fn ident_end(s: Seq<char>, p: int) -> int
    decreases s.len() - p,
    when 0 <= p
{
    if p < s.len() && is_letter(s[p]) {
        ident_end(s, p + 1)
    } else {
        p
    }
}

/// Index just past the maximal run of digits starting at `p`.
pub open spec fn number_end(s: Seq<char>, p: int) -> int
    decreases s.len() - p,
    when 0 <= p
{
    if p < s.len() && is_digit(s[p]) {
        number_end(s, p + 1)
    } else {
        p
    }
}

/// Value of a digit string read in base ten.
pub open spec fn digits_val(s: Seq<char>) -> int
    decreases s.len(),
{
    if s.len() == 0 {
        0
    } else {
        digits_val(s.drop_last()) * 10 + (s.last() as int - 48)
    }
}

/// Spec-level counterpart of `TokenType`: identifier text as a sequence of
/// characters and the integer value as a mathematical integer.
pub enum TokenTypeV {
    ILLEGAL,
    EOF,
    IDENT(Seq<char>),
    INT(int),
    LET,
    ASSIGN,
    PLUS,
    MINUS,
    BANG,
    ASTERISK,
    SLASH,
    COMMA,
    SEMICOLON,
    FUNCTION,
    IF,
    ELSE,
    LT,
    GT,
    LTEQ,
    GTEQ,
    TRUE,
    FALSE,
    RETURN,
    LPAREN,
    RPAREN,
    LBRACE,
    RBRACE,
    LBRACKET,
    RBRACKET,
    UNKNOWN,
}

/// Spec-level counterpart of `Token`.
pub struct TokenV {
    pub kind: TokenTypeV,
    pub literal: Seq<char>,
}

/// Kind of a single-character punctuation or operator token, `None` for any
/// other character.
pub open spec fn punct_kind(c: char) -> Option<TokenTypeV> {
    if c == '=' {
        Some(TokenTypeV::ASSIGN)
    } else if c == ';' {
        Some(TokenTypeV::SEMICOLON)
    } else if c == '(' {
        Some(TokenTypeV::LPAREN)
    } else if c == ')' {
        Some(TokenTypeV::RPAREN)
    } else if c == ',' {
        Some(TokenTypeV::COMMA)
    } else if c == '+' {
        Some(TokenTypeV::PLUS)
    } else if c == '{' {
        Some(TokenTypeV::LBRACE)
    } else if c == '}' {
        Some(TokenTypeV::RBRACE)
    } else if c == '-' {
        Some(TokenTypeV::MINUS)
    } else if c == '!' {
        Some(TokenTypeV::BANG)
    } else if c == '*' {
        Some(TokenTypeV::ASTERISK)
    } else if c == '/' {
        Some(TokenTypeV::SLASH)
    } else if c == '<' {
        Some(TokenTypeV::LT)
    } else if c == '>' {
        Some(TokenTypeV::GT)
    } else if c == '[' {
        Some(TokenTypeV::LBRACKET)
    } else if c == ']' {
        Some(TokenTypeV::RBRACKET)
    } else {
        None
    }
}

/// The keyword table: the kind reserved for a spelling, `None` where the
/// spelling is not reserved.
pub open spec fn keyword_kind(w: Seq<char>) -> Option<TokenTypeV> {
    if w == "let"@ {
        Some(TokenTypeV::LET)
    } else if w == "fn"@ {
        Some(TokenTypeV::FUNCTION)
    } else if w == "if"@ {
        Some(TokenTypeV::IF)
    } else if w == "else"@ {
        Some(TokenTypeV::ELSE)
    } else if w == "return"@ {
        Some(TokenTypeV::RETURN)
    } else if w == "true"@ {
        Some(TokenTypeV::TRUE)
    } else if w == "false"@ {
        Some(TokenTypeV::FALSE)
    } else {
        None
    }
}

/// Classification of a letter run: a keyword kind where the spelling is
/// reserved, otherwise an identifier carrying the text.
pub open spec fn word_kind(w: Seq<char>) -> TokenTypeV {
    match keyword_kind(w) {
        Some(k) => k,
        None => TokenTypeV::IDENT(w),
    }
}

/// The token that one `next_token` call produces when the cursor stands at
/// `p`: whitespace is skipped, then the character there decides.
pub open spec fn step_tok(s: Seq<char>, p: int) -> TokenV {
    let j = skip_ws_end(s, p);
    if j >= s.len() {
        TokenV { kind: TokenTypeV::EOF, literal: seq!['\0'] }
    } else if is_letter(s[j]) {
        let w = s.subrange(j, ident_end(s, j));
        TokenV { kind: word_kind(w), literal: w }
    } else if is_digit(s[j]) {
        let w = s.subrange(j, number_end(s, j));
        TokenV { kind: TokenTypeV::INT(digits_val(w)), literal: w }
    } else {
        match punct_kind(s[j]) {
            Some(k) => TokenV { kind: k, literal: seq![s[j]] },
            None => TokenV { kind: TokenTypeV::IDENT(seq![s[j]]), literal: seq![s[j]] },
        }
    }
}

/// The cursor position after that call: just past the lexeme for letter and
/// digit runs, one past the decisive character otherwise.
pub open spec fn step_pos(s: Seq<char>, p: int) -> int {
    let j = skip_ws_end(s, p);
    if j >= s.len() {
        j + 1
    } else if is_letter(s[j]) {
        ident_end(s, j)
    } else if is_digit(s[j]) {
        number_end(s, j)
    } else {
        j + 1
    }
}

/// The one input restriction the scanner needs: where a digit run starts at
/// the cursor (after whitespace), its value must be representable.
pub open spec fn number_fits(s: Seq<char>, p: int) -> bool {
    let j = skip_ws_end(s, p);
    j < s.len() && is_digit(s[j]) ==> digits_val(
        s.subrange(j, number_end(s, j)),
    ) <= isize::MAX as int
}

pub proof fn lemma_skip_ws_end(s: Seq<char>, p: int)
    requires
        0 <= p,
    ensures
        p <= skip_ws_end(s, p),
        p <= s.len() ==> skip_ws_end(s, p) <= s.len(),
        p > s.len() ==> skip_ws_end(s, p) == p,
        forall|k: int| p <= k < skip_ws_end(s, p) ==> is_ws(s[k]),
        skip_ws_end(s, p) < s.len() ==> !is_ws(s[skip_ws_end(s, p)]),
    decreases s.len() - p,
{
    if p < s.len() && is_ws(s[p]) {
        lemma_skip_ws_end(s, p + 1);
    }
}

pub proof fn lemma_ident_end(s: Seq<char>, p: int)
    requires
        0 <= p,
    ensures
        p <= ident_end(s, p),
        p <= s.len() ==> ident_end(s, p) <= s.len(),
        p < s.len() && is_letter(s[p]) ==> p < ident_end(s, p),
        forall|k: int| p <= k < ident_end(s, p) ==> is_letter(s[k]),
        ident_end(s, p) < s.len() ==> !is_letter(s[ident_end(s, p)]),
    decreases s.len() - p,
{
    if p < s.len() && is_letter(s[p]) {
        lemma_ident_end(s, p + 1);
    }
}

pub proof fn lemma_number_end(s: Seq<char>, p: int)
    requires
        0 <= p,
    ensures
        p <= number_end(s, p),
        p <= s.len() ==> number_end(s, p) <= s.len(),
        p < s.len() && is_digit(s[p]) ==> p < number_end(s, p),
        forall|k: int| p <= k < number_end(s, p) ==> is_digit(s[k]),
        number_end(s, p) < s.len() ==> !is_digit(s[number_end(s, p)]),
    decreases s.len() - p,
{
    if p < s.len() && is_digit(s[p]) {
        lemma_number_end(s, p + 1);
    }
}

/// Each call that does not produce end-of-file consumes at least one
/// character and never runs past the end.
pub proof fn lemma_step_pos(s: Seq<char>, p: int)
    requires
        0 <= p,
        skip_ws_end(s, p) < s.len(),
    ensures
        p < step_pos(s, p),
        step_pos(s, p) <= s.len(),
        skip_ws_end(s, p) < step_pos(s, p),
{
    let j = skip_ws_end(s, p);
    lemma_skip_ws_end(s, p);
    if is_letter(s[j]) {
        lemma_ident_end(s, j);
    } else if is_digit(s[j]) {
        lemma_number_end(s, j);
    }
}

/// The tokens produced from position `p` up to (and excluding) the
/// end-of-file token.
pub open spec fn tokens_from(s: Seq<char>, p: int) -> Seq<TokenV>
    decreases s.len() - p,
    when 0 <= p
    via tokens_from_decreases
{
    if skip_ws_end(s, p) >= s.len() {
        Seq::empty()
    } else {
        seq![step_tok(s, p)] + tokens_from(s, step_pos(s, p))
    }
}

#[via_fn]
proof fn tokens_from_decreases(s: Seq<char>, p: int) {
    if skip_ws_end(s, p) < s.len() {
        lemma_step_pos(s, p);
    }
}

/// The lexeme span of each of those tokens: start (after skipped whitespace)
/// and end, as indices into the source.
pub open spec fn spans_from(s: Seq<char>, p: int) -> Seq<(int, int)>
    decreases s.len() - p,
    when 0 <= p
    via spans_from_decreases
{
    if skip_ws_end(s, p) >= s.len() {
        Seq::empty()
    } else {
        seq![(skip_ws_end(s, p), step_pos(s, p))] + spans_from(s, step_pos(s, p))
    }
}

#[via_fn]
proof fn spans_from_decreases(s: Seq<char>, p: int) {
    if skip_ws_end(s, p) < s.len() {
        lemma_step_pos(s, p);
    }
}

/// The source text reassembled from the scan: the whitespace skipped before
/// each token, then the token's literal, and after the last token the
/// trailing whitespace.
pub open spec fn rebuilt_from(s: Seq<char>, p: int) -> Seq<char>
    decreases s.len() - p,
    when 0 <= p
    via rebuilt_from_decreases
{
    if skip_ws_end(s, p) >= s.len() {
        if p <= s.len() {
            s.subrange(p, s.len() as int)
        } else {
            Seq::empty()
        }
    } else {
        s.subrange(p, skip_ws_end(s, p)) + step_tok(s, p).literal + rebuilt_from(s, step_pos(s, p))
    }
}

#[via_fn]
proof fn rebuilt_from_decreases(s: Seq<char>, p: int) {
    if skip_ws_end(s, p) < s.len() {
        lemma_step_pos(s, p);
    }
}

/// The lexeme of every token but end-of-file is exactly the source text
/// between its span's start and the position the step leaves the cursor at.
proof fn lemma_step_literal(s: Seq<char>, p: int)
    requires
        0 <= p,
        skip_ws_end(s, p) < s.len(),
    ensures
        step_tok(s, p).literal =~= s.subrange(skip_ws_end(s, p), step_pos(s, p)),
{
    let j = skip_ws_end(s, p);
    lemma_skip_ws_end(s, p);
    if is_letter(s[j]) {
        lemma_ident_end(s, j);
    } else if is_digit(s[j]) {
        lemma_number_end(s, j);
    } else {
        assert(seq![s[j]] =~= s.subrange(j, j + 1));
    }
}

/// Law: a scan produces at most one token per input character before the
/// end-of-file token, so reading a whole text of length `n` terminates
/// within `n + 1` calls.
pub proof fn lemma_scan_terminates(s: Seq<char>)
    ensures
        tokens_from(s, 0).len() <= s.len(),
{
    lemma_tokens_from_len(s, 0);
}

proof fn lemma_tokens_from_len(s: Seq<char>, p: int)
    requires
        0 <= p <= s.len(),
    ensures
        tokens_from(s, p).len() <= s.len() - p,
    decreases s.len() - p,
{
    if skip_ws_end(s, p) < s.len() {
        lemma_skip_ws_end(s, p);
        lemma_step_pos(s, p);
        lemma_tokens_from_len(s, step_pos(s, p));
    }
}

/// Law: the token spans partition the input up to whitespace. Every span is
/// non-empty and in bounds, the spans come in source order without overlap,
/// a character outside whitespace lies in exactly one span, a whitespace
/// character in none, and each token's literal is exactly the text of its
/// span.
pub proof fn lemma_scan_coverage(s: Seq<char>, p: int)
    requires
        0 <= p <= s.len(),
    ensures
        ({
            let sp = spans_from(s, p);
            let toks = tokens_from(s, p);
            &&& sp.len() == toks.len()
            &&& forall|i: int| 0 <= i < sp.len() ==> p <= (#[trigger] sp[i]).0 < sp[i].1 <= s.len()
            &&& forall|i1: int, i2: int|
                0 <= i1 < i2 < sp.len() ==> (#[trigger] sp[i1]).1 <= (#[trigger] sp[i2]).0
            &&& forall|k: int|
                p <= k < s.len() && !is_ws(s[k]) ==> exists|i: int|
                    0 <= i < sp.len() && (#[trigger] sp[i]).0 <= k < sp[i].1
            &&& forall|i: int, k: int|
                0 <= i < sp.len() && (#[trigger] sp[i]).0 <= k < sp[i].1 ==> !is_ws(
                    #[trigger] s[k],
                )
            &&& forall|i: int|
                0 <= i < sp.len() ==> (#[trigger] toks[i]).literal == s.subrange(sp[i].0, sp[i].1)
        }),
    decreases s.len() - p,
{
    let sp = spans_from(s, p);
    let toks = tokens_from(s, p);
    let j = skip_ws_end(s, p);
    lemma_skip_ws_end(s, p);
    if j < s.len() {
        let q = step_pos(s, p);
        lemma_step_pos(s, p);
        lemma_step_literal(s, p);
        lemma_scan_coverage(s, q);
        let spt = spans_from(s, q);
        if is_letter(s[j]) {
            lemma_ident_end(s, j);
        } else if is_digit(s[j]) {
            lemma_number_end(s, j);
        }
        assert(forall|k: int| j <= k < q ==> !is_ws(#[trigger] s[k]));
        assert(forall|i: int| 0 <= i < spt.len() ==> sp[i + 1] == (#[trigger] spt[i]));
        assert(forall|i: int|
            0 <= i < spt.len() ==> tokens_from(s, q)[i] == (#[trigger] toks[i + 1]));
        assert forall|k: int| p <= k < s.len() && !is_ws(s[k]) implies exists|i: int|
            0 <= i < sp.len() && (#[trigger] sp[i]).0 <= k < sp[i].1 by {
            if k < j {
                assert(is_ws(s[k]));
            } else if k < q {
                assert(sp[0].0 <= k < sp[0].1);
            } else {
                let i0 = choose|i: int| 0 <= i < spt.len() && (#[trigger] spt[i]).0 <= k < spt[i].1;
                assert(sp[i0 + 1].0 <= k < sp[i0 + 1].1);
            }
        }
    }
}

/// Law: reassembling the skipped whitespace and the token literals, in scan
/// order, gives back the source text exactly.
pub proof fn lemma_round_trip(s: Seq<char>)
    ensures
        rebuilt_from(s, 0) == s,
{
    lemma_rebuilt_from(s, 0);
    assert(s.subrange(0, s.len() as int) =~= s);
}

proof fn lemma_rebuilt_from(s: Seq<char>, p: int)
    requires
        0 <= p <= s.len(),
    ensures
        rebuilt_from(s, p) == s.subrange(p, s.len() as int),
    decreases s.len() - p,
{
    let j = skip_ws_end(s, p);
    lemma_skip_ws_end(s, p);
    if j < s.len() {
        let q = step_pos(s, p);
        lemma_step_pos(s, p);
        lemma_step_literal(s, p);
        lemma_rebuilt_from(s, q);
        assert(s.subrange(p, j) + s.subrange(j, q) + s.subrange(q, s.len() as int) =~= s.subrange(
            p,
            s.len() as int,
        ));
    }
}

/// Law: a letter run whose spelling equals a keyword spelling always yields
/// the keyword kind, never an identifier.
pub proof fn lemma_keyword_precedence(w: Seq<char>)
    ensures
        w == "let"@ ==> word_kind(w) == TokenTypeV::LET,
        w == "fn"@ ==> word_kind(w) == TokenTypeV::FUNCTION,
        w == "if"@ ==> word_kind(w) == TokenTypeV::IF,
        w == "else"@ ==> word_kind(w) == TokenTypeV::ELSE,
        w == "return"@ ==> word_kind(w) == TokenTypeV::RETURN,
        w == "true"@ ==> word_kind(w) == TokenTypeV::TRUE,
        w == "false"@ ==> word_kind(w) == TokenTypeV::FALSE,
        keyword_kind(w) is Some ==> !(word_kind(w) is IDENT),
{
    reveal_strlit("let");
    reveal_strlit("fn");
    reveal_strlit("if");
    reveal_strlit("else");
    reveal_strlit("return");
    reveal_strlit("true");
    reveal_strlit("false");
    assert("let"@.len() == 3);
    assert("fn"@.len() == 2);
    assert("if"@.len() == 2);
    assert("else"@.len() == 4);
    assert("return"@.len() == 6);
    assert("true"@.len() == 4);
    assert("false"@.len() == 5);
    assert("fn"@[0] != "if"@[0]);
    assert("else"@[0] != "true"@[0]);
}

/// Law, at the scan step: where the maximal letter run at the cursor spells
/// a keyword, the produced token carries the keyword kind and is no
/// identifier.
pub proof fn lemma_keyword_precedence_step(s: Seq<char>, p: int)
    requires
        0 <= p,
        skip_ws_end(s, p) < s.len(),
        is_letter(s[skip_ws_end(s, p)]),
    ensures
        ({
            let w = s.subrange(skip_ws_end(s, p), ident_end(s, skip_ws_end(s, p)));
            &&& step_tok(s, p).kind == word_kind(w)
            &&& keyword_kind(w) matches Some(k) ==> step_tok(s, p).kind == k && !(step_tok(
                s,
                p,
            ).kind is IDENT)
        }),
{
}

/// Law: once the whole input is consumed, every further step produces an
/// end-of-file token and leaves the scan consumed, so end-of-file repeats
/// forever.
pub proof fn lemma_eof_idempotent(s: Seq<char>, p: int)
    requires
        0 <= p,
        skip_ws_end(s, p) >= s.len(),
    ensures
        step_tok(s, p).kind is EOF,
        step_tok(s, p).literal == seq!['\0'],
        step_pos(s, p) == skip_ws_end(s, p) + 1,
        skip_ws_end(s, step_pos(s, p)) >= s.len(),
{
    lemma_skip_ws_end(s, p);
}

/// A digit string's value is never negative.
pub proof fn lemma_digits_val_nonneg(s: Seq<char>)
    requires
        forall|k: int| 0 <= k < s.len() ==> is_digit(s[k]),
    ensures
        digits_val(s) >= 0,
    decreases s.len(),
{
    if s.len() > 0 {
        lemma_digits_val_nonneg(s.drop_last());
    }
}

/// Reading one more digit can only grow the value.
pub proof fn lemma_digits_val_prefix(s: Seq<char>, n: int)
    requires
        forall|k: int| 0 <= k < s.len() ==> is_digit(s[k]),
        0 <= n <= s.len(),
    ensures
        digits_val(s.subrange(0, n)) <= digits_val(s),
    decreases s.len() - n,
{
    if n < s.len() {
        let a = s.subrange(0, n);
        let b = s.subrange(0, n + 1);
        assert(b.drop_last() =~= a);
        lemma_digits_val_nonneg(a);
        assert(digits_val(a) * 10 == digits_val(a) + digits_val(a) * 9) by (nonlinear_arith);
        assert(digits_val(a) * 9 >= 0) by (nonlinear_arith)
            requires digits_val(a) >= 0;
        lemma_digits_val_prefix(s, n + 1);
    } else {
        assert(s.subrange(0, n) =~= s);
    }
}

} // verus!
