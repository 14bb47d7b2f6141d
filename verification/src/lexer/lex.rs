//! The scanner: token types and the cursor that walks the source text.

use vstd::prelude::*;
use vstd::string::StrSliceExecFns;
use crate::lexer::scan::{
    is_ws, is_letter, is_digit, skip_ws_end, ident_end, number_end, digits_val, TokenTypeV,
    TokenV, keyword_kind, step_tok, step_pos, number_fits, lemma_skip_ws_end, lemma_ident_end,
    lemma_number_end, lemma_digits_val_prefix,
};

verus! {

/// Classification of a token. `IDENT` carries the matched text and `INT` the
/// parsed value of a digit run.
#[derive(Debug, PartialEq, Clone)]
pub enum TokenType {
    ILLEGAL,
    EOF,
    IDENT(String),
    INT(isize),
    LET,
    ASSIGN,
    PLUS,
    MINUS,
    BANG,
    ASTERISK,
    SLASH,
    COMMA,
    SEMICOLON,
    FUNCTION,
    IF,
    ELSE,
    LT,
    GT,
    LTEQ,
    GTEQ,
    TRUE,
    FALSE,
    RETURN,
    LPAREN,
    RPAREN,
    LBRACE,
    RBRACE,
    LBRACKET,
    RBRACKET,
    UNKNOWN,
}

impl View for TokenType {
    type V = TokenTypeV;

    open spec fn view(&self) -> TokenTypeV {
        match self {
            TokenType::ILLEGAL => TokenTypeV::ILLEGAL,
            TokenType::EOF => TokenTypeV::EOF,
            TokenType::IDENT(w) => TokenTypeV::IDENT(w@),
            TokenType::INT(n) => TokenTypeV::INT(*n as int),
            TokenType::LET => TokenTypeV::LET,
            TokenType::ASSIGN => TokenTypeV::ASSIGN,
            TokenType::PLUS => TokenTypeV::PLUS,
            TokenType::MINUS => TokenTypeV::MINUS,
            TokenType::BANG => TokenTypeV::BANG,
            TokenType::ASTERISK => TokenTypeV::ASTERISK,
            TokenType::SLASH => TokenTypeV::SLASH,
            TokenType::COMMA => TokenTypeV::COMMA,
            TokenType::SEMICOLON => TokenTypeV::SEMICOLON,
            TokenType::FUNCTION => TokenTypeV::FUNCTION,
            TokenType::IF => TokenTypeV::IF,
            TokenType::ELSE => TokenTypeV::ELSE,
            TokenType::LT => TokenTypeV::LT,
            TokenType::GT => TokenTypeV::GT,
            TokenType::LTEQ => TokenTypeV::LTEQ,
            TokenType::GTEQ => TokenTypeV::GTEQ,
            TokenType::TRUE => TokenTypeV::TRUE,
            TokenType::FALSE => TokenTypeV::FALSE,
            TokenType::RETURN => TokenTypeV::RETURN,
            TokenType::LPAREN => TokenTypeV::LPAREN,
            TokenType::RPAREN => TokenTypeV::RPAREN,
            TokenType::LBRACE => TokenTypeV::LBRACE,
            TokenType::RBRACE => TokenTypeV::RBRACE,
            TokenType::LBRACKET => TokenTypeV::LBRACKET,
            TokenType::RBRACKET => TokenTypeV::RBRACKET,
            TokenType::UNKNOWN => TokenTypeV::UNKNOWN,
        }
    }
}

/// One classified unit of source text: its kind and the exact substring
/// (lexeme) it was read from.
#[derive(Debug, PartialEq, Clone)]
pub struct Token {
    pub token_type: TokenType,
    pub literal: String,
}

impl View for Token {
    type V = TokenV;

    open spec fn view(&self) -> TokenV {
        TokenV { kind: self.token_type@, literal: self.literal@ }
    }
}

/// Decides whether the scanner skips this character.
fn is_ws_char(c: char) -> (r: bool)
    ensures
        r == is_ws(c),
{
    c == ' ' || c == '\t' || c == '\n' || c == '\r'
}

/// Decides whether this character can stand in an identifier.
fn is_letter_char(c: char) -> (r: bool)
    ensures
        r == is_letter(c),
{
    let n: u32 = c as u32;
    (97 <= n && n <= 122) || (65 <= n && n <= 90)
}

/// Decides whether this character is a decimal digit.
fn is_digit_char(c: char) -> (r: bool)
    ensures
        r == is_digit(c),
{
    let n: u32 = c as u32;
    48 <= n && n <= 57
}

/// Character-by-character string comparison.
fn str_eq(a: &str, b: &str) -> (r: bool)
    ensures
        r == (a@ == b@),
{
    let la: usize = a.unicode_len();
    let lb: usize = b.unicode_len();
    if la != lb {
        return false;
    }
    let mut i: usize = 0;
    while i < la
        invariant
            la as int == a@.len(),
            lb as int == b@.len(),
            la == lb,
            0 <= i <= la,
            forall|k: int| 0 <= k < i as int ==> a@[k] == b@[k],
        decreases la - i,
    {
        if a.get_char(i) != b.get_char(i) {
            return false;
        }
        i = i + 1;
    }
    proof {
        assert(a@ =~= b@);
    }
    true
}

/// Reads a non-empty digit string as a base-ten integer.
fn parse_digits(lit: &str) -> (n: isize)
    requires
        lit@.len() >= 1,
        forall|k: int| 0 <= k < lit@.len() ==> is_digit(lit@[k]),
        digits_val(lit@) <= isize::MAX as int,
    ensures
        n as int == digits_val(lit@),
        n >= 0,
{
    let len: usize = lit.unicode_len();
    let mut acc: isize = 0;
    let mut i: usize = 0;
    while i < len
        invariant
            len as int == lit@.len(),
            0 <= i <= len,
            forall|k: int| 0 <= k < lit@.len() ==> is_digit(lit@[k]),
            digits_val(lit@) <= isize::MAX as int,
            acc as int == digits_val(lit@.subrange(0, i as int)),
            acc >= 0,
        decreases len - i,
    {
        let c: char = lit.get_char(i);
        let d: u32 = c as u32;
        proof {
            assert(lit@.subrange(0, i as int + 1).drop_last() =~= lit@.subrange(0, i as int));
            assert(lit@.subrange(0, i as int + 1).last() == lit@[i as int]);
            lemma_digits_val_prefix(lit@, i as int + 1);
        }
        acc = acc * 10 + ((d - 48) as isize);
        i = i + 1;
    }
    proof {
        assert(lit@.subrange(0, len as int) =~= lit@);
    }
    acc
}

/// Relies on char::to_string: the result is the string of exactly that one
/// character.
#[verifier::external_body]
fn char_to_string(c: char) -> (s: String)
    ensures
        s@ == seq![c],
{
    c.to_string()
}

/// The scanner's cursor over an immutable source text: the character under
/// the cursor, its position, and the position of the next character to read.
#[derive(PartialEq, Debug)]
pub struct Lexer {
    pub input: &'static str,
    pub ch: char,
    pub ch_pos: usize,
    pub reading_position: usize,
}

impl Lexer {
    /// The cursor fields agree with the text: `ch` is the character at
    /// `ch_pos`, or the end-of-input sentinel once the cursor is past the
    /// end, and `reading_position` is one ahead (it stops growing only at
    /// the top of `usize`).
    pub open spec fn wf(self) -> bool {
        &&& self.input@.len() <= usize::MAX
        &&& self.reading_position as int == if self.ch_pos < usize::MAX {
            self.ch_pos + 1
        } else {
            usize::MAX as int
        }
        &&& self.ch == if (self.ch_pos as int) < self.input@.len() {
            self.input@[self.ch_pos as int]
        } else {
            '\0'
        }
    }

    pub fn new(inp: &'static str) -> (lex: Self)
        ensures
            lex.wf(),
            lex.input == inp,
            lex.ch_pos == 0,
            lex.reading_position == 1,
    {
        let n: usize = inp.unicode_len();
        let c: char = if n == 0 {
            '\0'
        } else {
            inp.get_char(0)
        };
        Lexer { input: inp, ch: c, ch_pos: 0, reading_position: 1 }
    }

    /// Produces the token at the cursor and leaves the cursor on the first
    /// character after it, exactly as `step_tok` and `step_pos` describe.
    pub fn next_token(&mut self) -> (t: Token)
        requires
            old(self).wf(),
            number_fits(old(self).input@, old(self).ch_pos as int),
        ensures
            final(self).wf(),
            final(self).input == old(self).input,
            t@ == step_tok(old(self).input@, old(self).ch_pos as int),
            final(self).ch_pos as int == if step_pos(old(self).input@, old(self).ch_pos as int)
                <= usize::MAX as int {
                step_pos(old(self).input@, old(self).ch_pos as int)
            } else {
                usize::MAX as int
            },
            (t@.kind is EOF) <==> skip_ws_end(old(self).input@, old(self).ch_pos as int)
                >= old(self).input@.len(),
    {
        let ghost s = old(self).input@;
        let ghost p0 = old(self).ch_pos as int;
        proof {
            lemma_skip_ws_end(s, p0);
        }
        self.skip_whitespace();
        let ghost j = self.ch_pos as int;
        let n: usize = self.input.unicode_len();
        if self.ch_pos >= n {
            let t = Self::new_token(TokenType::EOF, self.ch);
            self.read_char();
            proof {
                assert(t@ =~= step_tok(s, p0));
            }
            return t;
        }
        if is_letter_char(self.ch) {
            proof {
                lemma_ident_end(s, j);
            }
            let lit = self.read_ident();
            let token_type = match Self::determine_kw(lit.as_str()) {
                Some(k) => k,
                None => TokenType::IDENT(lit.clone()),
            };
            let t = Token { token_type, literal: lit };
            proof {
                assert(t@ =~= step_tok(s, p0));
            }
            return t;
        }
        if is_digit_char(self.ch) {
            proof {
                lemma_number_end(s, j);
            }
            let lit = self.read_number();
            let val: isize = parse_digits(lit.as_str());
            let t = Token { token_type: TokenType::INT(val), literal: lit };
            proof {
                assert(t@ =~= step_tok(s, p0));
            }
            return t;
        }
        let t = match self.ch {
            '=' => Self::new_token(TokenType::ASSIGN, self.ch),
            ';' => Self::new_token(TokenType::SEMICOLON, self.ch),
            '(' => Self::new_token(TokenType::LPAREN, self.ch),
            ')' => Self::new_token(TokenType::RPAREN, self.ch),
            ',' => Self::new_token(TokenType::COMMA, self.ch),
            '+' => Self::new_token(TokenType::PLUS, self.ch),
            '{' => Self::new_token(TokenType::LBRACE, self.ch),
            '}' => Self::new_token(TokenType::RBRACE, self.ch),
            '-' => Self::new_token(TokenType::MINUS, self.ch),
            '!' => Self::new_token(TokenType::BANG, self.ch),
            '*' => Self::new_token(TokenType::ASTERISK, self.ch),
            '/' => Self::new_token(TokenType::SLASH, self.ch),
            '<' => Self::new_token(TokenType::LT, self.ch),
            '>' => Self::new_token(TokenType::GT, self.ch),
            '[' => Self::new_token(TokenType::LBRACKET, self.ch),
            ']' => Self::new_token(TokenType::RBRACKET, self.ch),
            _ => {
                let cs = char_to_string(self.ch);
                Token { token_type: TokenType::IDENT(cs.clone()), literal: cs }
            },
        };
        self.read_char();
        proof {
            assert(t@ =~= step_tok(s, p0));
        }
        t
    }

    pub fn new_token(tok_type: TokenType, ch: char) -> (t: Token)
        ensures
            t.token_type == tok_type,
            t.literal@ == seq![ch],
    {
        Token { token_type: tok_type, literal: char_to_string(ch) }
    }

    /// Moves the cursor one character forward; past the end of the text the
    /// character becomes the sentinel and the indices keep growing.
    pub fn read_char(&mut self)
        requires
            old(self).wf(),
        ensures
            final(self).wf(),
            final(self).input == old(self).input,
            final(self).ch_pos == old(self).reading_position,
    {
        let n: usize = self.input.unicode_len();
        if self.reading_position >= n {
            self.ch = '\0';
        } else {
            self.ch = self.input.get_char(self.reading_position);
        }
        self.ch_pos = self.reading_position;
        if self.reading_position < usize::MAX {
            self.reading_position = self.reading_position + 1;
        }
    }

    /// Consumes the maximal run of letters under the cursor and returns it.
    pub fn read_ident(&mut self) -> (lit: String)
        requires
            old(self).wf(),
            is_letter(old(self).ch),
        ensures
            final(self).wf(),
            final(self).input == old(self).input,
            final(self).ch_pos as int == ident_end(old(self).input@, old(self).ch_pos as int),
            lit@ == old(self).input@.subrange(old(self).ch_pos as int, final(self).ch_pos as int),
            lit@.len() >= 1,
    {
        let ghost s = old(self).input@;
        let ghost inp0 = old(self).input;
        let pos: usize = self.ch_pos;
        proof {
            lemma_ident_end(s, pos as int);
        }
        #[verifier::loop_isolation(false)]
        while is_letter_char(self.ch)
            invariant
                self.wf(),
                self.input == inp0,
                pos <= self.ch_pos,
                self.ch_pos as int <= s.len(),
                ident_end(s, self.ch_pos as int) == ident_end(s, pos as int),
            decreases s.len() - self.ch_pos as int,
        {
            self.read_char();
        }
        proof {
            lemma_ident_end(s, pos as int);
        }
        let part: &str = self.input.substring_char(pos, self.ch_pos);
        part.to_owned()
    }

    /// Consumes the maximal run of digits under the cursor and returns it.
    pub fn read_number(&mut self) -> (lit: String)
        requires
            old(self).wf(),
            is_digit(old(self).ch),
        ensures
            final(self).wf(),
            final(self).input == old(self).input,
            final(self).ch_pos as int == number_end(old(self).input@, old(self).ch_pos as int),
            lit@ == old(self).input@.subrange(old(self).ch_pos as int, final(self).ch_pos as int),
            lit@.len() >= 1,
    {
        let ghost s = old(self).input@;
        let ghost inp0 = old(self).input;
        let pos: usize = self.ch_pos;
        proof {
            lemma_number_end(s, pos as int);
        }
        #[verifier::loop_isolation(false)]
        while is_digit_char(self.ch)
            invariant
                self.wf(),
                self.input == inp0,
                pos <= self.ch_pos,
                self.ch_pos as int <= s.len(),
                number_end(s, self.ch_pos as int) == number_end(s, pos as int),
            decreases s.len() - self.ch_pos as int,
        {
            self.read_char();
        }
        proof {
            lemma_number_end(s, pos as int);
        }
        let part: &str = self.input.substring_char(pos, self.ch_pos);
        part.to_owned()
    }

    /// The keyword table: looks a spelling up and returns its reserved kind.
    pub fn determine_kw(ident: &str) -> (r: Option<TokenType>)
        ensures
            ({
                match keyword_kind(ident@) {
                    Some(k) => r matches Some(t) && t@ == k,
                    None => r is None,
                }
            }),
    {
        if str_eq(ident, "let") {
            Some(TokenType::LET)
        } else if str_eq(ident, "fn") {
            Some(TokenType::FUNCTION)
        } else if str_eq(ident, "if") {
            Some(TokenType::IF)
        } else if str_eq(ident, "else") {
            Some(TokenType::ELSE)
        } else if str_eq(ident, "return") {
            Some(TokenType::RETURN)
        } else if str_eq(ident, "true") {
            Some(TokenType::TRUE)
        } else if str_eq(ident, "false") {
            Some(TokenType::FALSE)
        } else {
            None
        }
    }

    /// Moves the cursor to the first character that is not whitespace.
    pub fn skip_whitespace(&mut self)
        requires
            old(self).wf(),
        ensures
            final(self).wf(),
            final(self).input == old(self).input,
            final(self).ch_pos as int == skip_ws_end(old(self).input@, old(self).ch_pos as int),
    {
        let ghost s = old(self).input@;
        let ghost inp0 = old(self).input;
        let ghost pos = old(self).ch_pos as int;
        #[verifier::loop_isolation(false)]
        while is_ws_char(self.ch)
            invariant
                self.wf(),
                self.input == inp0,
                pos <= self.ch_pos as int,
                skip_ws_end(s, self.ch_pos as int) == skip_ws_end(s, pos),
            decreases s.len() - self.ch_pos as int,
        {
            self.read_char();
        }
    }
}

} // verus!
