//! Tokens of the expression language and the tokeniser that produces them.

use crate::lexing::{
    decimal_value, ident_at, lemma_decimal_step, lemma_next_token_moves, lex_all, lex_stop,
    next_token, number_at, run_len, LexError, LexState, NEWLINE,
};
use crate::robuffer::{ascii_bytes, ROBuffer};
use crate::text::{ascii_string, decimal_bytes, decimal_text};
use crate::utils::{is_alnum, is_digit, is_space};
use vstd::prelude::*;
use vstd::utf8::{decode_utf8, is_ascii_chars, valid_utf8};
use vstd::wrapping::i64_specs::signed_crop;

verus! {

/// What a token is. Numbers, identifiers and invalid bytes carry their payload.
#[derive(Debug, PartialEq, Clone)]
pub enum TokenKind {
    Invalid(u8),
    Num(i64),
    Ident(Vec<u8>),
    Add,  // '+'
    Sub,  // '-'
    Mul,  // '*'
    Div,  // '/'
    LPar,  // '('
    RPar,  // ')'
    Mod,  // '%'
    And,  // '&'
    Xor,  // '^'
    Or,  // '|'
    Assign,  // '='
    End,
}

/// The mathematical model of a [`TokenKind`]: an identifier is the sequence of its bytes.
pub enum Kind {
    Invalid(u8),
    Num(i64),
    Ident(Seq<u8>),
    Add,
    Sub,
    Mul,
    Div,
    LPar,
    RPar,
    Mod,
    And,
    Xor,
    Or,
    Assign,
    End,
}

impl Kind {
    /// Numbers and identifiers.
    pub open spec fn is_operand(self) -> bool {
        self is Num || self is Ident
    }

    /// The two parentheses.
    pub open spec fn is_paren(self) -> bool {
        self is LPar || self is RPar
    }

    /// The nine binary operators, assignment included.
    pub open spec fn is_operator(self) -> bool {
        self is Add || self is Sub || self is Mul || self is Div || self is Mod || self is And
            || self is Xor || self is Or || self is Assign
    }

    /// The kinds that expressions are made of: operands, operators and parentheses.
    pub open spec fn in_grammar(self) -> bool {
        self.is_operand() || self.is_operator() || self.is_paren()
    }

    /// How tightly a kind binds; higher binds tighter. Operands have 0, assignment the
    /// lowest, -1. Parentheses, invalid bytes and the end marker have no precedence:
    /// for them the value is 0 and means nothing.
    pub open spec fn precedence(self) -> int {
        match self {
            Kind::Assign => -1,
            Kind::Or => 1,
            Kind::Xor => 2,
            Kind::And => 3,
            Kind::Sub | Kind::Add => 5,
            Kind::Div | Kind::Mul | Kind::Mod => 6,
            _ => 0,
        }
    }

    /// The text of an operand: the decimal spelling of a number, the name of an
    /// identifier; empty for every other kind.
    pub open spec fn text(self) -> Seq<char> {
        match self {
            Kind::Num(n) => decimal_text(n as int),
            Kind::Ident(name) => decode_utf8(name),
            _ => seq![],
        }
    }

    /// The one-character spelling of an operator; empty for every other kind.
    pub open spec fn symbol(self) -> Seq<char> {
        match self {
            Kind::Add => seq!['+'],
            Kind::Sub => seq!['-'],
            Kind::Mul => seq!['*'],
            Kind::Div => seq!['/'],
            Kind::Mod => seq!['%'],
            Kind::And => seq!['&'],
            Kind::Xor => seq!['^'],
            Kind::Or => seq!['|'],
            Kind::Assign => seq!['='],
            _ => seq![],
        }
    }
}

impl View for TokenKind {
    type V = Kind;

    open spec fn view(&self) -> Kind {
        match *self {
            TokenKind::Invalid(b) => Kind::Invalid(b),
            TokenKind::Num(n) => Kind::Num(n),
            TokenKind::Ident(name) => Kind::Ident(name@),
            TokenKind::Add => Kind::Add,
            TokenKind::Sub => Kind::Sub,
            TokenKind::Mul => Kind::Mul,
            TokenKind::Div => Kind::Div,
            TokenKind::LPar => Kind::LPar,
            TokenKind::RPar => Kind::RPar,
            TokenKind::Mod => Kind::Mod,
            TokenKind::And => Kind::And,
            TokenKind::Xor => Kind::Xor,
            TokenKind::Or => Kind::Or,
            TokenKind::Assign => Kind::Assign,
            TokenKind::End => Kind::End,
        }
    }
}

/// A token: its kind and the 1-based line and column at which it starts.
#[derive(Debug, PartialEq)]
pub struct Token {
    kind: TokenKind,
    line: u32,
    column: u32,
}

/// The mathematical model of a [`Token`].
pub struct TokenView {
    pub kind: Kind,
    pub line: u32,
    pub column: u32,
}

impl View for Token {
    type V = TokenView;

    closed spec fn view(&self) -> TokenView {
        TokenView { kind: self.kind@, line: self.line, column: self.column }
    }
}

/// The models of a sequence of tokens, in order.
pub open spec fn views(tokens: Seq<Token>) -> Seq<TokenView> {
    tokens.map_values(|t: Token| t@)
}

/// Every token of `s` is an operand, an operator or a parenthesis.
pub open spec fn all_in_grammar(s: Seq<TokenView>) -> bool {
    forall|i: int| 0 <= i < s.len() ==> (#[trigger] s[i]).kind.in_grammar()
}

/// The model of an outcome that holds tokens: the models of the tokens, or the
/// error as it is.
pub open spec fn outcome<E>(r: Result<Vec<Token>, E>) -> Result<Seq<TokenView>, E> {
    match r {
        Ok(tokens) => Ok(views(tokens@)),
        Err(e) => Err(e),
    }
}

impl Token {
    pub fn new(kind: TokenKind, col: u32, ln: u32) -> (t: Self)
        ensures
            t@ == (TokenView { kind: kind@, line: ln, column: col }),
    {
        Self { kind, line: ln, column: col }
    }

    pub fn col(&self) -> (c: u32)
        ensures
            c == self@.column,
    {
        self.column
    }

    pub fn line(&self) -> (l: u32)
        ensures
            l == self@.line,
    {
        self.line
    }

    pub fn is_operand(&self) -> (r: bool)
        ensures
            r == self@.kind.is_operand(),
    {
        match self.kind {
            TokenKind::Num(_) | TokenKind::Ident(_) => true,
            _ => false,
        }
    }

    pub fn is_paren(&self) -> (r: bool)
        ensures
            r == self@.kind.is_paren(),
    {
        match self.kind {
            TokenKind::LPar | TokenKind::RPar => true,
            _ => false,
        }
    }

    pub fn is_operator(&self) -> (r: bool)
        ensures
            r == self@.kind.is_operator(),
    {
        match self.kind {
            TokenKind::Add
            | TokenKind::Sub
            | TokenKind::Mul
            | TokenKind::Div
            | TokenKind::And
            | TokenKind::Mod
            | TokenKind::Xor
            | TokenKind::Or
            | TokenKind::Assign => true,
            _ => false,
        }
    }

    /// The text of an operand.
    pub fn value(&self) -> (s: String)
        requires
            self@.kind.is_operand(),
            self@.kind matches Kind::Ident(name) ==> valid_utf8(name),
        ensures
            s@ == self@.kind.text(),
    {
        match &self.kind {
            TokenKind::Num(n) => ascii_string(decimal_bytes(*n)),
            TokenKind::Ident(name) => match String::from_utf8(name.clone()) {
                Ok(s) => s,
                Err(_) => unreached(),
            },
            _ => unreached(),
        }
    }

    /// The spelling of an operator.
    pub fn to_string<'a>(&self) -> (s: &'a str)
        requires
            self@.kind.is_operator(),
        ensures
            s@ == self@.kind.symbol(),
    {
        proof {
            reveal_strlit("+");
            reveal_strlit("-");
            reveal_strlit("*");
            reveal_strlit("/");
            reveal_strlit("%");
            reveal_strlit("&");
            reveal_strlit("^");
            reveal_strlit("|");
            reveal_strlit("=");
        }
        let s = match &self.kind {
            TokenKind::Add => "+",
            TokenKind::Sub => "-",
            TokenKind::Mul => "*",
            TokenKind::Div => "/",
            TokenKind::Mod => "%",
            TokenKind::And => "&",
            TokenKind::Xor => "^",
            TokenKind::Or => "|",
            TokenKind::Assign => "=",
            _ => unreached(),
        };
        assert(s@ =~= self@.kind.symbol());
        s
    }

    pub fn precedence(&self) -> (p: i8)
        requires
            self@.kind.is_operand() || self@.kind.is_operator(),
        ensures
            p == self@.kind.precedence(),
    {
        match &self.kind {
            TokenKind::Assign => -1,
            TokenKind::Num(_) | TokenKind::Ident(_) => 0,
            TokenKind::Or => 1,
            TokenKind::Xor => 2,
            TokenKind::And => 3,
            TokenKind::Sub => 5,
            TokenKind::Add => 5,
            TokenKind::Div => 6,
            TokenKind::Mul => 6,
            TokenKind::Mod => 6,
            _ => unreached(),
        }
    }

    pub fn kind(&self) -> (k: &TokenKind)
        ensures
            k@ == self@.kind,
    {
        &self.kind
    }
}

/// Turns an input string into tokens, one at a time, and keeps track of the line
/// and column.
pub struct Tokeniser {
    buf: ROBuffer,
    line: u32,
    column: u32,
}

impl View for Tokeniser {
    type V = LexState;

    closed spec fn view(&self) -> LexState {
        LexState {
            bytes: self.buf@.contents,
            offset: self.buf@.offset,
            line: self.line as nat,
            column: self.column as nat,
        }
    }
}

impl Tokeniser {
    #[verifier::type_invariant]
    spec fn inv(self) -> bool {
        self@.wf()
    }

    /// A tokeniser at the start of `buf`'s unread bytes, on line 1, column 1.
    pub fn from_buffer(buf: ROBuffer) -> (t: Self)
        requires
            buf@.wf(),
            buf@.contents.len() < u32::MAX,
        ensures
            t@ == (LexState { bytes: buf@.contents, offset: buf@.offset, line: 1, column: 1 }),
    {
        Self { buf, line: 1, column: 1 }
    }

    /// A tokeniser at the start of `expr`.
    pub fn new(expr: String) -> (t: Self)
        requires
            is_ascii_chars(expr@),
            expr@.len() < u32::MAX,
        ensures
            t@ == LexState::start(ascii_bytes(expr@)),
    {
        let buf = ROBuffer::new(expr).unwrap();
        Self::from_buffer(buf)
    }

    /// The number that starts at the next byte: the longest run of digits.
    fn get_num(&mut self) -> (t: Token)
        ensures
            t@ == number_at(old(self)@).0,
            final(self)@ == number_at(old(self)@).1,
    {
        let mut n: i64 = 0;
        let saved_col = self.column;
        let saved_row = self.line;
        let ghost start = self@;
        let ghost mut len: nat = 0;
        proof {
            use_type_invariant(&*self);
            assert(start.bytes.subrange(start.offset as int, start.offset as int) =~= Seq::<
                u8,
            >::empty());
        }
        loop
            invariant
                self@.wf(),
                self@ == start.advance(len),
                run_len(start.bytes, start.offset, true) == len + run_len(
                    start.bytes,
                    self@.offset,
                    true,
                ),
                n == signed_crop(
                    decimal_value(
                        start.bytes.subrange(start.offset as int, (start.offset + len) as int),
                    ) as int,
                ),
            ensures
                self@.wf(),
                self@ == start.advance(len),
                run_len(start.bytes, start.offset, true) == len,
                n == signed_crop(
                    decimal_value(
                        start.bytes.subrange(start.offset as int, (start.offset + len) as int),
                    ) as int,
                ),
            decreases start.bytes.len() - self@.offset,
        {
            let ch = self.buf.next();
            if ch.is_none() {
                break ;
            }
            let c = ch.unwrap();
            if !is_digit(c) {
                self.buf.rewind();
                break ;
            }
            proof {
                let digits = start.bytes.subrange(
                    start.offset as int,
                    (start.offset + len) as int,
                );
                lemma_decimal_step(digits, c, n);
                assert(digits.push(c) =~= start.bytes.subrange(
                    start.offset as int,
                    (start.offset + len + 1) as int,
                ));
                len = len + 1;
            }
            let digit = c - 0x30;
            n = n.wrapping_mul(10).wrapping_add(digit as i64);
            self.column += 1;
        }
        Token::new(TokenKind::Num(n), saved_col, saved_row)
    }

    /// The identifier that starts at the next byte: the longest run of letters
    /// and digits.
    fn get_ident(&mut self) -> (t: Token)
        ensures
            t@ == ident_at(old(self)@).0,
            final(self)@ == ident_at(old(self)@).1,
    {
        let mut bvec: Vec<u8> = Vec::new();
        let saved_col = self.column;
        let saved_row = self.line;
        let ghost start = self@;
        proof {
            use_type_invariant(&*self);
        }
        loop
            invariant
                self@.wf(),
                self@ == start.advance(bvec@.len()),
                run_len(start.bytes, start.offset, false) == bvec@.len() + run_len(
                    start.bytes,
                    self@.offset,
                    false,
                ),
                bvec@ == start.bytes.subrange(
                    start.offset as int,
                    (start.offset + bvec@.len()) as int,
                ),
            ensures
                self@.wf(),
                self@ == start.advance(bvec@.len()),
                run_len(start.bytes, start.offset, false) == bvec@.len(),
                bvec@ == start.bytes.subrange(
                    start.offset as int,
                    (start.offset + bvec@.len()) as int,
                ),
            decreases start.bytes.len() - self@.offset,
        {
            let ch = self.buf.next();
            if ch.is_none() {
                break ;
            }
            let c = ch.unwrap();
            if !is_alnum(c) {
                self.buf.rewind();
                break ;
            }
            bvec.push(c);
            self.column += 1;
        }
        Token::new(TokenKind::Ident(bvec), saved_col, saved_row)
    }

    /// The next token; at the end of the input, the end marker.
    pub fn tokenise(&mut self) -> (t: Token)
        ensures
            t@ == next_token(old(self)@).0,
            final(self)@ == next_token(old(self)@).1,
    {
        proof {
            use_type_invariant(&*self);
        }
        loop
            invariant
                self@.wf(),
                self@.skip_blanks() == old(self)@.skip_blanks(),
            ensures
                self@.wf(),
                self@ == old(self)@.skip_blanks(),
                self@.offset >= self@.bytes.len(),
            decreases self@.bytes.len() - self@.offset,
        {
            let ch = self.buf.next();
            if ch.is_none() {
                break ;
            }
            let c = ch.unwrap();
            if (c >= 0x61 && c <= 0x7a) || (c >= 0x41 && c <= 0x5a) {
                self.buf.rewind();
                return self.get_ident();
            }
            if is_digit(c) {
                self.buf.rewind();
                return self.get_num();
            }
            if is_space(c) {
                self.column += 1;
                continue ;
            }
            if c == NEWLINE {
                self.column = 1;
                self.line += 1;
                continue ;
            }
            let kind = match c {
                0x3d => TokenKind::Assign,
                0x2b => TokenKind::Add,
                0x2d => TokenKind::Sub,
                0x2a => TokenKind::Mul,
                0x2f => TokenKind::Div,
                0x28 => TokenKind::LPar,
                0x29 => TokenKind::RPar,
                0x25 => TokenKind::Mod,
                0x7c => TokenKind::Or,
                0x5e => TokenKind::Xor,
                0x26 => TokenKind::And,
                _ => TokenKind::Invalid(c),
            };
            let ret = Token::new(kind, self.column, self.line);
            self.column += 1;
            return ret;
        }
        Token::new(TokenKind::End, self.column, self.line)
    }

    /// All tokens up to the end of the input, the end marker left out; or the
    /// first invalid byte, at which collecting stops.
    pub fn collect(&mut self) -> (r: Result<Vec<Token>, LexError>)
        ensures
            outcome(r) == lex_all(old(self)@),
            final(self)@ == lex_stop(old(self)@),
    {
        let mut exprs: Vec<Token> = Vec::new();
        loop
            invariant
                lex_stop(self@) == lex_stop(old(self)@),
                match lex_all(self@) {
                    Ok(rest) => lex_all(old(self)@) == Ok::<Seq<TokenView>, LexError>(
                        views(exprs@) + rest,
                    ),
                    Err(e) => lex_all(old(self)@) == Err::<Seq<TokenView>, LexError>(e),
                },
            ensures
                self@ == lex_stop(old(self)@),
                lex_all(old(self)@) == Ok::<Seq<TokenView>, LexError>(views(exprs@)),
            decreases self@.bytes.len() - self@.offset,
        {
            let ghost before = self@;
            let ghost seen = views(exprs@);
            let t = self.tokenise();
            proof {
                lemma_next_token_moves(before);
            }
            match t.kind() {
                TokenKind::Invalid(x) => {
                    return Err(LexError { byte: *x, line: t.line(), column: t.col() });
                },
                TokenKind::End => {
                    assert(seen + Seq::<TokenView>::empty() =~= seen);
                    break ;
                },
                _ => {
                    exprs.push(t);
                    proof {
                        assert(views(exprs@) =~= seen.push(t@));
                        if let Ok(rest) = lex_all(self@) {
                            assert(seen + (seq![t@] + rest) =~= seen.push(t@) + rest);
                        }
                    }
                },
            }
        }
        Ok(exprs)
    }
}

} // verus!
