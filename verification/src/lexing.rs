//! What tokenising means: the model of a tokeniser's state and, as functions of
//! that state, the next token and the whole token sequence.

use crate::text::{all_ascii, lemma_ascii_is_utf8};
use crate::tokeniser::{all_in_grammar, Kind, TokenView};
use crate::utils::{alnum_byte, digit_byte, letter_byte, space_byte};
use vstd::arithmetic::div_mod::{lemma_fundamental_div_mod, lemma_mod_multiples_vanish};
use vstd::prelude::*;
use vstd::utf8::valid_utf8;
use vstd::wrapping::i64_specs::signed_crop;

verus! {

/// The line feed, which ends a line.
pub const NEWLINE: u8 = 0x0a;

/// An unrecognised byte and where it stands.
#[derive(Debug, PartialEq, Eq, Clone, Copy)]
pub struct LexError {
    pub byte: u8,
    pub line: u32,
    pub column: u32,
}

/// The model of a tokeniser: the input, how much of it has been read, and the
/// 1-based line and column of the next byte.
pub struct LexState {
    pub bytes: Seq<u8>,
    pub offset: nat,
    pub line: nat,
    pub column: nat,
}

impl LexState {
    /// The state before anything of `bytes` has been read.
    pub open spec fn start(bytes: Seq<u8>) -> LexState {
        LexState { bytes, offset: 0, line: 1, column: 1 }
    }

    /// The offset lies within the input, lines and columns count from 1 and have
    /// grown by no more than the bytes read, and the input is short enough for
    /// both to fit in 32 bits.
    pub open spec fn wf(self) -> bool {
        &&& self.offset <= self.bytes.len()
        &&& self.bytes.len() < u32::MAX
        &&& 1 <= self.line
        &&& 1 <= self.column
        &&& self.line + self.column <= self.offset + 2
    }

    /// The state after `n` more bytes of the current line have been read.
    pub open spec fn advance(self, n: nat) -> LexState {
        LexState { offset: self.offset + n, column: self.column + n, ..self }
    }

    /// The state after a line feed has been read.
    pub open spec fn next_line(self) -> LexState {
        LexState { offset: self.offset + 1, line: self.line + 1, column: 1, ..self }
    }

    /// A token of the given kind that starts where this state stands.
    pub open spec fn token(self, kind: Kind) -> TokenView {
        TokenView { kind, line: self.line as u32, column: self.column as u32 }
    }

    /// The state after the blanks and line feeds that come next have been read.
    pub open spec fn skip_blanks(self) -> LexState
        decreases self.bytes.len() - self.offset,
    {
        if self.offset >= self.bytes.len() {
            self
        } else if space_byte(self.bytes[self.offset as int]) {
            self.advance(1).skip_blanks()
        } else if self.bytes[self.offset as int] == NEWLINE {
            self.next_line().skip_blanks()
        } else {
            self
        }
    }
}

/// Whether `b` continues a number (`digits_only`) or an identifier.
pub open spec fn word_byte(b: u8, digits_only: bool) -> bool {
    if digits_only {
        digit_byte(b)
    } else {
        alnum_byte(b)
    }
}

/// The length of the longest run of word bytes that starts at `from`.
pub open spec fn run_len(bytes: Seq<u8>, from: nat, digits_only: bool) -> nat
    decreases bytes.len() - from,
{
    if from < bytes.len() && word_byte(bytes[from as int], digits_only) {
        1 + run_len(bytes, from + 1, digits_only)
    } else {
        0
    }
}

/// The number that a sequence of decimal digits spells.
pub open spec fn decimal_value(digits: Seq<u8>) -> nat
    decreases digits.len(),
{
    if digits.len() == 0 {
        0
    } else {
        (decimal_value(digits.drop_last()) * 10 + (digits.last() - 0x30)) as nat
    }
}

/// The kind of the token that a byte makes on its own: an operator, a
/// parenthesis, or an invalid byte.
pub open spec fn symbol_kind(b: u8) -> Kind {
    if b == 0x3d {
        Kind::Assign
    } else if b == 0x2b {
        Kind::Add
    } else if b == 0x2d {
        Kind::Sub
    } else if b == 0x2a {
        Kind::Mul
    } else if b == 0x2f {
        Kind::Div
    } else if b == 0x28 {
        Kind::LPar
    } else if b == 0x29 {
        Kind::RPar
    } else if b == 0x25 {
        Kind::Mod
    } else if b == 0x7c {
        Kind::Or
    } else if b == 0x5e {
        Kind::Xor
    } else if b == 0x26 {
        Kind::And
    } else {
        Kind::Invalid(b)
    }
}

/// The identifier that starts where `st` stands, and the state after it: the
/// longest run of letters and digits.
pub open spec fn ident_at(st: LexState) -> (TokenView, LexState) {
    let n = run_len(st.bytes, st.offset, false);
    let name = st.bytes.subrange(st.offset as int, (st.offset + n) as int);
    (st.token(Kind::Ident(name)), st.advance(n))
}

/// The number that starts where `st` stands, and the state after it: the longest
/// run of digits, read as a decimal number. A number too large for 64 bits wraps
/// round.
pub open spec fn number_at(st: LexState) -> (TokenView, LexState) {
    let n = run_len(st.bytes, st.offset, true);
    let digits = st.bytes.subrange(st.offset as int, (st.offset + n) as int);
    (st.token(Kind::Num(signed_crop(decimal_value(digits) as int))), st.advance(n))
}

/// The next token and the state after it. Blanks and line feeds before the token
/// are passed over. At the end of the input the token is the end marker, and the
/// state stays at the end.
pub open spec fn next_token(st: LexState) -> (TokenView, LexState) {
    let s = st.skip_blanks();
    if s.offset >= s.bytes.len() {
        (s.token(Kind::End), s)
    } else {
        let b = s.bytes[s.offset as int];
        if letter_byte(b) {
            ident_at(s)
        } else if digit_byte(b) {
            number_at(s)
        } else {
            (s.token(symbol_kind(b)), s.advance(1))
        }
    }
}

/// All tokens from `st` to the end of the input, the end marker left out, or the
/// first invalid byte.
pub open spec fn lex_all(st: LexState) -> Result<Seq<TokenView>, LexError>
    decreases st.bytes.len() - st.offset,
    via lex_all_decreases
{
    let (t, next) = next_token(st);
    match t.kind {
        Kind::End => Ok(Seq::empty()),
        Kind::Invalid(b) => Err(LexError { byte: b, line: t.line, column: t.column }),
        _ => match lex_all(next) {
            Ok(rest) => Ok(seq![t] + rest),
            Err(e) => Err(e),
        },
    }
}

#[via_fn]
proof fn lex_all_decreases(st: LexState) {
    lemma_next_token_moves(st);
}

/// The state in which collecting the tokens from `st` stops: after the end
/// marker or after the first invalid byte.
pub open spec fn lex_stop(st: LexState) -> LexState
    decreases st.bytes.len() - st.offset,
    via lex_stop_decreases
{
    let (t, next) = next_token(st);
    match t.kind {
        Kind::End => next,
        Kind::Invalid(_) => next,
        _ => lex_stop(next),
    }
}

#[via_fn]
proof fn lex_stop_decreases(st: LexState) {
    lemma_next_token_moves(st);
}

/// Passing over blanks keeps the input, moves forward, and stops at the end or at
/// a byte that is neither a blank nor a line feed.
pub proof fn lemma_skip_blanks(st: LexState)
    ensures
        st.skip_blanks().bytes == st.bytes,
        st.skip_blanks().offset >= st.offset,
        st.offset <= st.bytes.len() ==> st.skip_blanks().offset <= st.bytes.len(),
        st.wf() ==> st.skip_blanks().wf(),
        st.skip_blanks().offset < st.bytes.len() ==> !space_byte(
            st.bytes[st.skip_blanks().offset as int],
        ) && st.bytes[st.skip_blanks().offset as int] != NEWLINE,
    decreases st.bytes.len() - st.offset,
{
    if st.offset >= st.bytes.len() {
    } else if space_byte(st.bytes[st.offset as int]) {
        lemma_skip_blanks(st.advance(1));
    } else if st.bytes[st.offset as int] == NEWLINE {
        lemma_skip_blanks(st.next_line());
    }
}

/// A run ends within the input; every byte of it is a word byte, and the byte
/// after it, if there is one, is not.
pub proof fn lemma_run_len(bytes: Seq<u8>, from: nat, digits_only: bool)
    ensures
        from <= bytes.len() ==> from + run_len(bytes, from, digits_only) <= bytes.len(),
        forall|i: int|
            from <= i < from + run_len(bytes, from, digits_only) ==> word_byte(
                #[trigger] bytes[i],
                digits_only,
            ),
        from + run_len(bytes, from, digits_only) < bytes.len() ==> !word_byte(
            bytes[(from + run_len(bytes, from, digits_only)) as int],
            digits_only,
        ),
    decreases bytes.len() - from,
{
    if from < bytes.len() && word_byte(bytes[from as int], digits_only) {
        lemma_run_len(bytes, from + 1, digits_only);
    }
}

/// Every token but the end marker takes at least one byte, and none reads past
/// the end of the input.
pub proof fn lemma_next_token_moves(st: LexState)
    ensures
        next_token(st).1.bytes == st.bytes,
        next_token(st).1.offset >= st.offset,
        !(next_token(st).0.kind is End) ==> next_token(st).1.offset > st.offset,
        st.offset <= st.bytes.len() ==> next_token(st).1.offset <= st.bytes.len(),
        st.wf() ==> next_token(st).1.wf(),
{
    lemma_skip_blanks(st);
    let s = st.skip_blanks();
    if s.offset < s.bytes.len() {
        lemma_run_len(s.bytes, s.offset, true);
        lemma_run_len(s.bytes, s.offset, false);
    }
}

/// The next token is an operand, an operator or a parenthesis, unless it is the
/// end marker or an invalid byte.
pub proof fn lemma_next_token_kind(st: LexState)
    ensures
        next_token(st).0.kind.in_grammar() || next_token(st).0.kind is End || next_token(
            st,
        ).0.kind is Invalid,
{
}

/// Collecting gives operands, operators and parentheses only.
pub proof fn lemma_lexed_in_grammar(st: LexState)
    ensures
        lex_all(st) matches Ok(tokens) ==> all_in_grammar(tokens),
    decreases st.bytes.len() - st.offset,
{
    let (t, next) = next_token(st);
    lemma_next_token_kind(st);
    if !(t.kind is End) && !(t.kind is Invalid) {
        lemma_next_token_moves(st);
        lemma_lexed_in_grammar(next);
    }
}

/// If `t` is an identifier, it is named by letters and digits only, so that its
/// name is text.
pub open spec fn name_is_text(t: TokenView) -> bool {
    t.kind matches Kind::Ident(name) ==> {
        &&& forall|j: int| 0 <= j < name.len() ==> alnum_byte(#[trigger] name[j])
        &&& valid_utf8(name)
    }
}

/// The name of every identifier among `tokens` is text.
pub open spec fn names_are_text(tokens: Seq<TokenView>) -> bool {
    forall|i: int| 0 <= i < tokens.len() ==> name_is_text(#[trigger] tokens[i])
}

/// The tokeniser gives identifiers whose names are text.
pub proof fn lemma_next_token_name(st: LexState)
    ensures
        name_is_text(next_token(st).0),
{
    lemma_skip_blanks(st);
    let s = st.skip_blanks();
    if s.offset < s.bytes.len() && letter_byte(s.bytes[s.offset as int]) {
        lemma_run_len(s.bytes, s.offset, false);
        let name = ident_at(s).0.kind->Ident_0;
        assert forall|j: int| 0 <= j < name.len() implies alnum_byte(#[trigger] name[j]) by {
            assert(name[j] == s.bytes[s.offset + j]);
        }
        assert(all_ascii(name));
        lemma_ascii_is_utf8(name);
    }
}

/// Collecting gives identifiers whose names are text.
pub proof fn lemma_lexed_names_are_text(st: LexState)
    ensures
        lex_all(st) matches Ok(tokens) ==> names_are_text(tokens),
    decreases st.bytes.len() - st.offset,
{
    let (t, next) = next_token(st);
    if !(t.kind is End) && !(t.kind is Invalid) {
        lemma_next_token_moves(st);
        lemma_lexed_names_are_text(next);
        lemma_next_token_name(st);
        if let Ok(rest) = lex_all(next) {
            let tokens = seq![t] + rest;
            assert forall|i: int| 0 <= i < tokens.len() implies name_is_text(
                #[trigger] tokens[i],
            ) by {
                if i > 0 {
                    assert(tokens[i] == rest[i - 1]);
                }
            }
        }
    }
}

/// The number of values that 64 bits hold.
pub open spec fn two_to_64() -> int {
    0x1_0000_0000_0000_0000
}

/// A number and its wrapped value differ by a multiple of 2^64, which is returned.
proof fn lemma_crop_differs_by_multiple(a: int) -> (k: int)
    ensures
        signed_crop(a) == a + k * two_to_64(),
{
    lemma_fundamental_div_mod(a, two_to_64());
    if a % two_to_64() > i64::MAX {
        -(a / two_to_64()) - 1
    } else {
        -(a / two_to_64())
    }
}

/// The wrapped value of `a` is the only 64-bit value that differs from `a` by a
/// multiple of 2^64.
proof fn lemma_crop_unique(a: int, y: int, k: int)
    requires
        i64::MIN <= y <= i64::MAX,
        y == a + k * two_to_64(),
    ensures
        signed_crop(a) == y,
{
    let r = two_to_64();
    assert(a % r == y % r) by {
        lemma_mod_multiples_vanish(-k, y, r);
        assert(r * (-k) + y == a);
    }
    if y < 0 {
        assert(y % r == y + r) by {
            lemma_mod_multiples_vanish(1, y, r);
            assert((y + r) % r == y + r);
        }
    } else {
        assert(y % r == y);
    }
}

/// One step of reading a decimal number: ten times what was read, plus the next
/// digit, is the wrapped value of the digits read so far.
pub proof fn lemma_decimal_step(digits: Seq<u8>, d: u8, n: i64)
    requires
        0x30 <= d <= 0x39,
        n == signed_crop(decimal_value(digits) as int),
    ensures
        n.wrapping_mul(10).wrapping_add((d - 0x30) as i64) == signed_crop(
            decimal_value(digits.push(d)) as int,
        ),
{
    let v = decimal_value(digits) as int;
    let digit = (d - 0x30) as int;
    assert(decimal_value(digits.push(d)) == v * 10 + digit) by {
        assert(digits.push(d).drop_last() =~= digits);
    }
    let k1 = lemma_crop_differs_by_multiple(v);
    let tenfold = n.wrapping_mul(10);
    let k2 = lemma_crop_differs_by_multiple(n * 10);
    assert(tenfold == n * 10 + k2 * two_to_64());
    let sum = tenfold.wrapping_add(digit as i64);
    let k3: int = if tenfold + digit > i64::MAX {
        -1
    } else {
        0
    };
    assert(sum == tenfold + digit + k3 * two_to_64());
    assert(sum == (v * 10 + digit) + (10 * k1 + k2 + k3) * two_to_64());
    lemma_crop_unique(v * 10 + digit, sum as int, 10 * k1 + k2 + k3);
}

} // verus!
