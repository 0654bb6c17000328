use infix_rpn::lexing::LexError;
use infix_rpn::robuffer::ROBuffer;
use infix_rpn::text::{ascii_string, decimal_bytes};
use infix_rpn::tokeniser::{Token, TokenKind, Tokeniser};
use infix_rpn::utils::{is_alnum, is_digit, is_space};

fn lex(text: &str) -> Result<Vec<Token>, LexError> {
    Tokeniser::new(text.to_string()).collect()
}

fn tok(kind: TokenKind, line: u32, column: u32) -> Token {
    Token::new(kind, column, line)
}

#[test]
fn digits_are_the_ten_ascii_digits() {
    for c in 0u8..=255 {
        assert_eq!(is_digit(c), (b'0'..=b'9').contains(&c), "byte {}", c);
    }
}

#[test]
fn alnum_is_letters_and_digits() {
    for c in 0u8..=255 {
        assert_eq!(is_alnum(c), c.is_ascii_alphanumeric(), "byte {}", c);
    }
    assert!(!is_alnum(b'_'));
}

#[test]
fn space_is_blank_tab_and_carriage_return() {
    for c in 0u8..=255 {
        assert_eq!(is_space(c), c == b' ' || c == b'\t' || c == b'\r', "byte {}", c);
    }
    assert!(!is_space(b'\n'));
}

#[test]
fn buffer_hands_out_bytes_in_order_then_nothing() {
    let mut buf = ROBuffer::new("a+".to_string()).unwrap();
    assert_eq!(buf.next(), Some(b'a'));
    assert_eq!(buf.next(), Some(b'+'));
    assert_eq!(buf.next(), None);
    assert_eq!(buf.next(), None);
}

#[test]
fn buffer_rewind_steps_back_one_byte() {
    let mut buf = ROBuffer::new("xy".to_string()).unwrap();
    assert_eq!(buf.next(), Some(b'x'));
    buf.rewind();
    assert_eq!(buf.next(), Some(b'x'));
    assert_eq!(buf.next(), Some(b'y'));
    buf.rewind();
    buf.rewind();
    assert_eq!(buf.next(), Some(b'x'));
}

#[test]
fn buffer_end_does_not_move_the_offset() {
    let mut buf = ROBuffer::new("z".to_string()).unwrap();
    assert_eq!(buf.next(), Some(b'z'));
    assert_eq!(buf.next(), None);
    buf.rewind();
    assert_eq!(buf.next(), Some(b'z'));
}

#[test]
fn buffer_of_empty_string_is_at_its_end() {
    let mut buf = ROBuffer::new(String::new()).unwrap();
    assert_eq!(buf.next(), None);
}

#[test]
fn buffer_refuses_characters_beyond_ascii() {
    assert!(ROBuffer::new("1 + é".to_string()).is_err());
    assert!(ROBuffer::new("\u{80}".to_string()).is_err());
    assert!(ROBuffer::new("日本".to_string()).is_err());
}

#[test]
fn buffer_accepts_the_whole_ascii_range() {
    let mut buf = ROBuffer::new("\u{0}\u{7f}".to_string()).unwrap();
    assert_eq!(buf.next(), Some(0));
    assert_eq!(buf.next(), Some(0x7f));
    assert_eq!(buf.next(), None);
}

#[test]
fn token_keeps_what_it_was_made_of() {
    let t = Token::new(TokenKind::Num(42), 7, 3);
    assert_eq!(t.col(), 7);
    assert_eq!(t.line(), 3);
    assert_eq!(*t.kind(), TokenKind::Num(42));
}

#[test]
fn operands_are_numbers_and_identifiers() {
    assert!(tok(TokenKind::Num(0), 1, 1).is_operand());
    assert!(tok(TokenKind::Ident(b"x".to_vec()), 1, 1).is_operand());
    for kind in [
        TokenKind::Add,
        TokenKind::Assign,
        TokenKind::LPar,
        TokenKind::RPar,
        TokenKind::End,
        TokenKind::Invalid(b'@'),
    ] {
        assert!(!tok(kind, 1, 1).is_operand());
    }
}

#[test]
fn parens_are_the_two_parentheses() {
    assert!(tok(TokenKind::LPar, 1, 1).is_paren());
    assert!(tok(TokenKind::RPar, 1, 1).is_paren());
    for kind in [TokenKind::Num(1), TokenKind::Add, TokenKind::End, TokenKind::Invalid(b'(')] {
        assert!(!tok(kind, 1, 1).is_paren());
    }
}

#[test]
fn operators_are_the_nine_binary_operators() {
    for kind in [
        TokenKind::Add,
        TokenKind::Sub,
        TokenKind::Mul,
        TokenKind::Div,
        TokenKind::Mod,
        TokenKind::And,
        TokenKind::Xor,
        TokenKind::Or,
        TokenKind::Assign,
    ] {
        assert!(tok(kind, 1, 1).is_operator());
    }
    for kind in [
        TokenKind::Num(1),
        TokenKind::Ident(b"a".to_vec()),
        TokenKind::LPar,
        TokenKind::RPar,
        TokenKind::End,
        TokenKind::Invalid(b'+'),
    ] {
        assert!(!tok(kind, 1, 1).is_operator());
    }
}

#[test]
fn precedence_follows_the_table() {
    let table = [
        (TokenKind::Assign, -1),
        (TokenKind::Num(5), 0),
        (TokenKind::Ident(b"n".to_vec()), 0),
        (TokenKind::Or, 1),
        (TokenKind::Xor, 2),
        (TokenKind::And, 3),
        (TokenKind::Add, 5),
        (TokenKind::Sub, 5),
        (TokenKind::Mul, 6),
        (TokenKind::Div, 6),
        (TokenKind::Mod, 6),
    ];
    for (kind, precedence) in table {
        assert_eq!(tok(kind, 1, 1).precedence(), precedence);
    }
}

#[test]
fn operators_spell_as_their_symbol() {
    let table = [
        (TokenKind::Add, "+"),
        (TokenKind::Sub, "-"),
        (TokenKind::Mul, "*"),
        (TokenKind::Div, "/"),
        (TokenKind::Mod, "%"),
        (TokenKind::And, "&"),
        (TokenKind::Xor, "^"),
        (TokenKind::Or, "|"),
        (TokenKind::Assign, "="),
    ];
    for (kind, symbol) in table {
        assert_eq!(tok(kind, 1, 1).to_string(), symbol);
    }
}

#[test]
fn value_of_a_number_is_its_decimal_spelling() {
    assert_eq!(tok(TokenKind::Num(0), 1, 1).value(), "0");
    assert_eq!(tok(TokenKind::Num(7), 1, 1).value(), "7");
    assert_eq!(tok(TokenKind::Num(10), 1, 1).value(), "10");
    assert_eq!(tok(TokenKind::Num(1203), 1, 1).value(), "1203");
    assert_eq!(tok(TokenKind::Num(-45), 1, 1).value(), "-45");
    assert_eq!(tok(TokenKind::Num(i64::MAX), 1, 1).value(), "9223372036854775807");
    assert_eq!(tok(TokenKind::Num(i64::MIN), 1, 1).value(), "-9223372036854775808");
}

#[test]
fn value_of_an_identifier_is_its_name() {
    assert_eq!(tok(TokenKind::Ident(b"abc".to_vec()), 1, 1).value(), "abc");
    assert_eq!(tok(TokenKind::Ident(b"x1Y2".to_vec()), 1, 1).value(), "x1Y2");
    assert_eq!(tok(TokenKind::Ident(Vec::new()), 1, 1).value(), "");
    assert_eq!(tok(TokenKind::Ident("é".as_bytes().to_vec()), 1, 1).value(), "é");
}

#[test]
fn decimal_bytes_agree_with_the_standard_spelling() {
    for n in [0i64, 1, 9, 10, 11, 99, 100, 101, -1, -9, -10, -100, 123456789, -987654321] {
        assert_eq!(decimal_bytes(n), n.to_string().into_bytes(), "number {}", n);
    }
    assert_eq!(decimal_bytes(i64::MIN), i64::MIN.to_string().into_bytes());
    assert_eq!(decimal_bytes(i64::MAX), i64::MAX.to_string().into_bytes());
}

#[test]
fn ascii_string_spells_the_bytes() {
    assert_eq!(ascii_string(b"1 + a".to_vec()), "1 + a");
    assert_eq!(ascii_string(Vec::new()), "");
}

#[test]
fn number_at_the_start_is_at_line_1_column_1() {
    let tokens = lex("12").unwrap();
    assert_eq!(tokens, vec![tok(TokenKind::Num(12), 1, 1)]);
    assert_eq!(tokens[0].line(), 1);
    assert_eq!(tokens[0].col(), 1);
}

#[test]
fn plus_in_12_plus_3_is_at_column_4() {
    let tokens = lex("12 + 3").unwrap();
    assert_eq!(
        tokens,
        vec![
            tok(TokenKind::Num(12), 1, 1),
            tok(TokenKind::Add, 1, 4),
            tok(TokenKind::Num(3), 1, 6)
        ]
    );
    assert_eq!(tokens[1].col(), 4);
}

#[test]
fn invalid_byte_stops_collecting_with_its_place() {
    assert_eq!(lex("1 @ 2"), Err(LexError { byte: b'@', line: 1, column: 3 }));
}

#[test]
fn invalid_byte_on_a_later_line_is_placed_there() {
    assert_eq!(lex("1 +\n  2 # 3"), Err(LexError { byte: b'#', line: 2, column: 5 }));
}

#[test]
fn first_invalid_byte_wins() {
    assert_eq!(lex("a $ b ? c"), Err(LexError { byte: b'$', line: 1, column: 3 }));
}

#[test]
fn underscore_is_no_part_of_an_identifier() {
    assert_eq!(lex("a_b"), Err(LexError { byte: b'_', line: 1, column: 2 }));
}

#[test]
fn tokenising_twice_gives_the_same_tokens() {
    for text in ["", "1 + 2 * 3", "(a & b) | c ^ 12", "x = 4 % 3 / 2 - 1", "1 @ 2", "9\n\t(8)"] {
        assert_eq!(lex(text), lex(text), "input {:?}", text);
    }
}

#[test]
fn one_tokeniser_and_a_fresh_one_agree() {
    let mut first = Tokeniser::new("a + 1".to_string());
    let one = first.collect().unwrap();
    let mut second = Tokeniser::new("a + 1".to_string());
    let mut two = Vec::new();
    loop {
        let t = second.tokenise();
        if *t.kind() == TokenKind::End {
            break;
        }
        two.push(t);
    }
    assert_eq!(one, two);
}

#[test]
fn every_single_byte_token_has_its_kind() {
    let tokens = lex("= + - * / ( ) % | ^ &").unwrap();
    assert_eq!(
        tokens,
        vec![
            tok(TokenKind::Assign, 1, 1),
            tok(TokenKind::Add, 1, 3),
            tok(TokenKind::Sub, 1, 5),
            tok(TokenKind::Mul, 1, 7),
            tok(TokenKind::Div, 1, 9),
            tok(TokenKind::LPar, 1, 11),
            tok(TokenKind::RPar, 1, 13),
            tok(TokenKind::Mod, 1, 15),
            tok(TokenKind::Or, 1, 17),
            tok(TokenKind::Xor, 1, 19),
            tok(TokenKind::And, 1, 21),
        ]
    );
}

#[test]
fn tokens_need_no_blanks_between_them() {
    assert_eq!(
        lex("(ab1+23)*c").unwrap(),
        vec![
            tok(TokenKind::LPar, 1, 1),
            tok(TokenKind::Ident(b"ab1".to_vec()), 1, 2),
            tok(TokenKind::Add, 1, 5),
            tok(TokenKind::Num(23), 1, 6),
            tok(TokenKind::RPar, 1, 8),
            tok(TokenKind::Mul, 1, 9),
            tok(TokenKind::Ident(b"c".to_vec()), 1, 10),
        ]
    );
}

#[test]
fn identifier_is_the_longest_run_of_letters_and_digits() {
    assert_eq!(
        lex("abc123 Z9z").unwrap(),
        vec![
            tok(TokenKind::Ident(b"abc123".to_vec()), 1, 1),
            tok(TokenKind::Ident(b"Z9z".to_vec()), 1, 8),
        ]
    );
}

#[test]
fn digits_before_letters_are_a_number_then_an_identifier() {
    assert_eq!(
        lex("12ab").unwrap(),
        vec![
            tok(TokenKind::Num(12), 1, 1),
            tok(TokenKind::Ident(b"ab".to_vec()), 1, 3),
        ]
    );
}

#[test]
fn leading_zeros_do_not_change_a_number() {
    assert_eq!(lex("007").unwrap(), vec![tok(TokenKind::Num(7), 1, 1)]);
    assert_eq!(lex("0").unwrap(), vec![tok(TokenKind::Num(0), 1, 1)]);
}

#[test]
fn largest_number_that_fits_is_read_exactly() {
    assert_eq!(
        lex("9223372036854775807").unwrap(),
        vec![tok(TokenKind::Num(i64::MAX), 1, 1)]
    );
}

#[test]
fn number_beyond_64_bits_wraps_round() {
    assert_eq!(
        lex("9223372036854775808").unwrap(),
        vec![tok(TokenKind::Num(i64::MIN), 1, 1)]
    );
    assert_eq!(
        lex("18446744073709551617").unwrap(),
        vec![tok(TokenKind::Num(1), 1, 1)]
    );
    assert_eq!(
        lex("18446744073709551615").unwrap(),
        vec![tok(TokenKind::Num(-1), 1, 1)]
    );
    assert_eq!(
        lex("100000000000000000000").unwrap(),
        vec![tok(TokenKind::Num(7766279631452241920), 1, 1)]
    );
}

#[test]
fn newline_starts_a_line_at_column_1() {
    assert_eq!(
        lex("1\n+ 2\n\n  x").unwrap(),
        vec![
            tok(TokenKind::Num(1), 1, 1),
            tok(TokenKind::Add, 2, 1),
            tok(TokenKind::Num(2), 2, 3),
            tok(TokenKind::Ident(b"x".to_vec()), 4, 3),
        ]
    );
}

#[test]
fn tab_and_carriage_return_each_take_one_column() {
    assert_eq!(
        lex("\t1\r +").unwrap(),
        vec![tok(TokenKind::Num(1), 1, 2), tok(TokenKind::Add, 1, 5)]
    );
}

#[test]
fn empty_and_blank_inputs_hold_no_tokens() {
    assert_eq!(lex("").unwrap(), Vec::new());
    assert_eq!(lex("  \t\r\n \n").unwrap(), Vec::new());
}

#[test]
fn end_marker_stands_where_the_input_ends() {
    let mut tokeniser = Tokeniser::new("12".to_string());
    assert_eq!(tokeniser.tokenise(), tok(TokenKind::Num(12), 1, 1));
    assert_eq!(tokeniser.tokenise(), tok(TokenKind::End, 1, 3));
    assert_eq!(tokeniser.tokenise(), tok(TokenKind::End, 1, 3));
}

#[test]
fn end_marker_after_blank_lines_counts_them() {
    let mut tokeniser = Tokeniser::new("a \n ".to_string());
    assert_eq!(tokeniser.tokenise(), tok(TokenKind::Ident(b"a".to_vec()), 1, 1));
    assert_eq!(tokeniser.tokenise(), tok(TokenKind::End, 2, 2));
}

#[test]
fn end_marker_of_empty_input_is_at_line_1_column_1() {
    let mut tokeniser = Tokeniser::new(String::new());
    assert_eq!(tokeniser.tokenise(), tok(TokenKind::End, 1, 1));
}

#[test]
fn tokenise_hands_out_an_invalid_byte_and_goes_on() {
    let mut tokeniser = Tokeniser::new("1 @ 2".to_string());
    assert_eq!(tokeniser.tokenise(), tok(TokenKind::Num(1), 1, 1));
    assert_eq!(tokeniser.tokenise(), tok(TokenKind::Invalid(b'@'), 1, 3));
    assert_eq!(tokeniser.tokenise(), tok(TokenKind::Num(2), 1, 5));
    assert_eq!(tokeniser.tokenise(), tok(TokenKind::End, 1, 6));
}

#[test]
fn collect_stops_right_after_the_invalid_byte() {
    let mut tokeniser = Tokeniser::new("1 @ 2".to_string());
    assert!(tokeniser.collect().is_err());
    assert_eq!(tokeniser.tokenise(), tok(TokenKind::Num(2), 1, 5));
}

#[test]
fn tokeniser_over_a_buffer_starts_where_the_buffer_stands() {
    let mut buf = ROBuffer::new("9 + 8".to_string()).unwrap();
    assert_eq!(buf.next(), Some(b'9'));
    let mut tokeniser = Tokeniser::from_buffer(buf);
    assert_eq!(
        tokeniser.collect().unwrap(),
        vec![tok(TokenKind::Add, 1, 2), tok(TokenKind::Num(8), 1, 4)]
    );
}
