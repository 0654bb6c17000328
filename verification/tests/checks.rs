use infix_rpn::expr_parser::to_rpn;
use infix_rpn::sema::{check_infix, check_rpn, sema_infix, sema_rpn, InfixError, RpnError};
use infix_rpn::tokeniser::{Token, TokenKind, Tokeniser};

fn lexed(text: &str) -> Vec<Token> {
    Tokeniser::new(text.to_string()).collect().unwrap()
}

#[test]
fn adjacent_operands_fail_the_infix_check() {
    let tokens = lexed("9 9 +");
    assert!(!sema_infix(&tokens));
    assert_eq!(
        check_infix(&tokens),
        Err(InfixError::ExpectedOperator { index: 0, line: 1, column: 1 })
    );
}

#[test]
fn adjacent_operands_later_in_the_input_fail_the_infix_check() {
    let tokens = lexed("6 7 + 8 9");
    assert!(!sema_infix(&tokens));
    assert_eq!(
        check_infix(&lexed("6 + 7 * 8 9")),
        Err(InfixError::ExpectedOperator { index: 4, line: 1, column: 9 })
    );
}

#[test]
fn adjacent_operators_fail_the_infix_check() {
    let tokens = lexed("1 + - 9");
    assert!(!sema_infix(&tokens));
    assert_eq!(
        check_infix(&tokens),
        Err(InfixError::ExpectedOperand { index: 1, line: 1, column: 3 })
    );
}

#[test]
fn unequal_parenthesis_counts_fail_the_infix_check() {
    let tokens = lexed("((1 + 2)");
    assert!(!sema_infix(&tokens));
    assert_eq!(
        check_infix(&tokens),
        Err(InfixError::ExtraParen { left: true, line: 1, column: 2 })
    );
}

#[test]
fn excess_of_right_parentheses_cites_the_last_right_one() {
    assert_eq!(
        check_infix(&lexed("1 + ) 2 ) (")),
        Err(InfixError::ExtraParen { left: false, line: 1, column: 9 })
    );
}

#[test]
fn excess_of_left_parentheses_cites_the_last_left_one() {
    assert_eq!(
        check_infix(&lexed("(\n ( a )")),
        Err(InfixError::ExtraParen { left: true, line: 2, column: 2 })
    );
}

#[test]
fn parenthesis_counts_are_checked_before_adjacency() {
    assert_eq!(
        check_infix(&lexed("9 9 (")),
        Err(InfixError::ExtraParen { left: true, line: 1, column: 5 })
    );
}

#[test]
fn operator_at_the_end_lacks_its_right_operand() {
    let tokens = lexed("1 +");
    assert!(!sema_infix(&tokens));
    assert_eq!(
        check_infix(&tokens),
        Err(InfixError::ExpectedOperand { index: 1, line: 1, column: 3 })
    );
}

#[test]
fn operand_before_a_parenthesis_fails_the_infix_check() {
    assert_eq!(
        check_infix(&lexed("2 (3 +) 4")),
        Err(InfixError::ExpectedOperator { index: 0, line: 1, column: 1 })
    );
    assert_eq!(
        check_infix(&lexed("(1 + 2) * 3")),
        Err(InfixError::ExpectedOperator { index: 3, line: 1, column: 6 })
    );
}

#[test]
fn first_fault_is_the_one_reported() {
    assert_eq!(
        check_infix(&lexed("1 + * 2 3")),
        Err(InfixError::ExpectedOperand { index: 1, line: 1, column: 3 })
    );
}

#[test]
fn operand_at_the_end_needs_nothing_after_it() {
    assert!(sema_infix(&lexed("1")));
    assert!(sema_infix(&lexed("1 + 2")));
    assert!(sema_infix(&lexed("a * b - c % 4")));
    assert_eq!(check_infix(&lexed("1 + 2")), Ok(()));
}

#[test]
fn empty_sequence_passes_the_infix_check() {
    assert!(sema_infix(&Vec::new()));
}

#[test]
fn operator_may_be_followed_by_a_parenthesis() {
    assert!(sema_infix(&lexed("1 + ( )")));
    assert!(sema_infix(&lexed(") + (")));
}

#[test]
fn infix_check_is_a_filter_and_no_more() {
    // Accepted as infix, though no expression: the postfix check catches it.
    let tokens = lexed("+ 1");
    assert!(sema_infix(&tokens));
    let rpn = to_rpn(tokens).unwrap();
    assert!(!sema_rpn(&rpn));
}

#[test]
fn operands_without_an_operator_fail_the_postfix_check() {
    let tokens = lexed("1 2");
    assert!(!sema_infix(&tokens));
    assert!(!sema_rpn(&tokens));
    assert_eq!(check_rpn(&tokens), Err(RpnError::WrongResultCount { count: 2 }));
    let rpn = to_rpn(lexed("1 2")).unwrap();
    assert_eq!(check_rpn(&rpn), Err(RpnError::WrongResultCount { count: 2 }));
}

#[test]
fn empty_sequence_fails_the_postfix_check() {
    assert!(!sema_rpn(&Vec::new()));
    assert_eq!(check_rpn(&Vec::new()), Err(RpnError::WrongResultCount { count: 0 }));
}

#[test]
fn operator_on_an_empty_stack_has_no_operands() {
    let tokens = lexed("+ 1 2");
    assert!(!sema_rpn(&tokens));
    assert_eq!(
        check_rpn(&tokens),
        Err(RpnError::MissingOperands { found: 0, index: 0, line: 1, column: 1 })
    );
}

#[test]
fn operator_on_one_value_has_one_operand() {
    let tokens = lexed("1 + 2");
    assert!(!sema_rpn(&tokens));
    assert_eq!(
        check_rpn(&tokens),
        Err(RpnError::MissingOperands { found: 1, index: 1, line: 1, column: 3 })
    );
}

#[test]
fn underflow_after_a_result_counts_the_result() {
    assert_eq!(
        check_rpn(&lexed("1 2 + *")),
        Err(RpnError::MissingOperands { found: 1, index: 3, line: 1, column: 7 })
    );
}

#[test]
fn parenthesis_in_postfix_order_is_an_error() {
    assert_eq!(
        check_rpn(&lexed("1 2 ( +")),
        Err(RpnError::StrayParen { left: true, index: 2, line: 1, column: 5 })
    );
    assert_eq!(
        check_rpn(&lexed("1\n) 2 +")),
        Err(RpnError::StrayParen { left: false, index: 1, line: 2, column: 1 })
    );
    assert!(!sema_rpn(&lexed("1 2 ( +")));
}

#[test]
fn first_error_of_the_run_is_the_one_reported() {
    assert_eq!(
        check_rpn(&lexed("1 + ( 2")),
        Err(RpnError::MissingOperands { found: 1, index: 1, line: 1, column: 3 })
    );
}

#[test]
fn well_formed_postfix_passes() {
    assert!(sema_rpn(&lexed("1")));
    assert!(sema_rpn(&lexed("1 2 +")));
    assert!(sema_rpn(&lexed("1 2 3 * +")));
    assert!(sema_rpn(&lexed("a b = c d | ^")));
    assert_eq!(check_rpn(&lexed("8 3 - 2 -")), Ok(()));
}

#[test]
fn leftover_values_are_counted() {
    assert_eq!(check_rpn(&lexed("1 2 + 3 4")), Err(RpnError::WrongResultCount { count: 3 }));
}

#[test]
fn unclosed_parenthesis_is_caught_after_the_reduction() {
    let rpn = to_rpn(lexed("(1 + 2")).unwrap();
    assert_eq!(
        check_rpn(&rpn),
        Err(RpnError::StrayParen { left: true, index: 3, line: 1, column: 1 })
    );
}

#[test]
fn accepted_infix_without_parentheses_reduces_to_accepted_postfix() {
    for text in ["7", "1 + 2", "1 + 2 * 3", "8 - 3 - 2", "a = b | c ^ d & e + f * g", "1 * 2 + 3 / 4 % 5"] {
        let tokens = lexed(text);
        assert!(sema_infix(&tokens), "input {:?}", text);
        let rpn = to_rpn(tokens).unwrap();
        assert!(sema_rpn(&rpn), "input {:?}", text);
    }
}

#[test]
fn parenthesised_expressions_reduce_to_accepted_postfix() {
    for text in ["(1)", "(1 + 2) * 3", "2 * (3 + (4 - 1)) / 5", "((a))"] {
        let rpn = to_rpn(lexed(text)).unwrap();
        assert!(sema_rpn(&rpn), "input {:?}", text);
    }
}

#[test]
fn accepted_infix_with_balanced_parentheses_reduces_without_error() {
    for text in ["1 + ( )", "( ) 1", "1 + ( 2 * ) 3", "( ( ) )"] {
        let tokens = lexed(text);
        assert!(sema_infix(&tokens), "input {:?}", text);
        assert!(to_rpn(tokens).is_ok(), "input {:?}", text);
    }
}

#[test]
fn tokens_made_by_hand_are_checked_like_lexed_ones() {
    let tokens = vec![
        Token::new(TokenKind::Ident(b"a".to_vec()), 4, 2),
        Token::new(TokenKind::Ident(b"b".to_vec()), 9, 2),
    ];
    assert_eq!(
        check_infix(&tokens),
        Err(InfixError::ExpectedOperator { index: 0, line: 2, column: 4 })
    );
}
