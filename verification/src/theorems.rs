//! What holds of the reduction and the two checks together.

use crate::expr_parser::{never_overclosed, postfix_of, yard_after, Yard};
use crate::lexing::{lex_all, LexError, LexState};
use crate::robuffer::ascii_bytes;
use crate::sema::{
    infix_verdict, lacks_operand, lacks_operator, lemma_infix_accepts, paren_count, rpn_depth,
    rpn_step, rpn_verdict, RpnError,
};
use crate::tokeniser::{all_in_grammar, outcome, Token, TokenView};
use vstd::prelude::*;

verus! {

/// The parentheses of `s` are balanced: every right parenthesis closes a left one
/// before it, and no left one stays open.
pub open spec fn parens_balanced(s: Seq<TokenView>) -> bool {
    never_overclosed(s) && paren_count(s, true) == paren_count(s, false)
}

/// An arriving token that is no parenthesis leaves the left parentheses on the
/// stack as they are.
proof fn lemma_with_operator_keeps_parens(y: Yard, op: TokenView)
    requires
        !(op.kind is LPar),
    ensures
        paren_count(y.with_operator(op).stack, true) == paren_count(y.stack, true),
    decreases y.stack.len(),
{
    if y.stack.len() > 0 {
        let top = y.stack.last();
        if !(top.kind is LPar || top.kind.precedence() < op.kind.precedence()) {
            lemma_with_operator_keeps_parens(
                Yard { stack: y.stack.drop_last(), output: y.output.push(top) },
                op,
            );
        } else {
            assert(y.stack.push(op).drop_last() =~= y.stack);
        }
    } else {
        assert(y.stack.push(op).drop_last() =~= y.stack);
    }
}

/// A right parenthesis finds a match exactly when a left parenthesis lies on the
/// stack, and takes one left parenthesis off it.
proof fn lemma_closed_takes_one_paren(y: Yard)
    ensures
        y.closed() is Some <==> paren_count(y.stack, true) > 0,
        y.closed() matches Some(z) ==> paren_count(z.stack, true) + 1 == paren_count(
            y.stack,
            true,
        ),
    decreases y.stack.len(),
{
    if y.stack.len() > 0 {
        let top = y.stack.last();
        if !(top.kind is LPar) {
            lemma_closed_takes_one_paren(
                Yard { stack: y.stack.drop_last(), output: y.output.push(top) },
            );
        }
    }
}

/// While the reduction runs, the stack holds one left parenthesis for each that
/// is still open; and the reduction has failed exactly if some right parenthesis
/// closed nothing.
proof fn lemma_yard_tracks_open_parens(s: Seq<TokenView>)
    ensures
        yard_after(s) is Ok <==> never_overclosed(s),
        yard_after(s) matches Ok(y) ==> paren_count(y.stack, true) + paren_count(s, false)
            == paren_count(s, true),
    decreases s.len(),
{
    if s.len() == 0 {
        assert forall|k: int| 0 <= k <= s.len() implies paren_count(
            #[trigger] s.take(k),
            false,
        ) <= paren_count(s.take(k), true) by {
            assert(s.take(k) =~= s);
        }
    } else {
        let init = s.drop_last();
        let t = s.last();
        lemma_yard_tracks_open_parens(init);
        assert(s.take(s.len() as int) =~= s);
        assert forall|k: int| 0 <= k < s.len() implies #[trigger] s.take(k) == init.take(k) by {
            assert(s.take(k) =~= init.take(k));
        }
        match yard_after(init) {
            Ok(y) => {
                if t.kind.is_operand() {
                } else if t.kind is LPar {
                    assert(y.stack.push(t).drop_last() =~= y.stack);
                } else if t.kind is RPar {
                    lemma_closed_takes_one_paren(y);
                } else {
                    lemma_with_operator_keeps_parens(y, t);
                }
                if never_overclosed(init) && paren_count(s, false) <= paren_count(s, true) {
                    assert forall|k: int| 0 <= k <= s.len() implies paren_count(
                        #[trigger] s.take(k),
                        false,
                    ) <= paren_count(s.take(k), true) by {
                        if k < s.len() {
                            assert(s.take(k) == init.take(k));
                        }
                    }
                }
            },
            Err(_) => {
                let k = choose|k: int|
                    0 <= k <= init.len() && !(paren_count(#[trigger] init.take(k), false)
                        <= paren_count(init.take(k), true));
                assert(s.take(k) == init.take(k));
            },
        }
    }
}

/// The reduction fails exactly on the sequences in which some right parenthesis
/// closes nothing.
pub proof fn theorem_reduction_fails_only_when_overclosed(s: Seq<TokenView>)
    ensures
        postfix_of(s) is Ok <==> never_overclosed(s),
{
    lemma_yard_tracks_open_parens(s);
}

/// A sequence that the infix check accepts and whose parentheses are balanced
/// reduces without a mismatched parenthesis.
pub proof fn theorem_balanced_infix_reduces(s: Seq<TokenView>)
    requires
        infix_verdict(s) is Ok,
        parens_balanced(s),
    ensures
        postfix_of(s) is Ok,
{
    lemma_yard_tracks_open_parens(s);
}

/// How far an infix expression has been read: whether an operand must come
/// next, and how many left parentheses are still open.
pub struct Shape {
    pub awaits_operand: bool,
    pub open: nat,
}

/// The shape after one more token, if the token may come next: where an operand
/// is awaited, an operand or a left parenthesis; after an operand, an operator,
/// or a right parenthesis that closes an open left one.
pub open spec fn shape_step(sh: Shape, t: TokenView) -> Option<Shape> {
    if sh.awaits_operand {
        if t.kind.is_operand() {
            Some(Shape { awaits_operand: false, ..sh })
        } else if t.kind is LPar {
            Some(Shape { open: sh.open + 1, ..sh })
        } else {
            None
        }
    } else {
        if t.kind.is_operator() {
            Some(Shape { awaits_operand: true, ..sh })
        } else if t.kind is RPar && sh.open > 0 {
            Some(Shape { open: (sh.open - 1) as nat, ..sh })
        } else {
            None
        }
    }
}

/// The shape after `s`, if `s` can begin an infix expression.
pub open spec fn shape_of(s: Seq<TokenView>) -> Option<Shape>
    decreases s.len(),
{
    if s.len() == 0 {
        Some(Shape { awaits_operand: true, open: 0 })
    } else {
        match shape_of(s.drop_last()) {
            Some(sh) => shape_step(sh, s.last()),
            None => None,
        }
    }
}

/// `s` is an infix expression: operands joined by binary operators, where an
/// operand is a number, an identifier, or an infix expression in parentheses.
pub open spec fn well_formed_infix(s: Seq<TokenView>) -> bool {
    shape_of(s) == Some(Shape { awaits_operand: false, open: 0 })
}

/// The stack holds left parentheses and operators only.
pub open spec fn operators_only(stack: Seq<TokenView>) -> bool {
    forall|i: int|
        0 <= i < stack.len() ==> (#[trigger] stack[i]).kind is LPar || stack[i].kind.is_operator()
}

/// How many operators the stack holds.
pub open spec fn operator_count(stack: Seq<TokenView>) -> int {
    stack.len() - paren_count(stack, true)
}

/// The reduction keeps step with the shape of what was read: the stack holds the
/// open left parentheses and operators only, and the output runs without error
/// to one value for each operator on the stack, and one more after an operand.
pub open spec fn in_step(y: Yard, sh: Shape) -> bool {
    &&& operators_only(y.stack)
    &&& paren_count(y.stack, true) == sh.open
    &&& rpn_depth(y.output) == Ok::<nat, RpnError>(
        (operator_count(y.stack) + if sh.awaits_operand {
            0int
        } else {
            1int
        }) as nat,
    )
}

/// The run of a sequence with one more token is the run of the sequence, then
/// that token.
proof fn lemma_rpn_depth_push(out: Seq<TokenView>, t: TokenView)
    ensures
        rpn_depth(out.push(t)) == match rpn_depth(out) {
            Ok(depth) => rpn_step(depth, t, out.len() as int),
            Err(e) => Err(e),
        },
{
    assert(out.push(t).drop_last() =~= out);
}

/// The stack never holds more left parentheses than tokens.
proof fn lemma_paren_count_bound(s: Seq<TokenView>, left: bool)
    ensures
        paren_count(s, left) <= s.len(),
    decreases s.len(),
{
    if s.len() > 0 {
        lemma_paren_count_bound(s.drop_last(), left);
    }
}

/// After an operand, an arriving operator keeps the reduction in step.
proof fn lemma_with_operator_in_step(y: Yard, op: TokenView, open: nat)
    requires
        in_step(y, Shape { awaits_operand: false, open }),
        op.kind.is_operator(),
    ensures
        in_step(y.with_operator(op), Shape { awaits_operand: true, open }),
    decreases y.stack.len(),
{
    lemma_paren_count_bound(y.stack, true);
    if y.stack.len() > 0 {
        let top = y.stack.last();
        if !(top.kind is LPar || top.kind.precedence() < op.kind.precedence()) {
            let z = Yard { stack: y.stack.drop_last(), output: y.output.push(top) };
            lemma_rpn_depth_push(y.output, top);
            lemma_paren_count_bound(z.stack, true);
            assert(operators_only(z.stack)) by {
                assert forall|i: int| 0 <= i < z.stack.len() implies (#[trigger] z.stack[i]).kind is LPar
                    || z.stack[i].kind.is_operator() by {
                    assert(z.stack[i] == y.stack[i]);
                }
            }
            lemma_with_operator_in_step(z, op, open);
        } else {
            assert(y.stack.push(op).drop_last() =~= y.stack);
        }
    } else {
        assert(y.stack.push(op).drop_last() =~= y.stack);
    }
}

/// After an operand, a right parenthesis that closes an open left one keeps the
/// reduction in step.
proof fn lemma_closed_in_step(y: Yard, open: nat)
    requires
        in_step(y, Shape { awaits_operand: false, open }),
        open > 0,
    ensures
        y.closed() matches Some(z) && in_step(
            z,
            Shape { awaits_operand: false, open: (open - 1) as nat },
        ),
    decreases y.stack.len(),
{
    lemma_paren_count_bound(y.stack, true);
    let top = y.stack.last();
    let rest = y.stack.drop_last();
    lemma_paren_count_bound(rest, true);
    assert(operators_only(rest)) by {
        assert forall|i: int| 0 <= i < rest.len() implies (#[trigger] rest[i]).kind is LPar
            || rest[i].kind.is_operator() by {
            assert(rest[i] == y.stack[i]);
        }
    }
    if !(top.kind is LPar) {
        lemma_rpn_depth_push(y.output, top);
        lemma_closed_in_step(Yard { stack: rest, output: y.output.push(top) }, open);
    }
}

/// Once the input has ended after an operand with no parenthesis open, the
/// operators left on the stack complete the output to a run that leaves one value.
proof fn lemma_drained_leaves_one(y: Yard)
    requires
        in_step(y, Shape { awaits_operand: false, open: 0 }),
    ensures
        rpn_depth(y.drained()) == Ok::<nat, RpnError>(1),
    decreases y.stack.len(),
{
    if y.stack.len() == 0 {
        assert(y.drained() =~= y.output);
    } else {
        let top = y.stack.last();
        let rest = y.stack.drop_last();
        let z = Yard { stack: rest, output: y.output.push(top) };
        lemma_paren_count_bound(rest, true);
        assert(operators_only(rest)) by {
            assert forall|i: int| 0 <= i < rest.len() implies (#[trigger] rest[i]).kind is LPar
                || rest[i].kind.is_operator() by {
                assert(rest[i] == y.stack[i]);
            }
        }
        lemma_rpn_depth_push(y.output, top);
        lemma_drained_leaves_one(z);
        assert(z.drained() =~= y.drained());
    }
}

/// While what was read can begin an infix expression, the reduction has not
/// failed and keeps step with the shape.
proof fn lemma_reduction_keeps_step(s: Seq<TokenView>)
    requires
        shape_of(s) is Some,
    ensures
        yard_after(s) matches Ok(y) && in_step(y, shape_of(s).unwrap()),
    decreases s.len(),
{
    if s.len() > 0 {
        let init = s.drop_last();
        let t = s.last();
        lemma_reduction_keeps_step(init);
        let sh = shape_of(init).unwrap();
        let y = yard_after(init).unwrap();
        lemma_paren_count_bound(y.stack, true);
        if sh.awaits_operand {
            if t.kind.is_operand() {
                lemma_rpn_depth_push(y.output, t);
            } else {
                assert(y.stack.push(t).drop_last() =~= y.stack);
                assert(operators_only(y.stack.push(t)));
            }
        } else {
            if t.kind.is_operator() {
                lemma_with_operator_in_step(y, t, sh.open);
            } else {
                lemma_closed_in_step(y, sh.open);
            }
        }
    }
}

/// An infix expression reduces without a mismatched parenthesis, and the postfix
/// check accepts what the reduction gives.
pub proof fn theorem_well_formed_infix_round_trip(s: Seq<TokenView>)
    requires
        well_formed_infix(s),
    ensures
        postfix_of(s) matches Ok(p) && rpn_verdict(p) is Ok,
{
    lemma_reduction_keeps_step(s);
    lemma_drained_leaves_one(yard_after(s).unwrap());
}

/// `s` holds no parenthesis.
pub open spec fn paren_free(s: Seq<TokenView>) -> bool {
    forall|i: int| 0 <= i < s.len() ==> !(#[trigger] s[i]).kind.is_paren()
}

/// Without parentheses and without a token that lacks what must follow it,
/// operands and operators take turns from the first operand on.
proof fn lemma_operands_and_operators_take_turns(s: Seq<TokenView>, k: int)
    requires
        all_in_grammar(s),
        paren_free(s),
        forall|i: int| 0 <= i < s.len() ==> !lacks_operator(s, i) && !lacks_operand(s, i),
        s.len() > 0,
        s[0].kind.is_operand(),
        1 <= k <= s.len(),
    ensures
        shape_of(s.take(k)) == Some(Shape { awaits_operand: s[k - 1].kind.is_operator(), open: 0 }),
    decreases k,
{
    assert(s.take(k).drop_last() =~= s.take(k - 1));
    assert(s.take(k).last() == s[k - 1]);
    assert(s[k - 1].kind.in_grammar() && !s[k - 1].kind.is_paren());
    if k > 1 {
        lemma_operands_and_operators_take_turns(s, k - 1);
        assert(s[k - 2].kind.in_grammar() && !s[k - 2].kind.is_paren());
        assert(!lacks_operator(s, k - 2) && !lacks_operand(s, k - 2));
    }
}

/// A sequence without parentheses that begins with an operand and that the infix
/// check accepts reduces without error, and the postfix check accepts what the
/// reduction gives.
pub proof fn theorem_accepted_infix_round_trip(s: Seq<TokenView>)
    requires
        all_in_grammar(s),
        paren_free(s),
        s.len() > 0,
        s[0].kind.is_operand(),
        infix_verdict(s) is Ok,
    ensures
        postfix_of(s) matches Ok(p) && rpn_verdict(p) is Ok,
{
    lemma_infix_accepts(s);
    lemma_operands_and_operators_take_turns(s, s.len() as int);
    assert(s.take(s.len() as int) =~= s);
    assert(!lacks_operand(s, s.len() - 1));
    theorem_well_formed_infix_round_trip(s);
}

/// Tokenising the same input a second time gives the same tokens as the first
/// time, or stops at the same invalid byte: nothing but the input decides.
pub proof fn theorem_retokenising_gives_the_same(
    input: Seq<char>,
    first: Result<Vec<Token>, LexError>,
    second: Result<Vec<Token>, LexError>,
)
    requires
        outcome(first) == lex_all(LexState::start(ascii_bytes(input))),
        outcome(second) == lex_all(LexState::start(ascii_bytes(input))),
    ensures
        outcome(first) == outcome(second),
{
}

} // verus!
