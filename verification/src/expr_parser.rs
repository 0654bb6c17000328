//! The reduction of a token sequence from infix to postfix order with a stack of
//! operators: the shunting-yard algorithm.

use crate::sema::paren_count;
use crate::theorems::theorem_reduction_fails_only_when_overclosed;
use crate::tokeniser::{all_in_grammar, outcome, views, Token, TokenKind, TokenView};
use vstd::prelude::*;

verus! {

/// A right parenthesis that no left parenthesis before it matches, by the place
/// of the right parenthesis.
#[derive(Debug, PartialEq, Eq, Clone, Copy)]
pub struct MismatchedParenError {
    pub line: u32,
    pub column: u32,
}

/// The operator stack, top last, and the output so far.
pub struct Yard {
    pub stack: Seq<TokenView>,
    pub output: Seq<TokenView>,
}

/// What may lie on the operator stack when an operator arrives: left parentheses
/// and tokens that have a precedence.
pub open spec fn stackable(t: TokenView) -> bool {
    t.kind is LPar || t.kind.is_operand() || t.kind.is_operator()
}

impl Yard {
    /// The state before the first token.
    pub open spec fn empty() -> Yard {
        Yard { stack: Seq::empty(), output: Seq::empty() }
    }

    /// The state after the operator `op` has arrived. The operators on top of the
    /// stack move to the output, top first, as long as the top is no left
    /// parenthesis and binds at least as tightly as `op`; then `op` goes on the stack.
    pub open spec fn with_operator(self, op: TokenView) -> Yard
        decreases self.stack.len(),
    {
        if self.stack.len() == 0 {
            Yard { stack: self.stack.push(op), ..self }
        } else {
            let top = self.stack.last();
            if top.kind is LPar || top.kind.precedence() < op.kind.precedence() {
                Yard { stack: self.stack.push(op), ..self }
            } else {
                (Yard { stack: self.stack.drop_last(), output: self.output.push(top) }).with_operator(
                    op,
                )
            }
        }
    }

    /// The state after a right parenthesis has arrived. The operators on top of the
    /// stack move to the output, top first, down to the nearest left parenthesis,
    /// which leaves the stack and is dropped. Without a left parenthesis on the
    /// stack there is no such state.
    pub open spec fn closed(self) -> Option<Yard>
        decreases self.stack.len(),
    {
        if self.stack.len() == 0 {
            None
        } else {
            let top = self.stack.last();
            if top.kind is LPar {
                Some(Yard { stack: self.stack.drop_last(), ..self })
            } else {
                (Yard { stack: self.stack.drop_last(), output: self.output.push(top) }).closed()
            }
        }
    }

    /// The state after the token `t` has arrived: an operand goes to the output, a
    /// left parenthesis on the stack, a right parenthesis closes the nearest left
    /// one, and every other token arrives as an operator.
    pub open spec fn step(self, t: TokenView) -> Result<Yard, MismatchedParenError> {
        if t.kind.is_operand() {
            Ok(Yard { output: self.output.push(t), ..self })
        } else if t.kind is LPar {
            Ok(Yard { stack: self.stack.push(t), ..self })
        } else if t.kind is RPar {
            match self.closed() {
                Some(y) => Ok(y),
                None => Err(MismatchedParenError { line: t.line, column: t.column }),
            }
        } else {
            Ok(self.with_operator(t))
        }
    }

    /// The output after the input has ended: what is left on the stack follows the
    /// output, top first.
    pub open spec fn drained(self) -> Seq<TokenView> {
        self.output + self.stack.reverse()
    }

    /// Every token on the stack may lie there.
    pub open spec fn stack_ok(self) -> bool {
        forall|i: int| 0 <= i < self.stack.len() ==> stackable(#[trigger] self.stack[i])
    }
}

/// The state after all of `s` has arrived, or the error of the first right
/// parenthesis without a match.
pub open spec fn yard_after(s: Seq<TokenView>) -> Result<Yard, MismatchedParenError>
    decreases s.len(),
{
    if s.len() == 0 {
        Ok(Yard::empty())
    } else {
        match yard_after(s.drop_last()) {
            Ok(y) => y.step(s.last()),
            Err(e) => Err(e),
        }
    }
}

/// The postfix form of the infix sequence `s`, or the error of the first right
/// parenthesis without a match.
pub open spec fn postfix_of(s: Seq<TokenView>) -> Result<Seq<TokenView>, MismatchedParenError> {
    match yard_after(s) {
        Ok(y) => Ok(y.drained()),
        Err(e) => Err(e),
    }
}

/// No prefix of `s` holds more right parentheses than left ones: every right
/// parenthesis closes a left one before it.
pub open spec fn never_overclosed(s: Seq<TokenView>) -> bool {
    forall|k: int|
        0 <= k <= s.len() ==> paren_count(#[trigger] s.take(k), false) <= paren_count(
            s.take(k),
            true,
        )
}

/// The operator stack and the output as the reduction holds them.
pub open spec fn yard_of(opstack: Seq<Token>, output: Seq<Token>) -> Yard {
    Yard { stack: views(opstack), output: views(output) }
}

/// An error after a prefix is the error of the whole sequence.
pub proof fn lemma_yard_error_stays(s: Seq<TokenView>, k: int)
    requires
        0 <= k <= s.len(),
        yard_after(s.take(k)) is Err,
    ensures
        yard_after(s) == yard_after(s.take(k)),
    decreases s.len() - k,
{
    if k < s.len() {
        assert(s.take(k + 1).drop_last() =~= s.take(k));
        lemma_yard_error_stays(s, k + 1);
    } else {
        assert(s.take(k) =~= s);
    }
}

/// An arriving operator leaves on the stack only what may lie there.
pub proof fn lemma_with_operator_stack_ok(y: Yard, op: TokenView)
    requires
        y.stack_ok(),
        stackable(op),
    ensures
        y.with_operator(op).stack_ok(),
    decreases y.stack.len(),
{
    if y.stack.len() > 0 {
        let top = y.stack.last();
        if !(top.kind is LPar || top.kind.precedence() < op.kind.precedence()) {
            lemma_with_operator_stack_ok(
                Yard { stack: y.stack.drop_last(), output: y.output.push(top) },
                op,
            );
        }
    }
}

/// Takes the operator `op` in: moves from the top of `opstack` to `output` what
/// binds at least as tightly as `op`, down to the nearest left parenthesis, and
/// puts `op` on the stack.
pub fn add_operator(opstack: &mut Vec<Token>, output: &mut Vec<Token>, op: Token)
    requires
        yard_of(old(opstack)@, old(output)@).stack_ok(),
        op@.kind.is_operand() || op@.kind.is_operator(),
    ensures
        yard_of(final(opstack)@, final(output)@) == yard_of(
            old(opstack)@,
            old(output)@,
        ).with_operator(op@),
{
    let ghost goal = yard_of(old(opstack)@, old(output)@).with_operator(op@);
    while opstack.len() > 0
        invariant
            goal == yard_of(old(opstack)@, old(output)@).with_operator(op@),
            yard_of(opstack@, output@).stack_ok(),
            yard_of(opstack@, output@).with_operator(op@) == goal,
            op@.kind.is_operand() || op@.kind.is_operator(),
        decreases opstack.len(),
    {
        let ghost before = yard_of(opstack@, output@);
        let opstack_top = opstack.pop().unwrap();
        assert(opstack_top@ == before.stack.last());
        assert(views(opstack@) =~= before.stack.drop_last());
        assert(stackable(before.stack[before.stack.len() - 1]));
        // A left parenthesis opens a scope: nothing below it leaves the stack.
        let scope_starts = match opstack_top.kind() {
            TokenKind::LPar => true,
            _ => false,
        };
        if scope_starts || opstack_top.precedence() < op.precedence() {
            opstack.push(opstack_top);
            opstack.push(op);
            assert(views(opstack@) =~= before.stack.push(op@));
            return ;
        }
        output.push(opstack_top);
        assert(views(output@) =~= before.output.push(before.stack.last()));
    }
    assert(views(opstack@) =~= Seq::<TokenView>::empty());
    opstack.push(op);
    assert(views(opstack@) =~= Seq::<TokenView>::empty().push(op@));
}

/// Reduces a token sequence from infix to postfix order. Parentheses steer the
/// reduction and do not reach the output, unless a left one is never closed. The
/// reduction fails at the first right parenthesis that closes nothing.
pub fn to_rpn(expr: Vec<Token>) -> (r: Result<Vec<Token>, MismatchedParenError>)
    requires
        all_in_grammar(views(expr@)),
    ensures
        outcome(r) == postfix_of(views(expr@)),
        r is Ok <==> never_overclosed(views(expr@)),
{
    proof {
        theorem_reduction_fails_only_when_overclosed(views(expr@));
    }
    let mut ret: Vec<Token> = Vec::new();
    let mut opstack: Vec<Token> = Vec::new();
    let ghost s = views(expr@);
    let ghost tokens = expr@;
    assert(s.take(0) =~= Seq::<TokenView>::empty());
    assert(views(ret@) =~= Seq::<TokenView>::empty());
    assert(views(opstack@) =~= Seq::<TokenView>::empty());
    for e in it: expr
        invariant
            it.seq() == tokens,
            s == views(tokens),
            all_in_grammar(s),
            postfix_of(s) is Ok <==> never_overclosed(s),
            yard_after(s.take(it.index())) == Ok::<Yard, MismatchedParenError>(
                yard_of(opstack@, ret@),
            ),
            yard_of(opstack@, ret@).stack_ok(),
    {
        let ghost k = it.index();
        let ghost before = yard_of(opstack@, ret@);
        proof {
            assert(e == tokens[k]);
            assert(s[k] == e@);
            assert(s.take(k + 1).drop_last() =~= s.take(k));
            assert(yard_after(s.take(k + 1)) == before.step(e@));
        }
        match e.kind() {
            TokenKind::Num(_) | TokenKind::Ident(_) => {
                ret.push(e);
                assert(views(ret@) =~= before.output.push(s[k]));
            },
            TokenKind::LPar => {
                opstack.push(e);
                assert(views(opstack@) =~= before.stack.push(s[k]));
            },
            TokenKind::RPar => {
                let mut matched = false;
                while opstack.len() > 0
                    invariant_except_break
                        !matched,
                        yard_of(opstack@, ret@).closed() == before.closed(),
                    invariant
                        yard_of(opstack@, ret@).stack_ok(),
                    ensures
                        yard_of(opstack@, ret@).stack_ok(),
                        matched ==> before.closed() == Some(yard_of(opstack@, ret@)),
                        !matched ==> before.closed() is None,
                    decreases opstack.len(),
                {
                    let ghost inner = yard_of(opstack@, ret@);
                    let op = opstack.pop().unwrap();
                    assert(op@ == inner.stack.last());
                    assert(views(opstack@) =~= inner.stack.drop_last());
                    let closes = match op.kind() {
                        TokenKind::LPar => true,
                        _ => false,
                    };
                    if closes {
                        matched = true;
                        break ;
                    }
                    ret.push(op);
                    assert(views(ret@) =~= inner.output.push(inner.stack.last()));
                }
                if !matched {
                    proof {
                        lemma_yard_error_stays(s, k + 1);
                    }
                    return Err(MismatchedParenError { line: e.line(), column: e.col() });
                }
            },
            _ => {
                proof {
                    lemma_with_operator_stack_ok(before, e@);
                }
                add_operator(&mut opstack, &mut ret, e);
            },
        }
    }
    let ghost end = yard_of(opstack@, ret@);
    assert(s.take(s.len() as int) =~= s);
    while opstack.len() > 0
        invariant
            views(ret@) + views(opstack@).reverse() == end.drained(),
        decreases opstack.len(),
    {
        let ghost stack = views(opstack@);
        let ghost output = views(ret@);
        let op = opstack.pop().unwrap();
        ret.push(op);
        assert(views(ret@) + views(opstack@).reverse() =~= output + stack.reverse());
    }
    assert(views(ret@) + views(opstack@).reverse() =~= views(ret@));
    Ok(ret)
}

} // verus!
