//! The two semantic checks: one over a token sequence in infix order, before it is
//! reduced, and one over the postfix sequence that the reduction gives.

use crate::tokeniser::{views, Token, TokenKind, TokenView};
use vstd::prelude::*;

verus! {

/// Why a token sequence in infix order is rejected, and where.
#[derive(Debug, PartialEq, Eq, Clone, Copy)]
pub enum InfixError {
    /// The sequence has more parentheses of one kind than of the other. `left` tells
    /// which kind is in excess; the position is that of the last parenthesis of that kind.
    ExtraParen { left: bool, line: u32, column: u32 },
    /// The operand at `index` is followed by an operand or a parenthesis.
    ExpectedOperator { index: usize, line: u32, column: u32 },
    /// The operator at `index` is the last token or is followed by an operator.
    ExpectedOperand { index: usize, line: u32, column: u32 },
}

/// Why a token sequence in postfix order is rejected.
#[derive(Debug, PartialEq, Eq, Clone, Copy)]
pub enum RpnError {
    /// The token at `index` is a parenthesis; `left` tells which.
    StrayParen { left: bool, index: usize, line: u32, column: u32 },
    /// The operator at `index` finds `found` operands, 0 or 1, where it needs 2.
    MissingOperands { found: usize, index: usize, line: u32, column: u32 },
    /// After the last token `count` values are left, where exactly 1 must be.
    WrongResultCount { count: usize },
}

/// Whether `t` is a parenthesis of the given kind: left (opening) or right (closing).
pub open spec fn is_paren_of(t: TokenView, left: bool) -> bool {
    if left {
        t.kind is LPar
    } else {
        t.kind is RPar
    }
}

/// How many parentheses of the given kind `s` holds.
pub open spec fn paren_count(s: Seq<TokenView>, left: bool) -> nat
    decreases s.len(),
{
    if s.len() == 0 {
        0
    } else {
        paren_count(s.drop_last(), left) + if is_paren_of(s.last(), left) {
            1nat
        } else {
            0nat
        }
    }
}

/// The index of the last parenthesis of the given kind in `s`, if there is one.
pub open spec fn last_paren(s: Seq<TokenView>, left: bool) -> Option<int>
    decreases s.len(),
{
    if s.len() == 0 {
        None
    } else if is_paren_of(s.last(), left) {
        Some(s.len() - 1)
    } else {
        last_paren(s.drop_last(), left)
    }
}

/// The token at `i` is an operand, and an operand or a parenthesis follows it directly.
pub open spec fn lacks_operator(s: Seq<TokenView>, i: int) -> bool {
    &&& 0 <= i < s.len()
    &&& s[i].kind.is_operand()
    &&& i + 1 < s.len()
    &&& (s[i + 1].kind.is_operand() || s[i + 1].kind.is_paren())
}

/// The token at `i` is an operator, and it is the last token or an operator follows it
/// directly.
pub open spec fn lacks_operand(s: Seq<TokenView>, i: int) -> bool {
    &&& 0 <= i < s.len()
    &&& s[i].kind.is_operator()
    &&& (i + 1 >= s.len() || s[i + 1].kind.is_operator())
}

/// The first index at or after `from` at which a token lacks what must follow it.
pub open spec fn first_fault(s: Seq<TokenView>, from: int) -> Option<int>
    decreases s.len() - from,
{
    if from < 0 || from >= s.len() {
        None
    } else if lacks_operator(s, from) || lacks_operand(s, from) {
        Some(from)
    } else {
        first_fault(s, from + 1)
    }
}

/// The error for an excess of parentheses of the given kind.
pub open spec fn excess_error(s: Seq<TokenView>, left: bool) -> InfixError {
    let i = last_paren(s, left).unwrap();
    InfixError::ExtraParen { left, line: s[i].line, column: s[i].column }
}

/// The error for the token at `i`, which lacks what must follow it.
pub open spec fn fault_error(s: Seq<TokenView>, i: int) -> InfixError {
    if lacks_operator(s, i) {
        InfixError::ExpectedOperator { index: i as usize, line: s[i].line, column: s[i].column }
    } else {
        InfixError::ExpectedOperand { index: i as usize, line: s[i].line, column: s[i].column }
    }
}

/// The outcome of the infix check. The parentheses are counted first, over the whole
/// sequence; only if there are as many of one kind as of the other is the sequence
/// scanned, and the first token that lacks what must follow it is reported.
pub open spec fn infix_verdict(s: Seq<TokenView>) -> Result<(), InfixError> {
    if paren_count(s, true) > paren_count(s, false) {
        Err(excess_error(s, true))
    } else if paren_count(s, true) < paren_count(s, false) {
        Err(excess_error(s, false))
    } else {
        match first_fault(s, 0) {
            Some(i) => Err(fault_error(s, i)),
            None => Ok(()),
        }
    }
}

/// Extending a sequence by one token extends the count and moves the last index.
proof fn lemma_paren_prefix(s: Seq<TokenView>, i: int, left: bool)
    requires
        0 <= i < s.len(),
    ensures
        paren_count(s.take(i + 1), left) == paren_count(s.take(i), left) + if is_paren_of(
            s[i],
            left,
        ) {
            1nat
        } else {
            0nat
        },
        last_paren(s.take(i + 1), left) == if is_paren_of(s[i], left) {
            Some(i)
        } else {
            last_paren(s.take(i), left)
        },
        paren_count(s.take(i), left) <= i,
    decreases i,
{
    assert(s.take(i + 1).drop_last() =~= s.take(i));
    if i > 0 {
        lemma_paren_prefix(s, i - 1, left);
    }
}

/// A kind of parenthesis that occurs has a last occurrence.
pub proof fn lemma_last_paren(s: Seq<TokenView>, left: bool)
    ensures
        paren_count(s, left) <= s.len(),
        paren_count(s, left) > 0 <==> last_paren(s, left) is Some,
        last_paren(s, left) matches Some(i) ==> 0 <= i < s.len() && is_paren_of(s[i], left)
            && forall|j: int| i < j < s.len() ==> !is_paren_of(#[trigger] s[j], left),
    decreases s.len(),
{
    if s.len() > 0 {
        let t = s.drop_last();
        lemma_last_paren(t, left);
        if let Some(i) = last_paren(s, left) {
            assert forall|j: int| i < j < s.len() implies !is_paren_of(#[trigger] s[j], left) by {
                if j < t.len() {
                    assert(t[j] == s[j]);
                }
            }
        }
    }
}

/// What the infix check asks: as many left as right parentheses, and no token
/// that lacks what must follow it.
pub open spec fn infix_accepted(s: Seq<TokenView>) -> bool {
    &&& paren_count(s, true) == paren_count(s, false)
    &&& forall|i: int| 0 <= i < s.len() ==> !lacks_operator(s, i) && !lacks_operand(s, i)
}

/// The first fault is a fault, and no token between `from` and it is one; without
/// a first fault no token from `from` on is one.
pub proof fn lemma_first_fault(s: Seq<TokenView>, from: int)
    requires
        0 <= from,
    ensures
        match first_fault(s, from) {
            Some(i) => from <= i < s.len() && (lacks_operator(s, i) || lacks_operand(s, i))
                && forall|j: int|
                from <= j < i ==> !lacks_operator(s, j) && !lacks_operand(s, j),
            None => forall|j: int|
                from <= j < s.len() ==> !lacks_operator(s, j) && !lacks_operand(s, j),
        },
    decreases s.len() - from,
{
    if from < s.len() && !(lacks_operator(s, from) || lacks_operand(s, from)) {
        lemma_first_fault(s, from + 1);
    }
}

/// The verdict is favourable exactly on the sequences that meet what the infix
/// check asks.
pub proof fn lemma_infix_accepts(s: Seq<TokenView>)
    ensures
        infix_verdict(s) is Ok <==> infix_accepted(s),
{
    lemma_first_fault(s, 0);
}

/// Checks a token sequence in infix order and says why it is rejected, if it is.
pub fn check_infix(expr: &Vec<Token>) -> (r: Result<(), InfixError>)
    ensures
        r == infix_verdict(views(expr@)),
        r is Ok <==> infix_accepted(views(expr@)),
{
    let ghost s = views(expr@);
    proof {
        lemma_infix_accepts(s);
    }
    let n = expr.len();
    let mut lpars: usize = 0;
    let mut rpars: usize = 0;
    let mut last_l: usize = 0;
    let mut last_r: usize = 0;
    let mut i: usize = 0;
    while i < n
        invariant
            n == expr.len(),
            s == views(expr@),
            0 <= i <= n,
            lpars == paren_count(s.take(i as int), true),
            rpars == paren_count(s.take(i as int), false),
            lpars > 0 ==> last_paren(s.take(i as int), true) == Some(last_l as int),
            rpars > 0 ==> last_paren(s.take(i as int), false) == Some(last_r as int),
        decreases n - i,
    {
        proof {
            lemma_paren_prefix(s, i as int, true);
            lemma_paren_prefix(s, i as int, false);
        }
        match expr[i].kind() {
            TokenKind::LPar => {
                last_l = i;
                lpars += 1;
            },
            TokenKind::RPar => {
                last_r = i;
                rpars += 1;
            },
            _ => {},
        }
        i += 1;
    }
    proof {
        assert(s.take(n as int) =~= s);
        lemma_last_paren(s, true);
        lemma_last_paren(s, false);
    }
    if lpars > rpars {
        let t = &expr[last_l];
        return Err(InfixError::ExtraParen { left: true, line: t.line(), column: t.col() });
    }
    if lpars < rpars {
        let t = &expr[last_r];
        return Err(InfixError::ExtraParen { left: false, line: t.line(), column: t.col() });
    }
    let mut idx: usize = 0;
    while idx < n
        invariant
            n == expr.len(),
            s == views(expr@),
            0 <= idx <= n,
            paren_count(s, true) == paren_count(s, false),
            first_fault(s, 0) == first_fault(s, idx as int),
        decreases n - idx,
    {
        let atom = &expr[idx];
        if atom.is_operand() {
            if idx + 1 < n {
                let next_atom = &expr[idx + 1];
                if next_atom.is_operand() || next_atom.is_paren() {
                    return Err(
                        InfixError::ExpectedOperator {
                            index: idx,
                            line: atom.line(),
                            column: atom.col(),
                        },
                    );
                }
            }
        } else if atom.is_operator() {
            if idx + 1 >= n {
                return Err(
                    InfixError::ExpectedOperand {
                        index: idx,
                        line: atom.line(),
                        column: atom.col(),
                    },
                );
            }
            let next_atom = &expr[idx + 1];
            if next_atom.is_operator() {
                return Err(
                    InfixError::ExpectedOperand {
                        index: idx,
                        line: atom.line(),
                        column: atom.col(),
                    },
                );
            }
        }
        idx += 1;
    }
    Ok(())
}

/// What one token does to the number of values on the stack, `depth`: an operand
/// adds one; a parenthesis is an error; every other token takes two and gives one.
pub open spec fn rpn_step(depth: nat, t: TokenView, index: int) -> Result<nat, RpnError> {
    if t.kind.is_operand() {
        Ok(depth + 1)
    } else if t.kind is LPar {
        Err(
            RpnError::StrayParen {
                left: true,
                index: index as usize,
                line: t.line,
                column: t.column,
            },
        )
    } else if t.kind is RPar {
        Err(
            RpnError::StrayParen {
                left: false,
                index: index as usize,
                line: t.line,
                column: t.column,
            },
        )
    } else if depth < 2 {
        Err(
            RpnError::MissingOperands {
                found: depth as usize,
                index: index as usize,
                line: t.line,
                column: t.column,
            },
        )
    } else {
        Ok((depth - 1) as nat)
    }
}

/// The number of values on the stack after `s` has run on an empty stack, or the
/// first error on the way.
pub open spec fn rpn_depth(s: Seq<TokenView>) -> Result<nat, RpnError>
    decreases s.len(),
{
    if s.len() == 0 {
        Ok(0)
    } else {
        match rpn_depth(s.drop_last()) {
            Ok(depth) => rpn_step(depth, s.last(), s.len() - 1),
            Err(e) => Err(e),
        }
    }
}

/// The outcome of the postfix check: the first error of the run, or, after a run
/// without one, an error unless exactly one value is left.
pub open spec fn rpn_verdict(s: Seq<TokenView>) -> Result<(), RpnError> {
    match rpn_depth(s) {
        Ok(depth) => if depth == 1 {
            Ok(())
        } else {
            Err(RpnError::WrongResultCount { count: depth as usize })
        },
        Err(e) => Err(e),
    }
}

/// An error in a prefix is the error of the whole run.
pub proof fn lemma_rpn_error_stays(s: Seq<TokenView>, k: int)
    requires
        0 <= k <= s.len(),
        rpn_depth(s.take(k)) is Err,
    ensures
        rpn_depth(s) == rpn_depth(s.take(k)),
    decreases s.len() - k,
{
    if k < s.len() {
        assert(s.take(k + 1).drop_last() =~= s.take(k));
        lemma_rpn_error_stays(s, k + 1);
    } else {
        assert(s.take(k) =~= s);
    }
}

/// Checks a token sequence in postfix order by running it on a stack of which only
/// the depth is kept, and says why it is rejected, if it is.
pub fn check_rpn(expr: &Vec<Token>) -> (r: Result<(), RpnError>)
    ensures
        r == rpn_verdict(views(expr@)),
{
    let ghost s = views(expr@);
    let n = expr.len();
    let mut depth: usize = 0;
    let mut i: usize = 0;
    while i < n
        invariant
            n == expr.len(),
            s == views(expr@),
            0 <= i <= n,
            rpn_depth(s.take(i as int)) == Ok::<nat, RpnError>(depth as nat),
            depth <= i,
        decreases n - i,
    {
        proof {
            assert(s.take(i + 1).drop_last() =~= s.take(i as int));
        }
        let e = &expr[i];
        let failure = match e.kind() {
            TokenKind::Num(_) | TokenKind::Ident(_) => {
                depth += 1;
                None
            },
            TokenKind::LPar => Some(
                RpnError::StrayParen { left: true, index: i, line: e.line(), column: e.col() },
            ),
            TokenKind::RPar => Some(
                RpnError::StrayParen { left: false, index: i, line: e.line(), column: e.col() },
            ),
            _ => {
                if depth < 2 {
                    Some(
                        RpnError::MissingOperands {
                            found: depth,
                            index: i,
                            line: e.line(),
                            column: e.col(),
                        },
                    )
                } else {
                    depth -= 1;
                    None
                }
            },
        };
        if let Some(err) = failure {
            proof {
                lemma_rpn_error_stays(s, i + 1);
            }
            return Err(err);
        }
        i += 1;
    }
    proof {
        assert(s.take(n as int) =~= s);
    }
    if depth != 1 {
        return Err(RpnError::WrongResultCount { count: depth });
    }
    Ok(())
}

/// Whether a token sequence in postfix order passes the check.
pub fn sema_rpn(expr: &Vec<Token>) -> (ok: bool)
    ensures
        ok == (rpn_verdict(views(expr@)) is Ok),
{
    check_rpn(expr).is_ok()
}

/// Whether a token sequence in infix order passes the check.
pub fn sema_infix(expr: &Vec<Token>) -> (ok: bool)
    ensures
        ok == infix_accepted(views(expr@)),
        ok == (infix_verdict(views(expr@)) is Ok),
{
    check_infix(expr).is_ok()
}

} // verus!
