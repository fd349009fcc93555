//! Integer expressions in cells: a stack machine that reads numbers,
//! prefix and infix operators and parentheses from left to right, with no
//! precedence between operators.
//!
//! Arithmetic wraps around at 64 bits and shift amounts are taken modulo 64;
//! a division or remainder by zero makes the expression fail.

use crate::dts::lexer::{
    at, byte_at, eat_junk, eat_junk_at, integer, integer_at, lemma_eat_junk, lemma_integer,
};
use vstd::prelude::*;

verus! {

/// A binary operator.
#[derive(Debug, Clone, Copy, PartialEq, Eq, Structural)]
pub enum OprInfix {
    Multiply,
    Divide,
    Modulus,
    Add,
    Subtract,
    LeftShift,
    RightShift,
    Lesser,
    Greater,
    LesserEqual,
    GreaterEqual,
    Equal,
    NotEqual,
    BitAnd,
    BitXor,
    BitOr,
    And,
    Or,
}

/// A unary operator.
#[derive(Debug, Clone, Copy, PartialEq, Eq, Structural)]
pub enum OprPrefix {
    Negate,
    BitNot,
    Not,
}

/// An entry of the evaluation stack.
#[derive(Debug, Clone, Copy, PartialEq, Eq, Structural)]
pub enum Token {
    Number(u64),
    Prefix(OprPrefix),
    Infix(OprInfix),
    Paren,
}

pub open spec fn flag(b: bool) -> u64 {
    if b {
        1
    } else {
        0
    }
}

/// What a binary operator gives.
pub open spec fn infix_value(op: OprInfix, a: u64, b: u64) -> u64 {
    match op {
        OprInfix::Multiply => a.wrapping_mul(b),
        OprInfix::Divide => (a / b) as u64,
        OprInfix::Modulus => (a % b) as u64,
        OprInfix::Add => a.wrapping_add(b),
        OprInfix::Subtract => a.wrapping_sub(b),
        OprInfix::LeftShift => a.wrapping_shl((b % 64) as u32),
        OprInfix::RightShift => a.wrapping_shr((b % 64) as u32),
        OprInfix::Lesser => flag(a < b),
        OprInfix::Greater => flag(a > b),
        OprInfix::LesserEqual => flag(a <= b),
        OprInfix::GreaterEqual => flag(a >= b),
        OprInfix::Equal => flag(a == b),
        OprInfix::NotEqual => flag(a != b),
        OprInfix::BitAnd => a & b,
        OprInfix::BitXor => a ^ b,
        OprInfix::BitOr => a | b,
        OprInfix::And => flag(a != 0 && b != 0),
        OprInfix::Or => flag(a != 0 || b != 0),
    }
}

/// A division or remainder by zero.
pub open spec fn divides_by_zero(op: OprInfix, b: u64) -> bool {
    (op == OprInfix::Divide || op == OprInfix::Modulus) && b == 0
}

/// What a binary operator gives, `None` for a division by zero.
pub open spec fn infix_result(op: OprInfix, a: u64, b: u64) -> Option<u64> {
    if divides_by_zero(op, b) {
        None
    } else {
        Some(infix_value(op, a, b))
    }
}

/// What a unary operator gives.
pub open spec fn prefix_value(op: OprPrefix, a: u64) -> u64 {
    match op {
        OprPrefix::Negate => 0u64.wrapping_sub(a),
        OprPrefix::BitNot => a ^ u64::MAX,
        OprPrefix::Not => flag(a == 0),
    }
}

impl OprInfix {
    /// Applies the operator.
    pub fn apply(&self, a: u64, b: u64) -> (r: u64)
        requires
            !divides_by_zero(*self, b),
        ensures
            r == infix_value(*self, a, b),
    {
        match *self {
            OprInfix::Multiply => a.wrapping_mul(b),
            OprInfix::Divide => a / b,
            OprInfix::Modulus => a % b,
            OprInfix::Add => a.wrapping_add(b),
            OprInfix::Subtract => a.wrapping_sub(b),
            OprInfix::LeftShift => a.wrapping_shl((b % 64) as u32),
            OprInfix::RightShift => a.wrapping_shr((b % 64) as u32),
            OprInfix::Lesser => if a < b {
                1
            } else {
                0
            },
            OprInfix::Greater => if a > b {
                1
            } else {
                0
            },
            OprInfix::LesserEqual => if a <= b {
                1
            } else {
                0
            },
            OprInfix::GreaterEqual => if a >= b {
                1
            } else {
                0
            },
            OprInfix::Equal => if a == b {
                1
            } else {
                0
            },
            OprInfix::NotEqual => if a != b {
                1
            } else {
                0
            },
            OprInfix::BitAnd => a & b,
            OprInfix::BitXor => a ^ b,
            OprInfix::BitOr => a | b,
            OprInfix::And => if a != 0 && b != 0 {
                1
            } else {
                0
            },
            OprInfix::Or => if a != 0 || b != 0 {
                1
            } else {
                0
            },
        }
    }
}

impl OprPrefix {
    /// Applies the operator.
    pub fn apply(&self, a: u64) -> (r: u64)
        ensures
            r == prefix_value(*self, a),
    {
        match *self {
            OprPrefix::Negate => 0u64.wrapping_sub(a),
            OprPrefix::BitNot => a ^ u64::MAX,
            OprPrefix::Not => if a == 0 {
                1
            } else {
                0
            },
        }
    }
}

/// The bytes `a` then `b` stand at `p`.
pub open spec fn at2(s: Seq<u8>, p: nat, a: char, b: char) -> bool {
    at(s, p, a as u8) && at(s, p + 1, b as u8)
}

/// A binary operator at `p`; two-byte operators are tried first.
pub open spec fn opr_infix(s: Seq<u8>, p: nat) -> Option<(OprInfix, nat)> {
    if at2(s, p, '<', '<') {
        Some((OprInfix::LeftShift, p + 2))
    } else if at2(s, p, '>', '>') {
        Some((OprInfix::RightShift, p + 2))
    } else if at2(s, p, '<', '=') {
        Some((OprInfix::LesserEqual, p + 2))
    } else if at2(s, p, '>', '=') {
        Some((OprInfix::GreaterEqual, p + 2))
    } else if at2(s, p, '=', '=') {
        Some((OprInfix::Equal, p + 2))
    } else if at2(s, p, '!', '=') {
        Some((OprInfix::NotEqual, p + 2))
    } else if at2(s, p, '&', '&') {
        Some((OprInfix::And, p + 2))
    } else if at2(s, p, '|', '|') {
        Some((OprInfix::Or, p + 2))
    } else if at(s, p, '*' as u8) {
        Some((OprInfix::Multiply, p + 1))
    } else if at(s, p, '/' as u8) {
        Some((OprInfix::Divide, p + 1))
    } else if at(s, p, '%' as u8) {
        Some((OprInfix::Modulus, p + 1))
    } else if at(s, p, '+' as u8) {
        Some((OprInfix::Add, p + 1))
    } else if at(s, p, '-' as u8) {
        Some((OprInfix::Subtract, p + 1))
    } else if at(s, p, '<' as u8) {
        Some((OprInfix::Lesser, p + 1))
    } else if at(s, p, '>' as u8) {
        Some((OprInfix::Greater, p + 1))
    } else if at(s, p, '&' as u8) {
        Some((OprInfix::BitAnd, p + 1))
    } else if at(s, p, '^' as u8) {
        Some((OprInfix::BitXor, p + 1))
    } else if at(s, p, '|' as u8) {
        Some((OprInfix::BitOr, p + 1))
    } else {
        None
    }
}

/// A unary operator at `p`.
pub open spec fn opr_prefix(s: Seq<u8>, p: nat) -> Option<(OprPrefix, nat)> {
    if at(s, p, '!' as u8) {
        Some((OprPrefix::Not, p + 1))
    } else if at(s, p, '~' as u8) {
        Some((OprPrefix::BitNot, p + 1))
    } else if at(s, p, '-' as u8) {
        Some((OprPrefix::Negate, p + 1))
    } else {
        None
    }
}

fn both_at(s: &[u8], p: usize, a: u8, b: u8) -> (r: bool)
    requires
        p <= s.len(),
    ensures
        r == (at(s@, p as nat, a) && at(s@, (p + 1) as nat, b)),
{
    byte_at(s, p, a) && byte_at(s, p + 1, b)
}

/// Reads a binary operator.
pub fn opr_infix_at(s: &[u8], p: usize) -> (r: Option<(OprInfix, usize)>)
    requires
        p <= s.len(),
    ensures
        match r {
            Some((o, q)) => opr_infix(s@, p as nat) == Some((o, q as nat)),
            None => opr_infix(s@, p as nat) is None,
        },
{
    if both_at(s, p, '<' as u8, '<' as u8) {
        Some((OprInfix::LeftShift, p + 2))
    } else if both_at(s, p, '>' as u8, '>' as u8) {
        Some((OprInfix::RightShift, p + 2))
    } else if both_at(s, p, '<' as u8, '=' as u8) {
        Some((OprInfix::LesserEqual, p + 2))
    } else if both_at(s, p, '>' as u8, '=' as u8) {
        Some((OprInfix::GreaterEqual, p + 2))
    } else if both_at(s, p, '=' as u8, '=' as u8) {
        Some((OprInfix::Equal, p + 2))
    } else if both_at(s, p, '!' as u8, '=' as u8) {
        Some((OprInfix::NotEqual, p + 2))
    } else if both_at(s, p, '&' as u8, '&' as u8) {
        Some((OprInfix::And, p + 2))
    } else if both_at(s, p, '|' as u8, '|' as u8) {
        Some((OprInfix::Or, p + 2))
    } else if byte_at(s, p, '*' as u8) {
        Some((OprInfix::Multiply, p + 1))
    } else if byte_at(s, p, '/' as u8) {
        Some((OprInfix::Divide, p + 1))
    } else if byte_at(s, p, '%' as u8) {
        Some((OprInfix::Modulus, p + 1))
    } else if byte_at(s, p, '+' as u8) {
        Some((OprInfix::Add, p + 1))
    } else if byte_at(s, p, '-' as u8) {
        Some((OprInfix::Subtract, p + 1))
    } else if byte_at(s, p, '<' as u8) {
        Some((OprInfix::Lesser, p + 1))
    } else if byte_at(s, p, '>' as u8) {
        Some((OprInfix::Greater, p + 1))
    } else if byte_at(s, p, '&' as u8) {
        Some((OprInfix::BitAnd, p + 1))
    } else if byte_at(s, p, '^' as u8) {
        Some((OprInfix::BitXor, p + 1))
    } else if byte_at(s, p, '|' as u8) {
        Some((OprInfix::BitOr, p + 1))
    } else {
        None
    }
}

/// Reads a unary operator.
pub fn opr_prefix_at(s: &[u8], p: usize) -> (r: Option<(OprPrefix, usize)>)
    requires
        p <= s.len(),
    ensures
        match r {
            Some((o, q)) => opr_prefix(s@, p as nat) == Some((o, q as nat)),
            None => opr_prefix(s@, p as nat) is None,
        },
{
    if byte_at(s, p, '!' as u8) {
        Some((OprPrefix::Not, p + 1))
    } else if byte_at(s, p, '~' as u8) {
        Some((OprPrefix::BitNot, p + 1))
    } else if byte_at(s, p, '-' as u8) {
        Some((OprPrefix::Negate, p + 1))
    } else {
        None
    }
}

// ---------------------------------------------------------------------------
// The stack machine
// ---------------------------------------------------------------------------

/// The outcome of one step of the machine.
pub enum Step {
    /// Go on from this position with this stack.
    Continue(Seq<Token>, nat),
    /// The expression ends: its value and the position of what follows.
    Done(u64, nat),
    /// The input is no expression.
    Fail,
}

/// The stack holds exactly one number, `a`.
pub open spec fn single_number(st: Seq<Token>) -> Option<u64> {
    if st.len() == 1 {
        match st[0] {
            Token::Number(a) => Some(a),
            _ => None,
        }
    } else {
        None
    }
}

/// The top of the stack is a number.
pub open spec fn number_on_top(st: Seq<Token>) -> bool {
    st.len() > 0 && st.last() is Number
}

/// Places a number on the stack: after a parenthesis or on an empty stack
/// it is pushed; a pending unary operator, or a binary operator with its
/// left operand below it, is applied to it. `None` where a number stands
/// on top, a binary operator has no number below it, or it divides by zero.
pub open spec fn place_number(st: Seq<Token>, num: u64) -> Option<Seq<Token>> {
    if st.len() == 0 {
        Some(seq![Token::Number(num)])
    } else {
        match st.last() {
            Token::Paren => Some(st.push(Token::Number(num))),
            Token::Prefix(x) => Some(st.drop_last().push(Token::Number(prefix_value(x, num)))),
            Token::Infix(x) => {
                let r = st.drop_last();
                if r.len() > 0 {
                    match r.last() {
                        Token::Number(a) => match infix_result(x, a, num) {
                            Some(v) => Some(r.drop_last().push(Token::Number(v))),
                            None => None,
                        },
                        _ => None,
                    }
                } else {
                    None
                }
            },
            Token::Number(_) => None,
        }
    }
}

/// Ends the expression at `p` if the stack holds one number, else fails.
pub open spec fn finish(st: Seq<Token>, p: nat) -> Step {
    match single_number(st) {
        Some(a) => Step::Done(a, p),
        None => Step::Fail,
    }
}

/// A term starts at `p`: a parenthesis, a unary operator or an integer.
pub open spec fn term_starts(s: Seq<u8>, p: nat) -> bool {
    at(s, p, '(' as u8) || opr_prefix(s, p) is Some || integer(s, p) is Some
}

/// The stack holds an open parenthesis.
pub open spec fn has_paren(st: Seq<Token>) -> bool {
    exists|i: int| 0 <= i < st.len() && st[i] is Paren
}

/// A number `num` read at `p`, ending at `q`.
pub open spec fn number_step(st: Seq<Token>, num: u64, p: nat, q: nat) -> Step {
    if number_on_top(st) {
        finish(st, p)
    } else {
        match place_number(st, num) {
            Some(st2) => Step::Continue(st2, q),
            None => Step::Fail,
        }
    }
}

/// A binary operator `tok` read at `p`, ending at `q`. Outside parentheses a
/// `>` ends the expression (it closes the cell list); `>` or `&` after a lone
/// number ends it too unless a term follows. A `-` with no number before it
/// is a negation.
pub open spec fn infix_step(s: Seq<u8>, st: Seq<Token>, tok: OprInfix, p: nat, q: nat) -> Step {
    if tok == OprInfix::Greater && !has_paren(st) {
        finish(st, p)
    } else if number_on_top(st) {
        if (tok == OprInfix::Greater || tok == OprInfix::BitAnd) && st.len() == 1 && !term_starts(
            s,
            eat_junk(s, q),
        ) {
            finish(st, p)
        } else {
            Step::Continue(st.push(Token::Infix(tok)), q)
        }
    } else if tok == OprInfix::Subtract {
        Step::Continue(st.push(Token::Prefix(OprPrefix::Negate)), q)
    } else {
        Step::Fail
    }
}

/// Any other byte `c` at `p`.
pub open spec fn char_step(st: Seq<Token>, c: u8, p: nat) -> Step {
    if c == '(' as u8 {
        if number_on_top(st) {
            finish(st, p)
        } else {
            Step::Continue(st.push(Token::Paren), p + 1)
        }
    } else if c == ')' as u8 {
        if st.len() >= 2 && st.last() is Number && st[st.len() - 2] is Paren {
            let num = st.last()->Number_0;
            match place_number(st.subrange(0, st.len() - 2), num) {
                Some(st2) => Step::Continue(st2, p + 1),
                None => Step::Fail,
            }
        } else {
            Step::Fail
        }
    } else {
        finish(st, p)
    }
}

/// One step: skip junk, then read an integer, else a binary operator, else a
/// unary operator, else one byte; at the end of the input, finish.
pub open spec fn expr_step(s: Seq<u8>, p0: nat, st: Seq<Token>) -> Step {
    let p = eat_junk(s, p0);
    match integer(s, p) {
        Some((num, q)) => number_step(st, num, p, q),
        None => match opr_infix(s, p) {
            Some((tok, q)) => infix_step(s, st, tok, p, q),
            None => match opr_prefix(s, p) {
                Some((tok, q)) => if number_on_top(st) {
                    finish(st, p)
                } else {
                    Step::Continue(st.push(Token::Prefix(tok)), q)
                },
                None => if p < s.len() {
                    char_step(st, s[p as int], p)
                } else {
                    finish(st, p)
                },
            },
        },
    }
}

pub proof fn lemma_expr_step(s: Seq<u8>, p: nat, st: Seq<Token>)
    ensures
        expr_step(s, p, st) matches Step::Continue(_, q) ==> p < q <= s.len(),
        expr_step(s, p, st) matches Step::Done(_, q) ==> p <= q && (p <= s.len() ==> q <= s.len()),
{
    let p1 = eat_junk(s, p);
    lemma_eat_junk(s, p);
    lemma_integer(s, p1);
}

/// Runs the machine from `p` with stack `st`.
pub open spec fn expr_run(s: Seq<u8>, p: nat, st: Seq<Token>) -> Option<(u64, nat)>
    decreases s.len() - p,
    via expr_run_decreases
{
    match expr_step(s, p, st) {
        Step::Continue(st2, q) => expr_run(s, q, st2),
        Step::Done(v, q) => Some((v, q)),
        Step::Fail => None,
    }
}

#[via_fn]
proof fn expr_run_decreases(s: Seq<u8>, p: nat, st: Seq<Token>) {
    lemma_expr_step(s, p, st);
}

pub proof fn lemma_expr_run(s: Seq<u8>, p: nat, st: Seq<Token>)
    requires
        p <= s.len(),
    ensures
        expr_run(s, p, st) matches Some((_, q)) ==> p <= q <= s.len(),
    decreases s.len() - p,
{
    lemma_expr_step(s, p, st);
    if let Step::Continue(st2, q) = expr_step(s, p, st) {
        lemma_expr_run(s, q, st2);
    }
}

/// An integer expression at `p`: its value and the position of what
/// follows it.
pub open spec fn c_expr(s: Seq<u8>, p: nat) -> Option<(u64, nat)> {
    expr_run(s, p, seq![])
}

pub proof fn lemma_c_expr(s: Seq<u8>, p: nat)
    ensures
        c_expr(s, p) matches Some((_, q)) ==> p < q <= s.len(),
{
    let st = Seq::<Token>::empty();
    lemma_expr_step(s, p, st);
    lemma_eat_junk(s, p);
    lemma_integer(s, eat_junk(s, p));
    assert(single_number(st) is None);
    if let Step::Continue(st2, q1) = expr_step(s, p, st) {
        lemma_expr_run(s, q1, st2);
    }
}

/// The exec form of a step's outcome.
enum Flow {
    Next(usize),
    Done(u64, usize),
    Fail,
}

fn finish_at(st: &Vec<Token>, p: usize) -> (r: Flow)
    ensures
        match r {
            Flow::Done(v, q) => finish(st@, p as nat) == Step::Done(v, q as nat),
            Flow::Fail => finish(st@, p as nat) == Step::Fail,
            Flow::Next(_) => false,
        },
{
    if st.len() == 1 {
        if let Token::Number(a) = st[0] {
            return Flow::Done(a, p);
        }
    }
    Flow::Fail
}

fn top_is_number(st: &Vec<Token>) -> (r: bool)
    ensures
        r == number_on_top(st@),
{
    st.len() > 0 && matches!(st[st.len() - 1], Token::Number(_))
}

fn place_number_exec(st: &mut Vec<Token>, num: u64) -> (ok: bool)
    ensures
        ok == (place_number(old(st)@, num) is Some),
        ok ==> final(st)@ == place_number(old(st)@, num).unwrap(),
{
    if st.len() == 0 {
        st.push(Token::Number(num));
        proof {
            assert(st@ =~= seq![Token::Number(num)]);
        }
        return true;
    }
    let top = st[st.len() - 1];
    match top {
        Token::Paren => {
            st.push(Token::Number(num));
            true
        },
        Token::Prefix(x) => {
            st.pop();
            st.push(Token::Number(x.apply(num)));
            true
        },
        Token::Infix(x) => {
            st.pop();
            if st.len() == 0 {
                return false;
            }
            let below = st[st.len() - 1];
            match below {
                Token::Number(a) => {
                    if (x == OprInfix::Divide || x == OprInfix::Modulus) && num == 0 {
                        return false;
                    }
                    st.pop();
                    st.push(Token::Number(x.apply(a, num)));
                    true
                },
                _ => false,
            }
        },
        Token::Number(_) => false,
    }
}

fn has_paren_exec(st: &Vec<Token>) -> (r: bool)
    ensures
        r == has_paren(st@),
{
    let mut i: usize = 0;
    while i < st.len()
        invariant
            i <= st.len(),
            forall|j: int| 0 <= j < i ==> !(st@[j] is Paren),
        decreases st.len() - i,
    {
        if matches!(st[i], Token::Paren) {
            return true;
        }
        i = i + 1;
    }
    false
}

fn term_starts_at(s: &[u8], p: usize) -> (r: bool)
    requires
        p <= s.len(),
    ensures
        r == term_starts(s@, p as nat),
{
    byte_at(s, p, '(' as u8) || opr_prefix_at(s, p).is_some() || integer_at(s, p).is_some()
}

fn step_exec(s: &[u8], p0: usize, st: &mut Vec<Token>) -> (r: Flow)
    requires
        p0 <= s.len(),
    ensures
        match r {
            Flow::Next(q) => expr_step(s@, p0 as nat, old(st)@) == Step::Continue(
                final(st)@,
                q as nat,
            ),
            Flow::Done(v, q) => expr_step(s@, p0 as nat, old(st)@) == Step::Done(v, q as nat),
            Flow::Fail => expr_step(s@, p0 as nat, old(st)@) == Step::Fail,
        },
{
    let p = eat_junk_at(s, p0);
    proof {
        lemma_integer(s@, p as nat);
    }
    if let Some((num, q)) = integer_at(s, p) {
        if top_is_number(st) {
            return finish_at(st, p);
        }
        if place_number_exec(st, num) {
            return Flow::Next(q);
        } else {
            return Flow::Fail;
        }
    }
    if let Some((tok, q)) = opr_infix_at(s, p) {
        if tok == OprInfix::Greater && !has_paren_exec(st) {
            return finish_at(st, p);
        }
        if top_is_number(st) {
            if (tok == OprInfix::Greater || tok == OprInfix::BitAnd) && st.len() == 1 {
                let la = eat_junk_at(s, q);
                if !term_starts_at(s, la) {
                    return finish_at(st, p);
                }
            }
            st.push(Token::Infix(tok));
            return Flow::Next(q);
        } else if tok == OprInfix::Subtract {
            st.push(Token::Prefix(OprPrefix::Negate));
            return Flow::Next(q);
        } else {
            return Flow::Fail;
        }
    }
    if let Some((tok, q)) = opr_prefix_at(s, p) {
        if top_is_number(st) {
            return finish_at(st, p);
        }
        st.push(Token::Prefix(tok));
        return Flow::Next(q);
    }
    if p < s.len() {
        let c = s[p];
        if c == '(' as u8 {
            if top_is_number(st) {
                return finish_at(st, p);
            }
            st.push(Token::Paren);
            return Flow::Next(p + 1);
        } else if c == ')' as u8 {
            let n = st.len();
            if n >= 2 {
                if let Token::Number(num) = st[n - 1] {
                    if let Token::Paren = st[n - 2] {
                        let ghost before = st@;
                        st.pop();
                        st.pop();
                        proof {
                            assert(st@ =~= before.subrange(0, before.len() - 2));
                        }
                        if place_number_exec(st, num) {
                            return Flow::Next(p + 1);
                        } else {
                            return Flow::Fail;
                        }
                    }
                }
            }
            return Flow::Fail;
        } else {
            return finish_at(st, p);
        }
    }
    finish_at(st, p)
}

/// Evaluates an integer expression at `p` (`parse_c_expr`): its value and
/// the position of the byte that ended it.
pub fn parse_c_expr(s: &[u8], p: usize) -> (r: Option<(u64, usize)>)
    requires
        p <= s.len(),
    ensures
        match r {
            Some((v, q)) => c_expr(s@, p as nat) == Some((v, q as nat)),
            None => c_expr(s@, p as nat) is None,
        },
        r matches Some((_, q)) ==> p <= q <= s.len(),
{
    let mut st: Vec<Token> = Vec::new();
    let mut i = p;
    proof {
        lemma_expr_run(s@, p as nat, seq![]);
    }
    loop
        invariant
            p <= i <= s.len(),
            expr_run(s@, i as nat, st@) == c_expr(s@, p as nat),
        decreases s.len() - i,
    {
        proof {
            lemma_expr_step(s@, i as nat, st@);
        }
        match step_exec(s, i, &mut st) {
            Flow::Next(q) => {
                i = q;
            },
            Flow::Done(v, q) => {
                return Some((v, q));
            },
            Flow::Fail => {
                return None;
            },
        }
    }
}

} // verus!
