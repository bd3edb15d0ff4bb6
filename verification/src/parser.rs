//! Grammar validation and construction of the abstract syntax tree.
//!
//! The expression grammar, left-associative with `* /` binding tighter
//! than `+ -`:
//!
//! ```text
//! Expr     -> Term ExprTail
//! ExprTail -> ('+'|'-') Term ExprTail | e
//! Term     -> Factor TermTail
//! TermTail -> ('*'|'/') Factor TermTail | e
//! Factor   -> '(' Expr ')' | Number
//! ```
//!
//! `spec_expr` and its companions are the grammar itself, written as
//! specification functions from the remaining token sequence to the tree
//! parsed and the tokens left over. The executable parser mirrors them
//! one for one.

use vstd::prelude::*;
use crate::tokenizer::Token;

verus! {

/// A binary abstract-syntax-tree node: a `NUMBER` token at a leaf, an
/// `OPERATOR` token at an interior node with two children.
#[derive(Debug)]
pub struct ASTNode {
    pub token: Token,
    pub left: Option<Box<ASTNode>>,
    pub right: Option<Box<ASTNode>>,
}

/// A leaf node for a token.
pub open spec fn ast_leaf(t: Token) -> ASTNode {
    ASTNode { token: t, left: None, right: None }
}

/// An interior node for an operator and its two operands.
pub open spec fn ast_node(op: char, l: ASTNode, r: ASTNode) -> ASTNode {
    ASTNode { token: Token::OPERATOR(op), left: Some(Box::new(l)), right: Some(Box::new(r)) }
}

impl ASTNode {
    /// Move the node onto the heap.
    pub fn to_ref(self) -> (r: Box<ASTNode>)
        ensures
            *r == self,
    {
        Box::new(self)
    }
}

/// A well-formed tree: numbers at the leaves, the four operators at
/// interior nodes with both children present.
pub open spec fn wf_ast(a: ASTNode) -> bool
    decreases a,
{
    match a.token {
        Token::NUMBER(_) => a.left is None && a.right is None,
        Token::OPERATOR(op) => crate::tokenizer::is_operator_char(op) && (match (
            a.left,
            a.right,
        ) {
            (Some(l), Some(r)) => wf_ast(*l) && wf_ast(*r),
            _ => false,
        }),
        Token::PAREN(_) => false,
    }
}

/// Truncating integer division (quotient rounded toward zero), the
/// division of the stack machine.
pub open spec fn tdiv(a: int, b: int) -> int {
    if a == 0 {
        0
    } else if a > 0 && b > 0 {
        a / b
    } else if a < 0 && b < 0 {
        (a * -1) / (b * -1)
    } else if a < 0 {
        ((a * -1) / b) * -1
    } else {
        (a / (b * -1)) * -1
    }
}

/// The value a well-formed tree denotes, computed in `i64`: `None` on a
/// division by zero, on any intermediate value outside the `i64` range,
/// and on any malformed node.
pub open spec fn eval_ast(a: ASTNode) -> Option<i64>
    decreases a,
{
    match a.token {
        Token::NUMBER(n) => if a.left is None && a.right is None {
            Some(n)
        } else {
            None
        },
        Token::OPERATOR(op) => match (a.left, a.right) {
            (Some(bl), Some(br)) => match (eval_ast(*bl), eval_ast(*br)) {
                (Some(lv), Some(rv)) => {
                    if op == '+' {
                        if i64::MIN <= lv + rv <= i64::MAX {
                            Some((lv + rv) as i64)
                        } else {
                            None
                        }
                    } else if op == '-' {
                        if i64::MIN <= lv - rv <= i64::MAX {
                            Some((lv - rv) as i64)
                        } else {
                            None
                        }
                    } else if op == '*' {
                        if i64::MIN <= lv * rv <= i64::MAX {
                            Some((lv * rv) as i64)
                        } else {
                            None
                        }
                    } else if op == '/' {
                        if rv == 0 {
                            None
                        } else if i64::MIN <= tdiv(lv as int, rv as int) <= i64::MAX {
                            Some(tdiv(lv as int, rv as int) as i64)
                        } else {
                            None
                        }
                    } else {
                        None
                    }
                },
                _ => None,
            },
            _ => None,
        },
        Token::PAREN(_) => None,
    }
}

// ---------------------------------------------------------------------
// The grammar as specification functions.
//
// Each function takes the remaining token sequence and yields the tree
// parsed together with the tokens left over, or `None` when the tokens
// do not match its production. The `rest.len()` guards discharge
// termination; `lemma_parse_consumes` shows they never bite.
// ---------------------------------------------------------------------

pub open spec fn spec_factor(toks: Seq<Token>) -> Option<(ASTNode, Seq<Token>)>
    decreases toks.len(), 0int,
{
    if toks.len() == 0 {
        None
    } else {
        match toks[0] {
            Token::NUMBER(n) => Some((ast_leaf(Token::NUMBER(n)), toks.skip(1))),
            Token::PAREN(p) => if p == '(' {
                match spec_expr(toks.skip(1)) {
                    Some((a, rest)) => if rest.len() > 0 && rest[0] == Token::PAREN(')') {
                        Some((a, rest.skip(1)))
                    } else {
                        None
                    },
                    None => None,
                }
            } else {
                None
            },
            Token::OPERATOR(_) => None,
        }
    }
}

pub open spec fn spec_term_tail(acc: ASTNode, toks: Seq<Token>) -> Option<(ASTNode, Seq<Token>)>
    decreases toks.len(), 1int,
{
    if toks.len() > 0 && (toks[0] == Token::OPERATOR('*') || toks[0] == Token::OPERATOR('/')) {
        let op: char = if toks[0] == Token::OPERATOR('*') {
            '*'
        } else {
            '/'
        };
        match spec_factor(toks.skip(1)) {
            Some((f, rest)) => if rest.len() < toks.len() {
                spec_term_tail(ast_node(op, acc, f), rest)
            } else {
                None
            },
            None => None,
        }
    } else {
        Some((acc, toks))
    }
}

pub open spec fn spec_term(toks: Seq<Token>) -> Option<(ASTNode, Seq<Token>)>
    decreases toks.len(), 2int,
{
    match spec_factor(toks) {
        Some((f, rest)) => if rest.len() <= toks.len() {
            spec_term_tail(f, rest)
        } else {
            None
        },
        None => None,
    }
}

pub open spec fn spec_expr_tail(acc: ASTNode, toks: Seq<Token>) -> Option<(ASTNode, Seq<Token>)>
    decreases toks.len(), 3int,
{
    if toks.len() > 0 && (toks[0] == Token::OPERATOR('+') || toks[0] == Token::OPERATOR('-')) {
        let op: char = if toks[0] == Token::OPERATOR('+') {
            '+'
        } else {
            '-'
        };
        match spec_term(toks.skip(1)) {
            Some((t, rest)) => if rest.len() < toks.len() {
                spec_expr_tail(ast_node(op, acc, t), rest)
            } else {
                None
            },
            None => None,
        }
    } else {
        Some((acc, toks))
    }
}

pub open spec fn spec_expr(toks: Seq<Token>) -> Option<(ASTNode, Seq<Token>)>
    decreases toks.len(), 4int,
{
    match spec_term(toks) {
        Some((t, rest)) => if rest.len() <= toks.len() {
            spec_expr_tail(t, rest)
        } else {
            None
        },
        None => None,
    }
}

/// The grammar's verdict on a whole token sequence: the tree of the one
/// complete `Expr` production covering every token, or `None`.
pub open spec fn spec_parse(toks: Seq<Token>) -> Option<ASTNode> {
    match spec_expr(toks) {
        Some((a, rest)) => if rest.len() == 0 {
            Some(a)
        } else {
            None
        },
        None => None,
    }
}

// ---------------------------------------------------------------------
// The executable parser: recursive descent with one token of lookahead,
// consuming tokens strictly left to right, mirroring the specification
// functions.
// ---------------------------------------------------------------------

fn exec_factor(toks: &Vec<Token>, i: usize) -> (r: Option<(ASTNode, usize)>)
    requires
        i <= toks@.len(),
    ensures
        match r {
            Some(aj) => i < aj.1 <= toks@.len() && spec_factor(toks@.skip(i as int)) == Some(
                (aj.0, toks@.skip(aj.1 as int)),
            ),
            None => spec_factor(toks@.skip(i as int)) is None,
        },
    decreases toks@.len() - i, 0int,
{
    let ghost s = toks@.skip(i as int);
    if i >= toks.len() {
        assert(s.len() == 0);
        return None;
    }
    proof {
        assert(s[0] == toks@[i as int]);
        assert(s.skip(1) =~= toks@.skip(i as int + 1));
    }
    match toks[i] {
        Token::NUMBER(n) => Some((ASTNode { token: Token::NUMBER(n), left: None, right: None }, i + 1)),
        Token::PAREN(p) => {
            if p == '(' {
                match exec_expr(toks, i + 1) {
                    Some((a, j)) => {
                        proof {
                            assert(spec_expr(s.skip(1)) == Some((a, toks@.skip(j as int))));
                        }
                        if j < toks.len() && toks[j] == Token::PAREN(')') {
                            proof {
                                assert(toks@.skip(j as int)[0] == Token::PAREN(')'));
                                assert(toks@.skip(j as int).skip(1) =~= toks@.skip(j as int + 1));
                            }
                            Some((a, j + 1))
                        } else {
                            proof {
                                if j < toks@.len() {
                                    assert(toks@.skip(j as int)[0] == toks@[j as int]);
                                }
                            }
                            None
                        }
                    },
                    None => None,
                }
            } else {
                None
            }
        },
        Token::OPERATOR(_) => None,
    }
}

fn exec_term_tail(acc: ASTNode, toks: &Vec<Token>, i: usize) -> (r: Option<(ASTNode, usize)>)
    requires
        i <= toks@.len(),
    ensures
        match r {
            Some(aj) => i <= aj.1 <= toks@.len() && spec_term_tail(acc, toks@.skip(i as int))
                == Some((aj.0, toks@.skip(aj.1 as int))),
            None => spec_term_tail(acc, toks@.skip(i as int)) is None,
        },
    decreases toks@.len() - i, 1int,
{
    let ghost s = toks@.skip(i as int);
    proof {
        if i < toks@.len() {
            assert(s[0] == toks@[i as int]);
            assert(s.skip(1) =~= toks@.skip(i as int + 1));
        }
    }
    if i < toks.len() && (toks[i] == Token::OPERATOR('*') || toks[i] == Token::OPERATOR('/')) {
        let op: char = if toks[i] == Token::OPERATOR('*') {
            '*'
        } else {
            '/'
        };
        match exec_factor(toks, i + 1) {
            Some((f, j)) => {
                let node = ASTNode {
                    token: Token::OPERATOR(op),
                    left: Some(Box::new(acc)),
                    right: Some(Box::new(f)),
                };
                exec_term_tail(node, toks, j)
            },
            None => None,
        }
    } else {
        Some((acc, i))
    }
}

fn exec_term(toks: &Vec<Token>, i: usize) -> (r: Option<(ASTNode, usize)>)
    requires
        i <= toks@.len(),
    ensures
        match r {
            Some(aj) => i <= aj.1 <= toks@.len() && spec_term(toks@.skip(i as int)) == Some(
                (aj.0, toks@.skip(aj.1 as int)),
            ),
            None => spec_term(toks@.skip(i as int)) is None,
        },
    decreases toks@.len() - i, 2int,
{
    match exec_factor(toks, i) {
        Some((f, j)) => exec_term_tail(f, toks, j),
        None => None,
    }
}

fn exec_expr_tail(acc: ASTNode, toks: &Vec<Token>, i: usize) -> (r: Option<(ASTNode, usize)>)
    requires
        i <= toks@.len(),
    ensures
        match r {
            Some(aj) => i <= aj.1 <= toks@.len() && spec_expr_tail(acc, toks@.skip(i as int))
                == Some((aj.0, toks@.skip(aj.1 as int))),
            None => spec_expr_tail(acc, toks@.skip(i as int)) is None,
        },
    decreases toks@.len() - i, 3int,
{
    let ghost s = toks@.skip(i as int);
    proof {
        if i < toks@.len() {
            assert(s[0] == toks@[i as int]);
            assert(s.skip(1) =~= toks@.skip(i as int + 1));
        }
    }
    if i < toks.len() && (toks[i] == Token::OPERATOR('+') || toks[i] == Token::OPERATOR('-')) {
        let op: char = if toks[i] == Token::OPERATOR('+') {
            '+'
        } else {
            '-'
        };
        match exec_term(toks, i + 1) {
            Some((t, j)) => {
                let node = ASTNode {
                    token: Token::OPERATOR(op),
                    left: Some(Box::new(acc)),
                    right: Some(Box::new(t)),
                };
                exec_expr_tail(node, toks, j)
            },
            None => None,
        }
    } else {
        Some((acc, i))
    }
}

fn exec_expr(toks: &Vec<Token>, i: usize) -> (r: Option<(ASTNode, usize)>)
    requires
        i <= toks@.len(),
    ensures
        match r {
            Some(aj) => i <= aj.1 <= toks@.len() && spec_expr(toks@.skip(i as int)) == Some(
                (aj.0, toks@.skip(aj.1 as int)),
            ),
            None => spec_expr(toks@.skip(i as int)) is None,
        },
    decreases toks@.len() - i, 4int,
{
    match exec_term(toks, i) {
        Some((t, j)) => exec_expr_tail(t, toks, j),
        None => None,
    }
}

/// Parse a token sequence into its abstract syntax tree: `Some` exactly
/// when the tokens form one complete expression, and then the tree whose
/// shape follows operator precedence and left-associativity.
pub fn parse_ast(token: Vec<Token>) -> (r: Option<ASTNode>)
    ensures
        r == spec_parse(token@),
{
    proof {
        assert(token@.skip(0) =~= token@);
    }
    match exec_expr(&token, 0) {
        Some((a, j)) => {
            if j == token.len() {
                proof {
                    assert(token@.skip(j as int).len() == 0);
                }
                Some(a)
            } else {
                proof {
                    assert(token@.skip(j as int).len() > 0);
                }
                None
            }
        },
        None => None,
    }
}

/// Validate a token sequence against the expression grammar: `true`
/// exactly when it is one complete `Expr` production followed by the end
/// of the input.
pub fn parse(tokens: Vec<Token>) -> (b: bool)
    ensures
        b == (spec_parse(tokens@) is Some),
{
    parse_ast(tokens).is_some()
}

// ---------------------------------------------------------------------
// The alternate formulation: conversion to postfix (reverse Polish)
// order by operator priorities, and a tree built back from the postfix
// sequence over a stack of subtrees.
// ---------------------------------------------------------------------

/// The operator-precedence table, highest first: `)` above numbers above
/// `* /` above `+ -` above `(`.
pub open spec fn token_priority(t: Token) -> u8 {
    match t {
        Token::NUMBER(_) => 5,
        Token::PAREN(p) => if p == '(' {
            1
        } else {
            6
        },
        Token::OPERATOR(op) => if op == '+' || op == '-' {
            2
        } else {
            3
        },
    }
}

impl Token {
    /// The token's priority in the postfix conversion.
    pub fn get_token_priority(&self) -> (p: u8)
        ensures
            p == token_priority(*self),
    {
        match self {
            Token::NUMBER(_) => 5,
            Token::PAREN(paren) => {
                if *paren == '(' {
                    1
                } else {
                    6
                }
            },
            Token::OPERATOR(op) => {
                if *op == '+' || *op == '-' {
                    2
                } else {
                    3
                }
            },
        }
    }
}

/// Pop every stack-top token of priority at least `p`: the stack left,
/// and the tokens popped in pop order.
pub open spec fn pop_ge(stack: Seq<Token>, p: u8) -> (Seq<Token>, Seq<Token>)
    decreases stack.len(),
{
    if stack.len() == 0 {
        (stack, Seq::<Token>::empty())
    } else {
        let top = stack.last();
        if token_priority(top) >= p {
            let r = pop_ge(stack.drop_last(), p);
            (r.0, seq![top] + r.1)
        } else {
            (stack, Seq::<Token>::empty())
        }
    }
}

/// Pop down to and through the nearest `(`: the stack left, and the
/// popped operators in pop order; parentheses are discarded, never
/// emitted.
pub open spec fn pop_to_lparen(stack: Seq<Token>) -> (Seq<Token>, Seq<Token>)
    decreases stack.len(),
{
    if stack.len() == 0 {
        (stack, Seq::<Token>::empty())
    } else {
        let top = stack.last();
        match top {
            Token::PAREN(p) => if p == '(' {
                (stack.drop_last(), Seq::<Token>::empty())
            } else {
                pop_to_lparen(stack.drop_last())
            },
            _ => {
                let r = pop_to_lparen(stack.drop_last());
                (r.0, seq![top] + r.1)
            },
        }
    }
}

/// One step of the postfix conversion on the state (operator stack,
/// output so far).
pub open spec fn convert_step(st: (Seq<Token>, Seq<Token>), t: Token) -> (Seq<Token>, Seq<Token>) {
    match t {
        Token::NUMBER(_) => (st.0, st.1.push(t)),
        Token::OPERATOR(_) => {
            let r = pop_ge(st.0, token_priority(t));
            (r.0.push(t), st.1 + r.1)
        },
        Token::PAREN(p) => if p == '(' {
            (st.0.push(t), st.1)
        } else {
            let r = pop_to_lparen(st.0);
            (r.0, st.1 + r.1)
        },
    }
}

pub open spec fn convert_run(st: (Seq<Token>, Seq<Token>), toks: Seq<Token>) -> (
    Seq<Token>,
    Seq<Token>,
)
    decreases toks.len(),
{
    if toks.len() == 0 {
        st
    } else {
        convert_run(convert_step(st, toks[0]), toks.skip(1))
    }
}

/// What `convert` returns: the output of the run over all tokens, with
/// whatever remains on the operator stack flushed onto it in pop order.
pub open spec fn spec_convert(toks: Seq<Token>) -> Seq<Token> {
    let st = convert_run((Seq::<Token>::empty(), Seq::<Token>::empty()), toks);
    st.1 + st.0.reverse()
}

/// Convert an infix token sequence to postfix (reverse Polish) order:
/// numbers pass straight to the output; an operator first moves every
/// stack-top operator of priority at least its own to the output; `(`
/// is stacked and `)` moves the stack to the output down to the
/// matching `(`; parentheses themselves are never emitted. At the end
/// the remaining stack is flushed to the output.
pub fn convert(token: Vec<Token>) -> (r: Vec<Token>)
    ensures
        r@ == spec_convert(token@),
{
    let ghost init = (Seq::<Token>::empty(), Seq::<Token>::empty());
    let mut stack: Vec<Token> = Vec::new();
    let mut output: Vec<Token> = Vec::new();
    let n = token.len();
    let mut i: usize = 0;
    proof {
        assert(token@.skip(0) =~= token@);
    }
    while i < n
        invariant
            n == token@.len(),
            i <= n,
            convert_run((stack@, output@), token@.skip(i as int)) == convert_run(init, token@),
        decreases n - i,
    {
        let ghost s_i = token@.skip(i as int);
        let ghost old_stack = stack@;
        let ghost old_output = output@;
        proof {
            assert(s_i[0] == token@[i as int]);
            assert(s_i.skip(1) =~= token@.skip(i as int + 1));
        }
        let t = token[i];
        match t {
            Token::NUMBER(_) => {
                output.push(t);
            },
            Token::OPERATOR(_) => {
                let p = t.get_token_priority();
                let ghost out0 = output@;
                while stack.len() > 0 && stack[stack.len() - 1].get_token_priority() >= p
                    invariant
                        pop_ge(old_stack, p).0 == pop_ge(stack@, p).0,
                        out0 + pop_ge(old_stack, p).1 == output@ + pop_ge(stack@, p).1,
                    decreases stack.len(),
                {
                    let ghost prev_stack = stack@;
                    let ghost prev_output = output@;
                    let top = stack.pop().unwrap();
                    output.push(top);
                    proof {
                        assert(prev_stack.drop_last() =~= stack@);
                        assert(pop_ge(prev_stack, p).1 == seq![top] + pop_ge(stack@, p).1);
                        assert(prev_output + (seq![top] + pop_ge(stack@, p).1) =~= output@
                            + pop_ge(stack@, p).1);
                    }
                }
                proof {
                    if stack@.len() > 0 {
                        assert(stack@.last() == stack@[stack@.len() - 1]);
                    }
                    assert(pop_ge(stack@, p) == (stack@, Seq::<Token>::empty()));
                    assert(out0 + pop_ge(old_stack, p).1 =~= output@);
                }
                stack.push(t);
            },
            Token::PAREN(paren) => {
                if paren == '(' {
                    stack.push(t);
                } else {
                    let ghost out0 = output@;
                    let mut done = false;
                    while !done && stack.len() > 0
                        invariant
                            !done ==> pop_to_lparen(old_stack).0 == pop_to_lparen(stack@).0 && out0
                                + pop_to_lparen(old_stack).1 == output@ + pop_to_lparen(stack@).1,
                            done ==> pop_to_lparen(old_stack).0 == stack@ && out0 + pop_to_lparen(
                                old_stack,
                            ).1 == output@,
                        decreases stack.len(),
                    {
                        let ghost prev_stack = stack@;
                        let ghost prev_output = output@;
                        let top = stack.pop().unwrap();
                        proof {
                            assert(prev_stack.drop_last() =~= stack@);
                            assert(prev_stack.last() == top);
                        }
                        match top {
                            Token::PAREN(q) => {
                                if q == '(' {
                                    done = true;
                                    proof {
                                        assert(pop_to_lparen(prev_stack) == (
                                            stack@,
                                            Seq::<Token>::empty(),
                                        ));
                                        assert(prev_output + Seq::<Token>::empty() =~=
                                            prev_output);
                                    }
                                }
                            },
                            Token::NUMBER(_) => {
                                output.push(top);
                                proof {
                                    assert(pop_to_lparen(prev_stack).1 == seq![top]
                                        + pop_to_lparen(stack@).1);
                                    assert(prev_output + (seq![top] + pop_to_lparen(stack@).1) =~=
                                        output@ + pop_to_lparen(stack@).1);
                                }
                            },
                            Token::OPERATOR(_) => {
                                output.push(top);
                                proof {
                                    assert(pop_to_lparen(prev_stack).1 == seq![top]
                                        + pop_to_lparen(stack@).1);
                                    assert(prev_output + (seq![top] + pop_to_lparen(stack@).1) =~=
                                        output@ + pop_to_lparen(stack@).1);
                                }
                            },
                        }
                    }
                    proof {
                        if !done {
                            assert(stack@.len() == 0);
                            assert(pop_to_lparen(stack@) == (stack@, Seq::<Token>::empty()));
                            assert(out0 + pop_to_lparen(old_stack).1 =~= output@);
                        }
                    }
                }
            },
        }
        proof {
            assert((stack@, output@) == convert_step((old_stack, old_output), t));
            assert(convert_run((old_stack, old_output), s_i) == convert_run(
                (stack@, output@),
                token@.skip(i as int + 1),
            ));
        }
        i = i + 1;
    }
    proof {
        assert(token@.skip(n as int) =~= Seq::<Token>::empty());
    }
    // Flush the remaining operator stack onto the output.
    let ghost flushed_stack = stack@;
    let ghost flushed_output = output@;
    while stack.len() > 0
        invariant
            flushed_output + flushed_stack.reverse() == output@ + stack@.reverse(),
        decreases stack.len(),
    {
        let ghost prev_stack = stack@;
        let ghost prev_output = output@;
        let top = stack.pop().unwrap();
        output.push(top);
        proof {
            assert(prev_stack.drop_last() =~= stack@);
            assert(prev_stack.reverse() =~= seq![top] + stack@.reverse());
            assert(prev_output + (seq![top] + stack@.reverse()) =~= output@ + stack@.reverse());
        }
    }
    proof {
        assert(stack@.reverse() =~= Seq::<Token>::empty());
        assert(output@ + Seq::<Token>::empty() =~= output@);
        assert(flushed_output + flushed_stack.reverse() =~= output@);
    }
    output
}

/// One step of rebuilding a tree from postfix order: a non-operator
/// token becomes a leaf on the stack; an operator pops its right then
/// its left subtree (either may be absent when the postfix sequence is
/// malformed) and pushes the combined node.
pub open spec fn build_step(stack: Seq<ASTNode>, t: Token) -> Seq<ASTNode> {
    match t {
        Token::OPERATOR(_) => {
            let right = if stack.len() >= 1 {
                Some(Box::new(stack.last()))
            } else {
                None
            };
            let s1 = if stack.len() >= 1 {
                stack.drop_last()
            } else {
                stack
            };
            let left = if s1.len() >= 1 {
                Some(Box::new(s1.last()))
            } else {
                None
            };
            let s2 = if s1.len() >= 1 {
                s1.drop_last()
            } else {
                s1
            };
            s2.push(ASTNode { token: t, left, right })
        },
        _ => stack.push(ast_leaf(t)),
    }
}

pub open spec fn build_run(stack: Seq<ASTNode>, toks: Seq<Token>) -> Seq<ASTNode>
    decreases toks.len(),
{
    if toks.len() == 0 {
        stack
    } else {
        build_run(build_step(stack, toks[0]), toks.skip(1))
    }
}

/// What `build_ast` returns: the bottom of the subtree stack after the
/// whole postfix sequence is consumed, or `None` when it is empty.
pub open spec fn spec_build(toks: Seq<Token>) -> Option<ASTNode> {
    let s = build_run(Seq::<ASTNode>::empty(), toks);
    if s.len() == 0 {
        None
    } else {
        Some(s[0])
    }
}

/// Build a binary abstract syntax tree from a postfix (reverse Polish)
/// token sequence over a stack of subtrees. On a well-formed postfix
/// sequence — which `convert` yields for every grammatically valid
/// token sequence — the stack ends holding exactly the one result tree.
pub fn build_ast(token: Vec<Token>) -> (r: Option<ASTNode>)
    ensures
        r == spec_build(token@),
{
    let mut stack: Vec<ASTNode> = Vec::new();
    let n = token.len();
    let mut i: usize = 0;
    proof {
        assert(token@.skip(0) =~= token@);
    }
    while i < n
        invariant
            n == token@.len(),
            i <= n,
            build_run(stack@, token@.skip(i as int)) == build_run(
                Seq::<ASTNode>::empty(),
                token@,
            ),
        decreases n - i,
    {
        let ghost s_i = token@.skip(i as int);
        let ghost old_stack = stack@;
        proof {
            assert(s_i[0] == token@[i as int]);
            assert(s_i.skip(1) =~= token@.skip(i as int + 1));
        }
        let t = token[i];
        match t {
            Token::OPERATOR(_) => {
                let ghost st0 = stack@;
                let right = match stack.pop() {
                    Some(a) => Some(Box::new(a)),
                    None => None,
                };
                let ghost st1 = stack@;
                let left = match stack.pop() {
                    Some(a) => Some(Box::new(a)),
                    None => None,
                };
                proof {
                    if st0.len() >= 1 {
                        assert(st0.drop_last() =~= st1);
                    }
                    if st1.len() >= 1 {
                        assert(st1.drop_last() =~= stack@);
                    }
                }
                stack.push(ASTNode { token: t, left, right });
                proof {
                    assert(stack@ == build_step(old_stack, t));
                }
            },
            Token::NUMBER(_) => {
                stack.push(ASTNode { token: t, left: None, right: None });
            },
            Token::PAREN(_) => {
                stack.push(ASTNode { token: t, left: None, right: None });
            },
        }
        proof {
            assert(stack@ == build_step(old_stack, t));
        }
        i = i + 1;
    }
    proof {
        assert(token@.skip(n as int) =~= Seq::<Token>::empty());
    }
    if stack.len() == 0 {
        None
    } else {
        let first = stack.remove(0);
        proof {
            assert(build_run(Seq::<ASTNode>::empty(), token@)[0] == first);
        }
        Some(first)
    }
}

} // verus!
