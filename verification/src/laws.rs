//! The pipeline's laws: compiled instruction text, fed to the stack
//! machine, returns exactly the value of the expression it was
//! compiled from.

use vstd::prelude::*;
use crate::decimal::{dec_digits, dec_str};
use crate::interpreter::{
    spec_execute, spec_parse_line, spec_run, split_lines, split_rec, step_outcome, Instr,
    RuntimeError,
};
use crate::parser::{ast_leaf, ast_node, eval_ast, spec_parse, wf_ast, ASTNode};
use crate::parser::{spec_expr, spec_expr_tail, spec_factor, spec_term, spec_term_tail};
use crate::parser::{
    build_run, build_step, convert_run, convert_step, pop_ge, pop_to_lparen, spec_build,
    spec_convert, token_priority,
};
use crate::tokenizer::{is_digit_char, Token};
use crate::transformer::{
    join_lines, kw_push, line_add, line_div, line_mul, line_ret, line_sub, node_lines, push_line,
    spec_codes, spec_transform,
};

verus! {

/// A line the splitter cannot cut: one with no newline in it.
pub open spec fn line_ok(l: Seq<char>) -> bool {
    forall|k: int| 0 <= k < l.len() ==> l[k] != '\n'
}

pub open spec fn lines_ok(ls: Seq<Seq<char>>) -> bool {
    forall|j: int| 0 <= j < ls.len() ==> line_ok(#[trigger] ls[j])
}

proof fn lemma_split_no_newline(s: Seq<char>, cur: Seq<char>)
    requires
        line_ok(s),
    ensures
        split_rec(s, cur) == seq![cur + s],
    decreases s.len(),
{
    if s.len() == 0 {
        assert(cur + s =~= cur);
    } else {
        assert(s[0] != '\n');
        assert(line_ok(s.skip(1))) by {
            assert(forall|k: int| 0 <= k < s.skip(1).len() ==> s.skip(1)[k] == s[k + 1]);
        }
        lemma_split_no_newline(s.skip(1), cur.push(s[0]));
        assert(cur.push(s[0]) + s.skip(1) =~= cur + s);
    }
}

proof fn lemma_split_head(a: Seq<char>, t: Seq<char>, cur: Seq<char>)
    requires
        line_ok(a),
    ensures
        split_rec(a + seq!['\n'] + t, cur) == seq![cur + a] + split_rec(t, seq![]),
    decreases a.len(),
{
    let s = a + seq!['\n'] + t;
    if a.len() == 0 {
        assert(s[0] == '\n');
        assert(s.skip(1) =~= t);
        assert(cur + a =~= cur);
    } else {
        assert(s[0] == a[0] && a[0] != '\n');
        assert(line_ok(a.skip(1))) by {
            assert(forall|k: int| 0 <= k < a.skip(1).len() ==> a.skip(1)[k] == a[k + 1]);
        }
        lemma_split_head(a.skip(1), t, cur.push(a[0]));
        assert(s.skip(1) =~= a.skip(1) + seq!['\n'] + t);
        assert(cur.push(a[0]) + a.skip(1) =~= cur + a);
    }
}

/// Splitting inverts joining, for lines the splitter cannot cut.
proof fn lemma_split_join(lines: Seq<Seq<char>>)
    requires
        lines.len() >= 1,
        lines_ok(lines),
    ensures
        split_lines(join_lines(lines)) == lines,
    decreases lines.len(),
{
    if lines.len() == 1 {
        assert(join_lines(lines) == lines[0]);
        assert(line_ok(lines[0]));
        lemma_split_no_newline(lines[0], seq![]);
        assert(Seq::<char>::empty() + lines[0] =~= lines[0]);
        assert(seq![Seq::<char>::empty() + lines[0]] =~= lines);
    } else {
        assert(line_ok(lines[0]));
        assert(lines_ok(lines.skip(1))) by {
            assert(forall|j: int| 0 <= j < lines.skip(1).len() ==> lines.skip(1)[j] == lines[j
                + 1]);
        }
        lemma_split_join(lines.skip(1));
        lemma_split_head(lines[0], join_lines(lines.skip(1)), seq![]);
        assert(join_lines(lines) == lines[0] + seq!['\n'] + join_lines(lines.skip(1)));
        assert(Seq::<char>::empty() + lines[0] =~= lines[0]);
        assert(seq![lines[0]] + lines.skip(1) =~= lines);
    }
}

proof fn lemma_dec_digits_line_ok(n: nat)
    ensures
        line_ok(dec_digits(n)),
{
    crate::decimal::lemma_dec_str_all_digits(n);
    assert forall|k: int| 0 <= k < dec_digits(n).len() implies dec_digits(n)[k] != '\n' by {
        assert(is_digit_char(dec_digits(n)[k]));
    }
}

proof fn lemma_push_line_ok(n: i64)
    ensures
        line_ok(push_line(n)),
        push_line(n).len() >= 6,
{
    if n < 0 {
        lemma_dec_digits_line_ok((-(n as int)) as nat);
        crate::decimal::lemma_dec_str_all_digits((-(n as int)) as nat);
    } else {
        lemma_dec_digits_line_ok(n as nat);
        crate::decimal::lemma_dec_str_all_digits(n as nat);
    }
    assert forall|k: int| 0 <= k < push_line(n).len() implies push_line(n)[k] != '\n' by {
        if k >= 5 {
            assert(push_line(n)[k] == dec_str(n as int)[k - 5]);
        }
    }
}

/// Every line the code generator emits is free of newlines.
proof fn lemma_codes_lines_ok(a: ASTNode)
    ensures
        lines_ok(spec_codes(a)),
    decreases a,
{
    let cl: Seq<Seq<char>> = match a.left {
        Some(l) => spec_codes(*l),
        None => seq![],
    };
    let cr: Seq<Seq<char>> = match a.right {
        Some(r) => spec_codes(*r),
        None => seq![],
    };
    match a.left {
        Some(l) => lemma_codes_lines_ok(*l),
        None => {},
    }
    match a.right {
        Some(r) => lemma_codes_lines_ok(*r),
        None => {},
    }
    match a.token {
        Token::NUMBER(n) => {
            lemma_push_line_ok(n);
        },
        _ => {},
    }
    assert(lines_ok(node_lines(a.token)));
    assert forall|j: int| 0 <= j < spec_codes(a).len() implies line_ok(
        #[trigger] spec_codes(a)[j],
    ) by {
        if j < cl.len() {
            assert(spec_codes(a)[j] == cl[j]);
        } else if j < cl.len() + cr.len() {
            assert(spec_codes(a)[j] == cr[j - cl.len()]);
        } else {
            assert(spec_codes(a)[j] == node_lines(a.token)[j - cl.len() - cr.len()]);
        }
    }
}

/// A `push` line decodes back to its push.
proof fn lemma_parse_push_line(n: i64)
    ensures
        spec_parse_line(push_line(n)) == Some(Instr::Push(n)),
{
    lemma_push_line_ok(n);
    let pl = push_line(n);
    assert(pl.take(5) =~= kw_push());
    assert(pl.skip(5) =~= dec_str(n as int));
    crate::decimal::lemma_parse_dec(n);
}

proof fn lemma_parse_mnemonics()
    ensures
        spec_parse_line(line_add()) == Some(Instr::Add),
        spec_parse_line(line_sub()) == Some(Instr::Sub),
        spec_parse_line(line_mul()) == Some(Instr::Mul),
        spec_parse_line(line_div()) == Some(Instr::Div),
        spec_parse_line(line_ret()) == Some(Instr::Ret),
{
    assert(line_add().len() == 3 && line_sub().len() == 3 && line_mul().len() == 3 && line_div().len()
        == 3 && line_ret().len() == 3);
    assert(line_sub()[0] == 's' && line_add()[0] == 'a');
    assert(line_mul()[0] == 'm');
    assert(line_div()[0] == 'd' && line_div()[1] == 'i' && line_add()[1] == 'd' && line_sub()[1]
        == 'u' && line_mul()[1] == 'u');
    assert(line_ret()[0] == 'r');
}

/// The machine runs the post-order code of a tree to exactly the
/// tree's value: after those lines, the run continues on `rest` with
/// the value pushed.
proof fn lemma_codes_run(a: ASTNode, rest: Seq<Seq<char>>, stack: Seq<i64>)
    requires
        wf_ast(a),
        eval_ast(a) is Some,
    ensures
        spec_run(spec_codes(a) + rest, stack) == spec_run(rest, stack.push(eval_ast(a)->Some_0)),
    decreases a,
{
    match a.token {
        Token::NUMBER(n) => {
            assert(spec_codes(a) =~= seq![push_line(n)]);
            let lines = spec_codes(a) + rest;
            assert(lines[0] == push_line(n));
            lemma_parse_push_line(n);
            assert(step_outcome(lines[0], stack) == Ok::<Seq<i64>, Result<i64, RuntimeError>>(
                stack.push(n),
            ));
            assert(lines.skip(1) =~= rest);
        },
        Token::OPERATOR(op) => {
            let bl = a.left->Some_0;
            let br = a.right->Some_0;
            let cl = spec_codes(*bl);
            let cr = spec_codes(*br);
            let opl = node_lines(a.token);
            let lv = eval_ast(*bl)->Some_0;
            let rv = eval_ast(*br)->Some_0;
            let v = eval_ast(a)->Some_0;
            assert(op == '+' || op == '-' || op == '*' || op == '/');
            assert(spec_codes(a) + rest =~= cl + (cr + (opl + rest)));
            lemma_codes_run(*bl, cr + (opl + rest), stack);
            lemma_codes_run(*br, opl + rest, stack.push(lv));
            let st2 = stack.push(lv).push(rv);
            lemma_parse_mnemonics();
            let lines = opl + rest;
            assert(lines[0] == opl[0]);
            assert(st2.len() >= 2);
            assert(st2.last() == rv);
            assert(st2[st2.len() - 2] == lv);
            assert(st2.drop_last().drop_last() =~= stack);
            if op == '+' {
                assert(opl[0] == line_add());
                assert(step_outcome(lines[0], st2) == Ok::<Seq<i64>, Result<i64, RuntimeError>>(
                    stack.push(v),
                ));
            } else if op == '-' {
                assert(opl[0] == line_sub());
                assert(step_outcome(lines[0], st2) == Ok::<Seq<i64>, Result<i64, RuntimeError>>(
                    stack.push(v),
                ));
            } else if op == '*' {
                assert(opl[0] == line_mul());
                assert(step_outcome(lines[0], st2) == Ok::<Seq<i64>, Result<i64, RuntimeError>>(
                    stack.push(v),
                ));
            } else {
                assert(opl[0] == line_div());
                assert(rv != 0);
                assert(step_outcome(lines[0], st2) == Ok::<Seq<i64>, Result<i64, RuntimeError>>(
                    stack.push(v),
                ));
            }
            assert(lines.skip(1) =~= rest);
        },
        Token::PAREN(_) => {
            assert(false);
        },
    }
}

// ---------------------------------------------------------------------
// Trees the grammar yields are well formed.
// ---------------------------------------------------------------------

proof fn lemma_factor_wf(toks: Seq<Token>)
    ensures
        spec_factor(toks) matches Some(ar) ==> wf_ast(ar.0),
    decreases toks.len(), 0int,
{
    if toks.len() > 0 {
        match toks[0] {
            Token::PAREN(p) => if p == '(' {
                lemma_expr_wf(toks.skip(1));
            },
            _ => {},
        }
    }
}

proof fn lemma_term_tail_wf(acc: ASTNode, toks: Seq<Token>)
    requires
        wf_ast(acc),
    ensures
        spec_term_tail(acc, toks) matches Some(ar) ==> wf_ast(ar.0),
    decreases toks.len(), 1int,
{
    if toks.len() > 0 && (toks[0] == Token::OPERATOR('*') || toks[0] == Token::OPERATOR('/')) {
        let op: char = if toks[0] == Token::OPERATOR('*') {
            '*'
        } else {
            '/'
        };
        lemma_factor_wf(toks.skip(1));
        match spec_factor(toks.skip(1)) {
            Some((f, rest)) => {
                if rest.len() < toks.len() {
                    assert(wf_ast(ast_node(op, acc, f)));
                    lemma_term_tail_wf(ast_node(op, acc, f), rest);
                }
            },
            None => {},
        }
    }
}

proof fn lemma_term_wf(toks: Seq<Token>)
    ensures
        spec_term(toks) matches Some(ar) ==> wf_ast(ar.0),
    decreases toks.len(), 2int,
{
    lemma_factor_wf(toks);
    match spec_factor(toks) {
        Some((f, rest)) => {
            if rest.len() <= toks.len() {
                lemma_term_tail_wf(f, rest);
            }
        },
        None => {},
    }
}

proof fn lemma_expr_tail_wf(acc: ASTNode, toks: Seq<Token>)
    requires
        wf_ast(acc),
    ensures
        spec_expr_tail(acc, toks) matches Some(ar) ==> wf_ast(ar.0),
    decreases toks.len(), 3int,
{
    if toks.len() > 0 && (toks[0] == Token::OPERATOR('+') || toks[0] == Token::OPERATOR('-')) {
        let op: char = if toks[0] == Token::OPERATOR('+') {
            '+'
        } else {
            '-'
        };
        lemma_term_wf(toks.skip(1));
        match spec_term(toks.skip(1)) {
            Some((t, rest)) => {
                if rest.len() < toks.len() {
                    assert(wf_ast(ast_node(op, acc, t)));
                    lemma_expr_tail_wf(ast_node(op, acc, t), rest);
                }
            },
            None => {},
        }
    }
}

proof fn lemma_expr_wf(toks: Seq<Token>)
    ensures
        spec_expr(toks) matches Some(ar) ==> wf_ast(ar.0),
    decreases toks.len(), 4int,
{
    lemma_term_wf(toks);
    match spec_term(toks) {
        Some((t, rest)) => {
            if rest.len() <= toks.len() {
                lemma_expr_tail_wf(t, rest);
            }
        },
        None => {},
    }
}

/// Every tree the grammar accepts is well formed: numbers at the
/// leaves, the four operators inside, both children always present.
pub proof fn lemma_parse_wf(toks: Seq<Token>)
    ensures
        spec_parse(toks) matches Some(a) ==> wf_ast(a),
{
    lemma_expr_wf(toks);
}

/// The round trip: compiling a well-formed tree and executing the text
/// returns exactly the tree's value, whenever that value is defined —
/// no division by zero and no intermediate value outside `i64`.
pub proof fn lemma_round_trip(a: ASTNode)
    requires
        wf_ast(a),
        eval_ast(a) is Some,
    ensures
        spec_execute(spec_transform(a)) == Ok::<i64, RuntimeError>(eval_ast(a)->Some_0),
{
    let v = eval_ast(a)->Some_0;
    let lines = spec_codes(a).push(line_ret());
    lemma_codes_lines_ok(a);
    assert(lines_ok(lines)) by {
        assert(forall|j: int| 0 <= j < spec_codes(a).len() ==> lines[j] == spec_codes(a)[j]);
        assert(lines[lines.len() - 1] == line_ret());
    }
    lemma_split_join(lines);
    assert(split_lines(spec_transform(a)) == lines);
    assert(lines =~= spec_codes(a) + seq![line_ret()]);
    lemma_codes_run(a, seq![line_ret()], Seq::<i64>::empty());
    let st = Seq::<i64>::empty().push(v);
    lemma_parse_mnemonics();
    assert(seq![line_ret()][0] == line_ret());
    assert(st.len() == 1 && st.last() == v);
    assert(step_outcome(seq![line_ret()][0], st) == Err::<Seq<i64>, Result<i64, RuntimeError>>(
        Ok(v),
    ));
    assert(spec_run(seq![line_ret()], st) == Ok::<i64, RuntimeError>(v));
}

// ---------------------------------------------------------------------
// The two formulations agree: converting a grammatical token sequence
// to postfix order and rebuilding a tree from it yields exactly the
// tree the recursive-descent parser yields.
// ---------------------------------------------------------------------

/// A tree's tokens in postfix (reverse Polish) order: left subtree,
/// right subtree, then the node's own token.
pub open spec fn post_tokens(a: ASTNode) -> Seq<Token>
    decreases a,
{
    (match a.left {
        Some(l) => post_tokens(*l),
        None => seq![],
    }) + (match a.right {
        Some(r) => post_tokens(*r),
        None => seq![],
    }) + seq![a.token]
}

/// Pending operators on the conversion stack, all of priority at least
/// `p`.
pub open spec fn ops_at_least(ops: Seq<Token>, p: u8) -> bool {
    forall|i: int| 0 <= i < ops.len() ==> (#[trigger] ops[i]) is OPERATOR && token_priority(
        ops[i],
    ) >= p
}

proof fn lemma_pop_ge_all(s: Seq<Token>, ops: Seq<Token>, p: u8)
    requires
        ops_at_least(ops, p),
        s.len() == 0 || token_priority(s.last()) < p,
    ensures
        pop_ge(s + ops, p) == (s, ops.reverse()),
    decreases ops.len(),
{
    if ops.len() == 0 {
        assert(s + ops =~= s);
        assert(ops.reverse() =~= Seq::<Token>::empty());
        if s.len() > 0 {
            assert(token_priority((s + ops).last()) < p);
        }
    } else {
        assert((s + ops).last() == ops.last());
        assert(token_priority(ops.last()) >= p);
        assert((s + ops).drop_last() =~= s + ops.drop_last());
        assert(ops_at_least(ops.drop_last(), p)) by {
            assert(forall|i: int| 0 <= i < ops.drop_last().len() ==> ops.drop_last()[i]
                == ops[i]);
        }
        lemma_pop_ge_all(s, ops.drop_last(), p);
        assert(seq![ops.last()] + ops.drop_last().reverse() =~= ops.reverse());
    }
}

proof fn lemma_pop_to_lparen_all(s: Seq<Token>, ops: Seq<Token>)
    requires
        forall|i: int| 0 <= i < ops.len() ==> (#[trigger] ops[i]) is OPERATOR,
    ensures
        pop_to_lparen(s.push(Token::PAREN('(')) + ops) == (s, ops.reverse()),
    decreases ops.len(),
{
    let st = s.push(Token::PAREN('(')) + ops;
    if ops.len() == 0 {
        assert(st =~= s.push(Token::PAREN('(')));
        assert(st.last() == Token::PAREN('('));
        assert(st.drop_last() =~= s);
        assert(ops.reverse() =~= Seq::<Token>::empty());
    } else {
        assert(st.last() == ops.last());
        assert(ops.last() is OPERATOR);
        assert(st.drop_last() =~= s.push(Token::PAREN('(')) + ops.drop_last());
        assert(forall|i: int| 0 <= i < ops.drop_last().len() ==> ops.drop_last()[i] == ops[i]);
        lemma_pop_to_lparen_all(s, ops.drop_last());
        assert(seq![ops.last()] + ops.drop_last().reverse() =~= ops.reverse());
    }
}

proof fn lemma_conv_factor(toks: Seq<Token>, a: ASTNode, rest: Seq<Token>, t: Seq<Token>, o: Seq<Token>)
    requires
        spec_factor(toks) == Some((a, rest)),
    ensures
        convert_run((t, o), toks) == convert_run((t, o + post_tokens(a)), rest),
    decreases toks.len(), 0int,
{
    match toks[0] {
        Token::NUMBER(n) => {
            assert(convert_step((t, o), toks[0]) == (t, o.push(toks[0])));
            assert(a == ast_leaf(Token::NUMBER(n)));
            assert(post_tokens(a) =~= seq![toks[0]]);
            assert(o.push(toks[0]) =~= o + post_tokens(a));
        },
        Token::PAREN(p) => {
            // '(' is stacked; the inner expression runs with it on top;
            // ')' pops the pending operators and discards the '('.
            let pair = spec_expr(toks.skip(1))->Some_0;
            let a2 = pair.0;
            let rest1 = pair.1;
            assert(a2 == a);
            assert(convert_step((t, o), toks[0]) == (t.push(toks[0]), o));
            let t2 = t.push(Token::PAREN('('));
            assert(t2.last() == Token::PAREN('(') && token_priority(t2.last()) == 1);
            let r = lemma_conv_expr(toks.skip(1), a, rest1, t2, o, o);
            assert(rest1[0] == Token::PAREN(')'));
            assert(convert_run((t2, o), toks.skip(1)) == convert_run((t2 + r.0, r.1), rest1));
            assert(forall|i: int| 0 <= i < r.0.len() ==> (#[trigger] r.0[i]) is OPERATOR);
            lemma_pop_to_lparen_all(t, r.0);
            assert(convert_step((t2 + r.0, r.1), rest1[0]) == (t, r.1 + r.0.reverse()));
            assert(r.1 + r.0.reverse() == o + post_tokens(a));
            assert(convert_run((t2 + r.0, r.1), rest1) == convert_run(
                (t, o + post_tokens(a)),
                rest1.skip(1),
            ));
            assert(rest == rest1.skip(1));
        },
        Token::OPERATOR(_) => {
            assert(false);
        },
    }
}

proof fn lemma_conv_term_tail(
    acc: ASTNode,
    toks: Seq<Token>,
    a: ASTNode,
    rest: Seq<Token>,
    s: Seq<Token>,
    pend: Seq<Token>,
    o: Seq<Token>,
    obase: Seq<Token>,
) -> (r: (Seq<Token>, Seq<Token>))
    requires
        spec_term_tail(acc, toks) == Some((a, rest)),
        s.len() == 0 || token_priority(s.last()) <= 2,
        ops_at_least(pend, 3),
        o + pend.reverse() == obase + post_tokens(acc),
    ensures
        ops_at_least(r.0, 3),
        r.1 + r.0.reverse() == obase + post_tokens(a),
        convert_run((s + pend, o), toks) == convert_run((s + r.0, r.1), rest),
    decreases toks.len(), 1int,
{
    if toks.len() > 0 && (toks[0] == Token::OPERATOR('*') || toks[0] == Token::OPERATOR('/')) {
        let op: char = if toks[0] == Token::OPERATOR('*') {
            '*'
        } else {
            '/'
        };
        let pair = spec_factor(toks.skip(1))->Some_0;
        let f = pair.0;
        let rest1 = pair.1;
        assert(token_priority(toks[0]) == 3);
        lemma_pop_ge_all(s, pend, 3);
        assert(convert_step((s + pend, o), toks[0]) == (s.push(toks[0]), o + pend.reverse()));
        let t2 = s.push(toks[0]);
        let o2 = o + pend.reverse();
        assert(o2 == obase + post_tokens(acc));
        lemma_conv_factor(toks.skip(1), f, rest1, t2, o2);
        let acc2 = ast_node(op, acc, f);
        assert(post_tokens(acc2) =~= post_tokens(acc) + post_tokens(f) + seq![toks[0]]);
        assert((o2 + post_tokens(f)) + seq![toks[0]].reverse() =~= obase + post_tokens(acc2));
        assert(ops_at_least(seq![toks[0]], 3));
        assert(t2 =~= s + seq![toks[0]]);
        let r = lemma_conv_term_tail(acc2, rest1, a, rest, s, seq![toks[0]], o2 + post_tokens(f), obase);
        assert(convert_run((s + pend, o), toks) == convert_run((t2, o2), toks.skip(1)));
        r
    } else {
        assert(a == acc && rest == toks);
        (pend, o)
    }
}

proof fn lemma_conv_term(
    toks: Seq<Token>,
    a: ASTNode,
    rest: Seq<Token>,
    s: Seq<Token>,
    o: Seq<Token>,
) -> (r: (Seq<Token>, Seq<Token>))
    requires
        spec_term(toks) == Some((a, rest)),
        s.len() == 0 || token_priority(s.last()) <= 2,
    ensures
        ops_at_least(r.0, 3),
        r.1 + r.0.reverse() == o + post_tokens(a),
        convert_run((s, o), toks) == convert_run((s + r.0, r.1), rest),
    decreases toks.len(), 2int,
{
    let pair = spec_factor(toks)->Some_0;
    let f = pair.0;
    let rest0 = pair.1;
    lemma_conv_factor(toks, f, rest0, s, o);
    assert(s + Seq::<Token>::empty() =~= s);
    assert((o + post_tokens(f)) + Seq::<Token>::empty().reverse() =~= o + post_tokens(f));
    lemma_conv_term_tail(f, rest0, a, rest, s, Seq::<Token>::empty(), o + post_tokens(f), o)
}

#[verifier::rlimit(100)]
proof fn lemma_conv_expr_tail(
    acc: ASTNode,
    toks: Seq<Token>,
    a: ASTNode,
    rest: Seq<Token>,
    s: Seq<Token>,
    pend: Seq<Token>,
    o: Seq<Token>,
    obase: Seq<Token>,
) -> (r: (Seq<Token>, Seq<Token>))
    requires
        spec_expr_tail(acc, toks) == Some((a, rest)),
        s.len() == 0 || token_priority(s.last()) <= 1,
        ops_at_least(pend, 2),
        o + pend.reverse() == obase + post_tokens(acc),
    ensures
        ops_at_least(r.0, 2),
        r.1 + r.0.reverse() == obase + post_tokens(a),
        convert_run((s + pend, o), toks) == convert_run((s + r.0, r.1), rest),
    decreases toks.len(), 3int,
{
    if toks.len() > 0 && (toks[0] == Token::OPERATOR('+') || toks[0] == Token::OPERATOR('-')) {
        let op: char = if toks[0] == Token::OPERATOR('+') {
            '+'
        } else {
            '-'
        };
        let pair = spec_term(toks.skip(1))->Some_0;
        let tm = pair.0;
        let rest1 = pair.1;
        assert(token_priority(toks[0]) == 2);
        lemma_pop_ge_all(s, pend, 2);
        assert(convert_step((s + pend, o), toks[0]) == (s.push(toks[0]), o + pend.reverse()));
        let t2 = s.push(toks[0]);
        let o2 = o + pend.reverse();
        assert(o2 == obase + post_tokens(acc));
        assert(token_priority(t2.last()) == 2);
        let r3 = lemma_conv_term(toks.skip(1), tm, rest1, t2, o2);
        let acc2 = ast_node(op, acc, tm);
        let pend2 = seq![toks[0]] + r3.0;
        assert(ops_at_least(pend2, 2)) by {
            assert(forall|i: int| 1 <= i < pend2.len() ==> pend2[i] == r3.0[i - 1]);
        }
        assert(t2 + r3.0 =~= s + pend2);
        assert(post_tokens(acc2) =~= post_tokens(acc) + post_tokens(tm) + seq![toks[0]]);
        assert(pend2.reverse() =~= r3.0.reverse() + seq![toks[0]]);
        assert(r3.1 + pend2.reverse() =~= (r3.1 + r3.0.reverse()) + seq![toks[0]]);
        assert((o2 + post_tokens(tm)) + seq![toks[0]] =~= obase + post_tokens(acc2));
        assert(r3.1 + pend2.reverse() == obase + post_tokens(acc2));
        let r = lemma_conv_expr_tail(acc2, rest1, a, rest, s, pend2, r3.1, obase);
        assert(convert_run((s + pend, o), toks) == convert_run((t2, o2), toks.skip(1)));
        r
    } else {
        assert(a == acc && rest == toks);
        (pend, o)
    }
}

proof fn lemma_conv_expr(
    toks: Seq<Token>,
    a: ASTNode,
    rest: Seq<Token>,
    s: Seq<Token>,
    o: Seq<Token>,
    obase: Seq<Token>,
) -> (r: (Seq<Token>, Seq<Token>))
    requires
        spec_expr(toks) == Some((a, rest)),
        s.len() == 0 || token_priority(s.last()) <= 1,
        o == obase,
    ensures
        ops_at_least(r.0, 2),
        r.1 + r.0.reverse() == obase + post_tokens(a),
        convert_run((s, o), toks) == convert_run((s + r.0, r.1), rest),
    decreases toks.len(), 4int,
{
    let pair = spec_term(toks)->Some_0;
    let tm = pair.0;
    let rest0 = pair.1;
    let r3 = lemma_conv_term(toks, tm, rest0, s, o);
    lemma_conv_expr_tail(tm, rest0, a, rest, s, r3.0, r3.1, obase)
}

/// Conversion of a grammatical token sequence yields exactly the
/// postfix order of its tree.
pub proof fn lemma_convert_postfix(toks: Seq<Token>, a: ASTNode)
    requires
        spec_parse(toks) == Some(a),
    ensures
        spec_convert(toks) == post_tokens(a),
{
    let pair = spec_expr(toks)->Some_0;
    let rest = pair.1;
    assert(rest.len() == 0);
    let r = lemma_conv_expr(
        toks,
        a,
        rest,
        Seq::<Token>::empty(),
        Seq::<Token>::empty(),
        Seq::<Token>::empty(),
    );
    assert(rest =~= Seq::<Token>::empty());
    assert(convert_run((Seq::<Token>::empty() + r.0, r.1), rest) == (
        Seq::<Token>::empty() + r.0,
        r.1,
    ));
    assert(Seq::<Token>::empty() + r.0 =~= r.0);
    assert(Seq::<Token>::empty() + post_tokens(a) =~= post_tokens(a));
    assert(spec_convert(toks) == r.1 + r.0.reverse());
}

/// Rebuilding from a well-formed tree's postfix order pushes exactly
/// that tree.
proof fn lemma_build_post(a: ASTNode, stack: Seq<ASTNode>, more: Seq<Token>)
    requires
        wf_ast(a),
    ensures
        build_run(stack, post_tokens(a) + more) == build_run(stack.push(a), more),
    decreases a,
{
    match a.token {
        Token::NUMBER(n) => {
            let toks = post_tokens(a) + more;
            assert(post_tokens(a) =~= seq![a.token]);
            assert(toks[0] == a.token);
            assert(build_step(stack, a.token) == stack.push(ast_leaf(a.token)));
            assert(a == ast_leaf(a.token));
            assert(toks.skip(1) =~= more);
        },
        Token::OPERATOR(op) => {
            let bl = a.left->Some_0;
            let br = a.right->Some_0;
            let toks = post_tokens(a) + more;
            assert(post_tokens(a) =~= post_tokens(*bl) + post_tokens(*br) + seq![a.token]);
            assert(toks =~= post_tokens(*bl) + (post_tokens(*br) + (seq![a.token] + more)));
            lemma_build_post(*bl, stack, post_tokens(*br) + (seq![a.token] + more));
            lemma_build_post(*br, stack.push(*bl), seq![a.token] + more);
            let st2 = stack.push(*bl).push(*br);
            assert((seq![a.token] + more)[0] == a.token);
            assert(st2.len() >= 2);
            assert(st2.last() == *br);
            assert(st2.drop_last() =~= stack.push(*bl));
            assert(st2.drop_last().last() == *bl);
            assert(st2.drop_last().drop_last() =~= stack);
            assert(build_step(st2, a.token) == stack.push(
                ASTNode {
                    token: a.token,
                    left: Some(Box::new(*bl)),
                    right: Some(Box::new(*br)),
                },
            ));
            assert(a == ASTNode {
                token: a.token,
                left: Some(Box::new(*bl)),
                right: Some(Box::new(*br)),
            });
            assert((seq![a.token] + more).skip(1) =~= more);
        },
        Token::PAREN(_) => {
            assert(false);
        },
    }
}

/// The two formulations of the parser agree: postfix conversion and
/// stack rebuild yield exactly the tree of the recursive-descent
/// grammar, on every token sequence the grammar accepts.
pub proof fn lemma_postfix_equivalence(toks: Seq<Token>, a: ASTNode)
    requires
        spec_parse(toks) == Some(a),
    ensures
        spec_build(spec_convert(toks)) == Some(a),
{
    lemma_convert_postfix(toks, a);
    lemma_parse_wf(toks);
    lemma_build_post(a, Seq::<ASTNode>::empty(), Seq::<Token>::empty());
    assert(post_tokens(a) + Seq::<Token>::empty() =~= post_tokens(a));
    assert(build_run(Seq::<ASTNode>::empty().push(a), Seq::<Token>::empty()) == Seq::<
        ASTNode,
    >::empty().push(a));
    assert(build_run(Seq::<ASTNode>::empty(), post_tokens(a))[0] == a);
}

/// The whole pipeline: a token sequence the grammar accepts, compiled
/// and executed, returns exactly its tree's value, whenever that value
/// is defined.
pub proof fn lemma_compile_execute(toks: Seq<Token>, a: ASTNode)
    requires
        spec_parse(toks) == Some(a),
        eval_ast(a) is Some,
    ensures
        spec_execute(spec_transform(a)) == Ok::<i64, RuntimeError>(eval_ast(a)->Some_0),
{
    lemma_parse_wf(toks);
    lemma_round_trip(a);
}

} // verus!
