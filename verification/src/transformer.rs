//! Code generation: an abstract syntax tree to stack-machine
//! instruction text.
//!
//! The wire format is one instruction per line, newline-separated, with
//! no trailing newline: `push <integer>`, `add`, `sub`, `mul`, `div`,
//! `ret`.

use vstd::prelude::*;
use crate::decimal::dec_str;
use crate::parser::ASTNode;
use crate::tokenizer::Token;

verus! {

/// The keyword and separating space of a `push` line.
pub open spec fn kw_push() -> Seq<char> {
    seq!['p', 'u', 's', 'h', ' ']
}

pub open spec fn line_add() -> Seq<char> {
    seq!['a', 'd', 'd']
}

pub open spec fn line_sub() -> Seq<char> {
    seq!['s', 'u', 'b']
}

pub open spec fn line_mul() -> Seq<char> {
    seq!['m', 'u', 'l']
}

pub open spec fn line_div() -> Seq<char> {
    seq!['d', 'i', 'v']
}

pub open spec fn line_ret() -> Seq<char> {
    seq!['r', 'e', 't']
}

/// The instruction line for one `push` of a value.
pub open spec fn push_line(n: i64) -> Seq<char> {
    kw_push() + dec_str(n as int)
}

/// The instruction lines a single node emits for itself: one line for a
/// number or one of the four operators, none for anything else.
pub open spec fn node_lines(t: Token) -> Seq<Seq<char>> {
    match t {
        Token::NUMBER(n) => seq![push_line(n)],
        Token::OPERATOR(op) => if op == '+' {
            seq![line_add()]
        } else if op == '-' {
            seq![line_sub()]
        } else if op == '*' {
            seq![line_mul()]
        } else if op == '/' {
            seq![line_div()]
        } else {
            seq![]
        },
        Token::PAREN(_) => seq![],
    }
}

/// The instruction lines of a whole tree: post-order — left subtree,
/// right subtree, then the node's own line.
pub open spec fn spec_codes(a: ASTNode) -> Seq<Seq<char>>
    decreases a,
{
    (match a.left {
        Some(l) => spec_codes(*l),
        None => seq![],
    }) + (match a.right {
        Some(r) => spec_codes(*r),
        None => seq![],
    }) + node_lines(a.token)
}

/// Lines joined by a newline between each pair, no trailing newline.
pub open spec fn join_lines(lines: Seq<Seq<char>>) -> Seq<char>
    decreases lines.len(),
{
    if lines.len() == 0 {
        seq![]
    } else if lines.len() == 1 {
        lines[0]
    } else {
        lines[0] + seq!['\n'] + join_lines(lines.skip(1))
    }
}

/// Every line followed by a newline.
pub open spec fn lines_text(lines: Seq<Seq<char>>) -> Seq<char>
    decreases lines.len(),
{
    if lines.len() == 0 {
        seq![]
    } else {
        lines[0] + seq!['\n'] + lines_text(lines.skip(1))
    }
}

/// What `transform` returns: the tree's post-order instruction lines
/// with a final `ret`, joined by newlines.
pub open spec fn spec_transform(a: ASTNode) -> Seq<char> {
    join_lines(spec_codes(a).push(line_ret()))
}

pub proof fn lemma_lines_text_concat(a: Seq<Seq<char>>, b: Seq<Seq<char>>)
    ensures
        lines_text(a + b) == lines_text(a) + lines_text(b),
    decreases a.len(),
{
    if a.len() == 0 {
        assert(a + b =~= b);
        assert(lines_text(a) + lines_text(b) =~= lines_text(b));
    } else {
        lemma_lines_text_concat(a.skip(1), b);
        assert((a + b).skip(1) =~= a.skip(1) + b);
        assert((a + b)[0] == a[0]);
        assert(lines_text(a + b) == a[0] + seq!['\n'] + (lines_text(a.skip(1)) + lines_text(b)));
        assert(a[0] + seq!['\n'] + (lines_text(a.skip(1)) + lines_text(b)) =~= (a[0] + seq!['\n']
            + lines_text(a.skip(1))) + lines_text(b));
    }
}

/// Joining lines with a final extra line equals terminating every
/// earlier line with a newline and appending the last.
pub proof fn lemma_join_push(lines: Seq<Seq<char>>, last: Seq<char>)
    ensures
        join_lines(lines.push(last)) == lines_text(lines) + last,
    decreases lines.len(),
{
    if lines.len() == 0 {
        assert(lines.push(last).len() == 1);
        assert(lines.push(last)[0] == last);
        assert(lines_text(lines) + last =~= last);
    } else {
        lemma_join_push(lines.skip(1), last);
        assert(lines.push(last).skip(1) =~= lines.skip(1).push(last));
        assert(lines.push(last)[0] == lines[0]);
        assert(join_lines(lines.push(last)) == lines[0] + seq!['\n'] + (lines_text(lines.skip(1))
            + last));
        assert(lines[0] + seq!['\n'] + (lines_text(lines.skip(1)) + last) =~= (lines[0]
            + seq!['\n'] + lines_text(lines.skip(1))) + last);
    }
}

/// Append one three-letter mnemonic line and its newline.
fn emit3(c0: char, c1: char, c2: char, codes: &mut Vec<char>)
    ensures
        final(codes)@ == old(codes)@ + seq![c0, c1, c2] + seq!['\n'],
{
    let ghost base = codes@;
    codes.push(c0);
    codes.push(c1);
    codes.push(c2);
    codes.push('\n');
    proof {
        assert(codes@ =~= base + seq![c0, c1, c2] + seq!['\n']);
    }
}

/// Append one `push` line and its newline.
fn emit_push(num: i64, codes: &mut Vec<char>)
    ensures
        final(codes)@ == old(codes)@ + push_line(num) + seq!['\n'],
{
    let ghost base = codes@;
    codes.push('p');
    codes.push('u');
    codes.push('s');
    codes.push('h');
    codes.push(' ');
    let ghost with_kw = codes@;
    proof {
        assert(with_kw =~= base + kw_push());
    }
    let digits = crate::decimal::i64_to_chars(num);
    let dn = digits.len();
    let mut k: usize = 0;
    while k < dn
        invariant
            dn == digits@.len(),
            k <= dn,
            digits@ == dec_str(num as int),
            codes@ == with_kw + digits@.take(k as int),
        decreases dn - k,
    {
        codes.push(digits[k]);
        proof {
            assert(digits@.take(k as int + 1) =~= digits@.take(k as int).push(
                digits@[k as int],
            ));
            assert(with_kw + digits@.take(k as int + 1) =~= codes@);
        }
        k = k + 1;
    }
    codes.push('\n');
    proof {
        assert(digits@.take(dn as int) =~= digits@);
        assert(codes@ =~= base + push_line(num) + seq!['\n']);
    }
}

/// The text of a single node's own lines: its one line with its
/// newline, or nothing.
proof fn lemma_lines_text_single(lines: Seq<Seq<char>>)
    requires
        lines.len() == 1,
    ensures
        lines_text(lines) == lines[0] + seq!['\n'],
{
    assert(lines.skip(1) =~= Seq::<Seq<char>>::empty());
    assert(lines_text(lines) == lines[0] + seq!['\n'] + lines_text(Seq::<Seq<char>>::empty()));
    assert(lines[0] + seq!['\n'] + Seq::<char>::empty() =~= lines[0] + seq!['\n']);
}

/// Post-order emission: the left subtree's lines, the right subtree's
/// lines, then the node's own line, each appended to `codes` with its
/// terminating newline.
fn internal_transform(ast: &ASTNode, codes: &mut Vec<char>)
    ensures
        final(codes)@ == old(codes)@ + lines_text(spec_codes(*ast)),
    decreases *ast,
{
    let ghost base = codes@;
    let ghost c_left: Seq<Seq<char>> = match &ast.left {
        Some(l) => spec_codes(**l),
        None => seq![],
    };
    let ghost c_right: Seq<Seq<char>> = match &ast.right {
        Some(r) => spec_codes(**r),
        None => seq![],
    };
    match &ast.left {
        Some(b) => internal_transform(&*b, codes),
        None => {
            proof {
                assert(codes@ =~= base + lines_text(c_left));
            }
        },
    }
    let ghost after_left = codes@;
    match &ast.right {
        Some(b) => internal_transform(&*b, codes),
        None => {
            proof {
                assert(codes@ =~= after_left + lines_text(c_right));
            }
        },
    }
    let ghost after_right = codes@;
    match ast.token {
        Token::NUMBER(num) => {
            emit_push(num, codes);
            proof {
                lemma_lines_text_single(node_lines(ast.token));
                assert(codes@ =~= after_right + lines_text(node_lines(ast.token)));
            }
        },
        Token::OPERATOR(op) => {
            if op == '+' {
                emit3('a', 'd', 'd', codes);
            } else if op == '-' {
                emit3('s', 'u', 'b', codes);
            } else if op == '*' {
                emit3('m', 'u', 'l', codes);
            } else if op == '/' {
                emit3('d', 'i', 'v', codes);
            }
            proof {
                if op == '+' || op == '-' || op == '*' || op == '/' {
                    lemma_lines_text_single(node_lines(ast.token));
                    assert(codes@ =~= after_right + lines_text(node_lines(ast.token)));
                } else {
                    assert(node_lines(ast.token) =~= Seq::<Seq<char>>::empty());
                    assert(codes@ =~= after_right + lines_text(node_lines(ast.token)));
                }
            }
        },
        Token::PAREN(_) => {
            proof {
                assert(node_lines(ast.token) =~= Seq::<Seq<char>>::empty());
                assert(codes@ =~= after_right + lines_text(node_lines(ast.token)));
            }
        },
    }
    proof {
        lemma_lines_text_concat(c_left, c_right);
        lemma_lines_text_concat(c_left + c_right, node_lines(ast.token));
        assert(spec_codes(*ast) == c_left + c_right + node_lines(ast.token));
        assert(base + lines_text(c_left) + lines_text(c_right) + lines_text(node_lines(ast.token))
            =~= base + lines_text(spec_codes(*ast)));
    }
}

/// Relies on std's `FromIterator` for `String`: collecting characters
/// yields the string of exactly those characters, in order.
#[verifier::external_body]
fn chars_to_string(v: &Vec<char>) -> (r: String)
    ensures
        r@ == v@,
{
    v.iter().collect()
}

/// Compile a tree to stack-machine instruction text: the post-order
/// instruction lines of the tree, then a final `ret`, newline-joined.
pub fn transform(ast: ASTNode) -> (r: String)
    ensures
        r@ == spec_transform(ast),
{
    let mut codes: Vec<char> = Vec::new();
    internal_transform(&ast, &mut codes);
    let ghost body = codes@;
    codes.push('r');
    codes.push('e');
    codes.push('t');
    proof {
        lemma_join_push(spec_codes(ast), line_ret());
        assert(codes@ =~= body + line_ret());
        assert(Seq::<char>::empty() + lines_text(spec_codes(ast)) =~= lines_text(
            spec_codes(ast),
        ));
        assert(codes@ =~= spec_transform(ast));
    }
    chars_to_string(&codes)
}

} // verus!
