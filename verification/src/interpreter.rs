//! The stack machine: instruction text to a single `i64` result.

use vstd::prelude::*;
use crate::decimal::spec_parse_int;
use crate::parser::tdiv;
use crate::transformer::{kw_push, line_add, line_div, line_mul, line_ret, line_sub};

verus! {

/// One decoded instruction.
#[derive(Clone, Copy, Debug, PartialEq, Eq, Structural)]
pub enum Instr {
    Push(i64),
    Add,
    Sub,
    Mul,
    Div,
    Ret,
}

/// Why execution failed.
#[derive(Clone, Copy, Debug, PartialEq, Eq, Structural)]
pub enum RuntimeError {
    /// A line that is not one of the six instruction forms, or a `push`
    /// whose operand is not a 64-bit signed integer.
    ParseFailed,
    /// A pop from a stack with too few values.
    StackUnderflow,
    /// A `div` whose right operand is zero.
    DivisionByZero,
    /// An arithmetic result outside the `i64` range.
    Overflow,
    /// The instructions ran out with no `ret` executed.
    NoReturn,
}

/// Split text at every newline; the text after the last newline is a
/// line too, so the empty text is one empty line.
pub open spec fn split_rec(s: Seq<char>, cur: Seq<char>) -> Seq<Seq<char>>
    decreases s.len(),
{
    if s.len() == 0 {
        seq![cur]
    } else if s[0] == '\n' {
        seq![cur] + split_rec(s.skip(1), seq![])
    } else {
        split_rec(s.skip(1), cur.push(s[0]))
    }
}

pub open spec fn split_lines(s: Seq<char>) -> Seq<Seq<char>> {
    split_rec(s, seq![])
}

/// Decode one line: exactly `push <signed 64-bit integer>`, `add`,
/// `sub`, `mul`, `div` or `ret`, else `None`.
pub open spec fn spec_parse_line(line: Seq<char>) -> Option<Instr> {
    if line.len() >= 5 && line.take(5) == kw_push() {
        match spec_parse_int(line.skip(5)) {
            Some(v) => if i64::MIN <= v <= i64::MAX {
                Some(Instr::Push(v as i64))
            } else {
                None
            },
            None => None,
        }
    } else if line == line_add() {
        Some(Instr::Add)
    } else if line == line_sub() {
        Some(Instr::Sub)
    } else if line == line_mul() {
        Some(Instr::Mul)
    } else if line == line_div() {
        Some(Instr::Div)
    } else if line == line_ret() {
        Some(Instr::Ret)
    } else {
        None
    }
}

/// One machine step on one line: `Ok` carries the stack to go on with,
/// `Err` the final outcome — the returned value after `ret`, or the
/// error that stops execution. A binary operator pops its right operand
/// first; `div` truncates toward zero.
pub open spec fn step_outcome(line: Seq<char>, stack: Seq<i64>) -> Result<
    Seq<i64>,
    Result<i64, RuntimeError>,
> {
    match spec_parse_line(line) {
        None => Err(Err(RuntimeError::ParseFailed)),
        Some(ins) => match ins {
            Instr::Push(n) => Ok(stack.push(n)),
            Instr::Add => if stack.len() < 2 {
                Err(Err(RuntimeError::StackUnderflow))
            } else {
                let rv = stack.last();
                let lv = stack[stack.len() - 2];
                if i64::MIN <= lv + rv <= i64::MAX {
                    Ok(stack.drop_last().drop_last().push((lv + rv) as i64))
                } else {
                    Err(Err(RuntimeError::Overflow))
                }
            },
            Instr::Sub => if stack.len() < 2 {
                Err(Err(RuntimeError::StackUnderflow))
            } else {
                let rv = stack.last();
                let lv = stack[stack.len() - 2];
                if i64::MIN <= lv - rv <= i64::MAX {
                    Ok(stack.drop_last().drop_last().push((lv - rv) as i64))
                } else {
                    Err(Err(RuntimeError::Overflow))
                }
            },
            Instr::Mul => if stack.len() < 2 {
                Err(Err(RuntimeError::StackUnderflow))
            } else {
                let rv = stack.last();
                let lv = stack[stack.len() - 2];
                if i64::MIN <= lv * rv <= i64::MAX {
                    Ok(stack.drop_last().drop_last().push((lv * rv) as i64))
                } else {
                    Err(Err(RuntimeError::Overflow))
                }
            },
            Instr::Div => if stack.len() < 2 {
                Err(Err(RuntimeError::StackUnderflow))
            } else {
                let rv = stack.last();
                let lv = stack[stack.len() - 2];
                if rv == 0 {
                    Err(Err(RuntimeError::DivisionByZero))
                } else if i64::MIN <= tdiv(lv as int, rv as int) <= i64::MAX {
                    Ok(stack.drop_last().drop_last().push(tdiv(lv as int, rv as int) as i64))
                } else {
                    Err(Err(RuntimeError::Overflow))
                }
            },
            Instr::Ret => if stack.len() == 0 {
                Err(Err(RuntimeError::StackUnderflow))
            } else {
                Err(Ok(stack.last()))
            },
        },
    }
}

/// Run the machine over instruction lines in order, on an operand
/// stack: the value `ret` returns, or the first error; running out of
/// lines with no `ret` is an error of its own.
pub open spec fn spec_run(lines: Seq<Seq<char>>, stack: Seq<i64>) -> Result<i64, RuntimeError>
    decreases lines.len(),
{
    if lines.len() == 0 {
        Err(RuntimeError::NoReturn)
    } else {
        match step_outcome(lines[0], stack) {
            Ok(st) => spec_run(lines.skip(1), st),
            Err(res) => res,
        }
    }
}

/// What `execute` returns on any instruction text: the machine run over
/// its lines, starting from the empty stack.
pub open spec fn spec_execute(text: Seq<char>) -> Result<i64, RuntimeError> {
    spec_run(split_lines(text), Seq::<i64>::empty())
}

/// Decode one instruction line.
fn parse_line(line: &Vec<char>) -> (r: Option<Instr>)
    ensures
        r == spec_parse_line(line@),
{
    if line.len() >= 5 && line[0] == 'p' && line[1] == 'u' && line[2] == 's' && line[3] == 'h'
        && line[4] == ' ' {
        proof {
            assert(line@.take(5) =~= kw_push());
        }
        match crate::decimal::parse_i64(line, 5) {
            Some(v) => Some(Instr::Push(v)),
            None => None,
        }
    } else {
        proof {
            if line@.len() >= 5 {
                assert(line@.take(5)[0] == line@[0]);
                assert(line@.take(5)[1] == line@[1]);
                assert(line@.take(5)[2] == line@[2]);
                assert(line@.take(5)[3] == line@[3]);
                assert(line@.take(5)[4] == line@[4]);
            }
        }
        if line.len() == 3 {
            let c0 = line[0];
            let c1 = line[1];
            let c2 = line[2];
            if c0 == 'a' && c1 == 'd' && c2 == 'd' {
                proof {
                    assert(line@ =~= line_add());
                }
                Some(Instr::Add)
            } else if c0 == 's' && c1 == 'u' && c2 == 'b' {
                proof {
                    assert(line@ =~= line_sub());
                }
                Some(Instr::Sub)
            } else if c0 == 'm' && c1 == 'u' && c2 == 'l' {
                proof {
                    assert(line@ =~= line_mul());
                }
                Some(Instr::Mul)
            } else if c0 == 'd' && c1 == 'i' && c2 == 'v' {
                proof {
                    assert(line@ =~= line_div());
                }
                Some(Instr::Div)
            } else if c0 == 'r' && c1 == 'e' && c2 == 't' {
                proof {
                    assert(line@ =~= line_ret());
                }
                Some(Instr::Ret)
            } else {
                None
            }
        } else {
            None
        }
    }
}

/// Perform one line on the stack: `None` to go on, `Some` when the run
/// halts here with its outcome.
fn step_line(line: &Vec<char>, stack: &mut Vec<i64>) -> (r: Option<Result<i64, RuntimeError>>)
    ensures
        match step_outcome(line@, old(stack)@) {
            Ok(st) => r is None && final(stack)@ == st,
            Err(res) => r == Some(res),
        },
{
    let ghost st0 = stack@;
    match parse_line(line) {
        None => Some(Err(RuntimeError::ParseFailed)),
        Some(ins) => match ins {
            Instr::Push(n) => {
                stack.push(n);
                None
            },
            Instr::Ret => {
                if stack.len() == 0 {
                    Some(Err(RuntimeError::StackUnderflow))
                } else {
                    let v = stack[stack.len() - 1];
                    Some(Ok(v))
                }
            },
            Instr::Add => {
                if stack.len() < 2 {
                    return Some(Err(RuntimeError::StackUnderflow));
                }
                let num2 = stack.pop().unwrap();
                let num1 = stack.pop().unwrap();
                proof {
                    assert(stack@ =~= st0.drop_last().drop_last());
                    assert(num2 == st0.last());
                    assert(num1 == st0[st0.len() - 2]);
                }
                match num1.checked_add(num2) {
                    Some(v) => {
                        stack.push(v);
                        None
                    },
                    None => Some(Err(RuntimeError::Overflow)),
                }
            },
            Instr::Sub => {
                if stack.len() < 2 {
                    return Some(Err(RuntimeError::StackUnderflow));
                }
                let num2 = stack.pop().unwrap();
                let num1 = stack.pop().unwrap();
                proof {
                    assert(stack@ =~= st0.drop_last().drop_last());
                    assert(num2 == st0.last());
                    assert(num1 == st0[st0.len() - 2]);
                }
                match num1.checked_sub(num2) {
                    Some(v) => {
                        stack.push(v);
                        None
                    },
                    None => Some(Err(RuntimeError::Overflow)),
                }
            },
            Instr::Mul => {
                if stack.len() < 2 {
                    return Some(Err(RuntimeError::StackUnderflow));
                }
                let num2 = stack.pop().unwrap();
                let num1 = stack.pop().unwrap();
                proof {
                    assert(stack@ =~= st0.drop_last().drop_last());
                    assert(num2 == st0.last());
                    assert(num1 == st0[st0.len() - 2]);
                }
                match num1.checked_mul(num2) {
                    Some(v) => {
                        stack.push(v);
                        None
                    },
                    None => Some(Err(RuntimeError::Overflow)),
                }
            },
            Instr::Div => {
                if stack.len() < 2 {
                    return Some(Err(RuntimeError::StackUnderflow));
                }
                let num2 = stack.pop().unwrap();
                let num1 = stack.pop().unwrap();
                proof {
                    assert(stack@ =~= st0.drop_last().drop_last());
                    assert(num2 == st0.last());
                    assert(num1 == st0[st0.len() - 2]);
                }
                if num2 == 0 {
                    return Some(Err(RuntimeError::DivisionByZero));
                }
                match num1.checked_div(num2) {
                    Some(v) => {
                        proof {
                            assert(v == tdiv(num1 as int, num2 as int));
                        }
                        stack.push(v);
                        None
                    },
                    None => Some(Err(RuntimeError::Overflow)),
                }
            },
        },
    }
}

/// Execute stack-machine instruction text, one line per instruction,
/// strictly in order: the value of the first `ret`, or the first
/// error. Lines after a `ret` are never looked at; text with no `ret`
/// fails once its lines run out.
pub fn execute(text: &str) -> (r: Result<i64, RuntimeError>)
    ensures
        r == spec_execute(text@),
{
    let n = text.unicode_len();
    let mut stack: Vec<i64> = Vec::new();
    let mut cur: Vec<char> = Vec::new();
    let mut i: usize = 0;
    proof {
        assert(text@.skip(0) =~= text@);
    }
    while i < n
        invariant
            n == text@.len(),
            i <= n,
            spec_run(split_rec(text@.skip(i as int), cur@), stack@) == spec_execute(text@),
        decreases n - i,
    {
        let ghost s_i = text@.skip(i as int);
        let c = text.get_char(i);
        proof {
            assert(s_i[0] == c);
            assert(s_i.skip(1) =~= text@.skip(i as int + 1));
        }
        if c == '\n' {
            let ghost lines = split_rec(s_i, cur@);
            proof {
                assert(lines == seq![cur@] + split_rec(text@.skip(i as int + 1), seq![]));
                assert(lines[0] == cur@);
                assert(lines.skip(1) =~= split_rec(text@.skip(i as int + 1), Seq::<char>::empty()));
            }
            match step_line(&cur, &mut stack) {
                Some(res) => {
                    return res;
                },
                None => {},
            }
            cur = Vec::new();
            proof {
                assert(cur@ =~= Seq::<char>::empty());
            }
        } else {
            cur.push(c);
        }
        i = i + 1;
    }
    proof {
        assert(text@.skip(n as int) =~= Seq::<char>::empty());
        assert(split_rec(text@.skip(n as int), cur@) == seq![cur@]);
        assert(seq![cur@][0] == cur@);
        assert(seq![cur@].skip(1) =~= Seq::<Seq<char>>::empty());
    }
    let ghost st_pre = stack@;
    let stepped = step_line(&cur, &mut stack);
    proof {
        match step_outcome(cur@, st_pre) {
            Ok(st) => {
                assert(spec_run(seq![cur@], st_pre) == spec_run(seq![cur@].skip(1), st));
                assert(spec_run(Seq::<Seq<char>>::empty(), st) == Err::<i64, RuntimeError>(
                    RuntimeError::NoReturn,
                ));
            },
            Err(_) => {},
        }
    }
    match stepped {
        Some(res) => res,
        None => Err(RuntimeError::NoReturn),
    }
}

} // verus!
