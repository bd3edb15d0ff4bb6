//! Lexical analysis: source text to a sequence of tokens.

use vstd::prelude::*;

verus! {

/// One lexical unit of an arithmetic expression.
#[derive(Clone, Copy, Debug, PartialEq, Eq, Structural)]
pub enum Token {
    /// A non-negative integer literal.
    NUMBER(i64),
    /// One of `+ - * /`.
    OPERATOR(char),
    /// `(` or `)`.
    PAREN(char),
}

/// Why lexing failed.
#[derive(Clone, Copy, Debug, PartialEq, Eq, Structural)]
pub enum LexError {
    /// A character that is not a digit, an operator, a parenthesis or
    /// whitespace.
    BadChar(char),
    /// A digit run denoting a value above `i64::MAX`.
    NumberTooLarge,
}

pub open spec fn is_digit_char(c: char) -> bool {
    '0' <= c && c <= '9'
}

pub open spec fn is_operator_char(c: char) -> bool {
    c == '+' || c == '-' || c == '*' || c == '/'
}

pub open spec fn is_paren_char(c: char) -> bool {
    c == '(' || c == ')'
}

pub open spec fn is_space_char(c: char) -> bool {
    c == ' ' || c == '\t' || c == '\n' || c == '\r'
}

/// A character the lexer accepts at all.
pub open spec fn is_target_char(c: char) -> bool {
    is_digit_char(c) || is_operator_char(c) || is_paren_char(c) || is_space_char(c)
}

/// Numeric value of a digit character.
pub open spec fn digit_val(c: char) -> int {
    c as int - '0' as int
}

/// Emit the number token for an in-progress digit run, if any.
pub open spec fn flush_pending(p: Option<nat>) -> Result<Seq<Token>, LexError> {
    match p {
        None => Ok(seq![]),
        Some(v) => if v <= i64::MAX as nat {
            Ok(seq![Token::NUMBER(v as i64)])
        } else {
            Err(LexError::NumberTooLarge)
        },
    }
}

/// The lexer, one character at a time; `p` is the value of the digit run
/// in progress, if one is.
pub open spec fn lex_rec(s: Seq<char>, p: Option<nat>) -> Result<Seq<Token>, LexError>
    decreases s.len(),
{
    if s.len() == 0 {
        flush_pending(p)
    } else {
        let c = s[0];
        if !is_target_char(c) {
            Err(LexError::BadChar(c))
        } else if is_digit_char(c) {
            let v = match p {
                None => digit_val(c) as nat,
                Some(v0) => (v0 * 10 + digit_val(c)) as nat,
            };
            lex_rec(s.skip(1), Some(v))
        } else {
            match flush_pending(p) {
                Err(e) => Err(e),
                Ok(ts) => {
                    let rest = lex_rec(s.skip(1), None);
                    match rest {
                        Err(e) => Err(e),
                        Ok(more) => if is_space_char(c) {
                            Ok(ts + more)
                        } else if is_operator_char(c) {
                            Ok(ts.push(Token::OPERATOR(c)) + more)
                        } else {
                            Ok(ts.push(Token::PAREN(c)) + more)
                        },
                    }
                },
            }
        }
    }
}

/// What `tokenizer` returns on any source text: the token sequence, or
/// the first lexical error.
pub open spec fn spec_lex(s: Seq<char>) -> Result<Seq<Token>, LexError> {
    lex_rec(s, None)
}

/// Glue a prefix of already-emitted tokens onto the outcome of lexing the
/// remaining text.
pub open spec fn lex_glue(ts: Seq<Token>, r: Result<Seq<Token>, LexError>) -> Result<
    Seq<Token>,
    LexError,
> {
    match r {
        Ok(more) => Ok(ts + more),
        Err(e) => Err(e),
    }
}

/// Scan the source text into tokens: digits accumulate into a single
/// number token, closed by any non-digit or by the end of the text;
/// whitespace separates tokens and is discarded; every operator and
/// parenthesis is a token of its own; any other character is a lexical
/// error.
pub fn tokenizer(src: &str) -> (r: Result<Vec<Token>, LexError>)
    ensures
        spec_lex(src@) == (match r {
            Ok(v) => Ok::<Seq<Token>, LexError>(v@),
            Err(e) => Err::<Seq<Token>, LexError>(e),
        }),
{
    let n = src.unicode_len();
    let mut result: Vec<Token> = Vec::new();
    let mut pending = false;
    let mut too_big = false;
    let mut acc: u64 = 0;
    let ghost mut pval: Option<nat> = None;
    let mut i: usize = 0;
    proof {
        assert(src@.skip(0) =~= src@);
        match spec_lex(src@) {
            Ok(ts) => {
                assert(result@ + ts =~= ts);
            },
            Err(_) => {},
        }
    }
    while i < n
        invariant
            n == src@.len(),
            i <= n,
            pending <==> pval is Some,
            !pending ==> !too_big,
            pending && !too_big ==> pval == Some(acc as nat) && acc <= i64::MAX as u64,
            pending && too_big ==> (pval matches Some(v) && v > i64::MAX as nat),
            spec_lex(src@) == lex_glue(result@, lex_rec(src@.skip(i as int), pval)),
        decreases n - i,
    {
        let ghost old_result = result@;
        let ghost old_pval = pval;
        let ghost s_i = src@.skip(i as int);
        let ghost s_i1 = src@.skip(i as int + 1);
        let c = src.get_char(i);
        proof {
            assert(s_i[0] == c);
            assert(s_i.skip(1) =~= s_i1);
        }
        if !(('0' <= c && c <= '9') || c == '+' || c == '-' || c == '*' || c == '/' || c == '('
            || c == ')' || c == ' ' || c == '\t' || c == '\n' || c == '\r') {
            proof {
                assert(!is_target_char(c));
                assert(lex_rec(s_i, pval) == Err::<Seq<Token>, LexError>(LexError::BadChar(c)));
            }
            return Err(LexError::BadChar(c));
        }
        if '0' <= c && c <= '9' {
            let d: u64 = (c as u32 - '0' as u32) as u64;
            assert(d == digit_val(c) && d <= 9);
            if !pending {
                pending = true;
                too_big = false;
                acc = d;
                proof {
                    pval = Some(d as nat);
                }
            } else if too_big {
                proof {
                    let v0 = old_pval->Some_0;
                    assert(v0 * 10 + digit_val(c) > i64::MAX as nat) by (nonlinear_arith)
                        requires
                            v0 > i64::MAX as nat,
                            digit_val(c) >= 0,
                    ;
                    pval = Some((v0 * 10 + digit_val(c)) as nat);
                }
            } else {
                proof {
                    assert(acc as int * 10 + d as int <= u64::MAX as int * 16) by (nonlinear_arith)
                        requires
                            acc <= u64::MAX as int,
                            d <= 9,
                    ;
                }
                let wide: u128 = acc as u128 * 10 + d as u128;
                if wide > i64::MAX as u128 {
                    too_big = true;
                } else {
                    acc = wide as u64;
                }
                proof {
                    pval = Some((old_pval->Some_0 * 10 + digit_val(c)) as nat);
                }
            }
            proof {
                assert(lex_rec(s_i, old_pval) == lex_rec(s_i1, pval));
            }
        } else {
            // The digit run, if any, ends here.
            if pending {
                if too_big {
                    proof {
                        assert(flush_pending(old_pval) == Err::<Seq<Token>, LexError>(
                            LexError::NumberTooLarge,
                        ));
                        assert(lex_rec(s_i, old_pval) == Err::<Seq<Token>, LexError>(
                            LexError::NumberTooLarge,
                        ));
                    }
                    return Err(LexError::NumberTooLarge);
                }
                result.push(Token::NUMBER(acc as i64));
                pending = false;
                proof {
                    pval = None;
                }
            }
            if c == '+' || c == '-' || c == '*' || c == '/' {
                result.push(Token::OPERATOR(c));
            } else if c == '(' || c == ')' {
                result.push(Token::PAREN(c));
            }
            proof {
                let fseq = flush_pending(old_pval)->Ok_0;
                let tk: Seq<Token> = if is_operator_char(c) {
                    seq![Token::OPERATOR(c)]
                } else if is_paren_char(c) {
                    seq![Token::PAREN(c)]
                } else {
                    seq![]
                };
                assert(result@ =~= old_result + fseq + tk);
                match lex_rec(s_i1, None) {
                    Ok(more) => {
                        if is_space_char(c) {
                            assert(fseq + more =~= fseq + tk + more);
                        } else if is_operator_char(c) {
                            assert(fseq.push(Token::OPERATOR(c)) + more =~= fseq + tk + more);
                        } else {
                            assert(fseq.push(Token::PAREN(c)) + more =~= fseq + tk + more);
                        }
                        assert(lex_rec(s_i, old_pval) == Ok::<Seq<Token>, LexError>(
                            fseq + tk + more,
                        ));
                        assert(old_result + (fseq + tk + more) =~= result@ + more);
                    },
                    Err(_) => {},
                }
            }
        }
        i = i + 1;
    }
    proof {
        assert(src@.skip(n as int) =~= Seq::<char>::empty());
    }
    if pending {
        if too_big {
            return Err(LexError::NumberTooLarge);
        }
        let ghost before = result@;
        result.push(Token::NUMBER(acc as i64));
        proof {
            assert(flush_pending(pval) == Ok::<Seq<Token>, LexError>(
                seq![Token::NUMBER(acc as i64)],
            ));
            assert(before + seq![Token::NUMBER(acc as i64)] =~= result@);
        }
    }
    proof {
        match spec_lex(src@) {
            Ok(ts) => {
                assert(result@ + Seq::<Token>::empty() =~= result@);
            },
            Err(_) => {},
        }
    }
    Ok(result)
}

} // verus!
