//! Decimal notation for `i64`: rendering and parsing, both verified.

use vstd::prelude::*;
use crate::tokenizer::{digit_val, is_digit_char};

verus! {

/// The character for one digit value.
pub open spec fn digit_char(d: int) -> char {
    if d == 0 {
        '0'
    } else if d == 1 {
        '1'
    } else if d == 2 {
        '2'
    } else if d == 3 {
        '3'
    } else if d == 4 {
        '4'
    } else if d == 5 {
        '5'
    } else if d == 6 {
        '6'
    } else if d == 7 {
        '7'
    } else if d == 8 {
        '8'
    } else {
        '9'
    }
}

/// Decimal digits of a non-negative value, most significant first, no
/// leading zeros (a single `0` for zero).
pub open spec fn dec_digits(n: nat) -> Seq<char>
    decreases n,
{
    if n < 10 {
        seq![digit_char(n as int)]
    } else {
        dec_digits(n / 10).push(digit_char((n % 10) as int))
    }
}

/// Decimal notation of a signed value: a leading `-` for negatives.
pub open spec fn dec_str(v: int) -> Seq<char> {
    if v < 0 {
        seq!['-'] + dec_digits((-v) as nat)
    } else {
        dec_digits(v as nat)
    }
}

/// Value of a digit string, most significant first.
pub open spec fn digits_val(s: Seq<char>) -> int
    decreases s.len(),
{
    if s.len() == 0 {
        0
    } else {
        digits_val(s.drop_last()) * 10 + digit_val(s.last())
    }
}

pub open spec fn all_digits(s: Seq<char>) -> bool {
    forall|k: int| 0 <= k < s.len() ==> is_digit_char(s[k])
}

/// The integer a character sequence denotes under standard signed
/// decimal syntax — an optional `+` or `-` sign, then one or more
/// digits — or `None` when it is not of that shape. The value itself is
/// unbounded; a range check is the caller's.
pub open spec fn spec_parse_int(s: Seq<char>) -> Option<int> {
    if s.len() >= 1 && (s[0] == '-' || s[0] == '+') {
        let body = s.skip(1);
        if body.len() >= 1 && all_digits(body) {
            if s[0] == '-' {
                Some(-digits_val(body))
            } else {
                Some(digits_val(body))
            }
        } else {
            None
        }
    } else if s.len() >= 1 && all_digits(s) {
        Some(digits_val(s))
    } else {
        None
    }
}

fn digit_to_char(d: u64) -> (c: char)
    requires
        d < 10,
    ensures
        c == digit_char(d as int),
{
    if d == 0 {
        '0'
    } else if d == 1 {
        '1'
    } else if d == 2 {
        '2'
    } else if d == 3 {
        '3'
    } else if d == 4 {
        '4'
    } else if d == 5 {
        '5'
    } else if d == 6 {
        '6'
    } else if d == 7 {
        '7'
    } else if d == 8 {
        '8'
    } else {
        '9'
    }
}

/// Render a signed value in decimal.
pub fn i64_to_chars(v: i64) -> (r: Vec<char>)
    ensures
        r@ == dec_str(v as int),
{
    let neg = v < 0;
    let mut m: u64 = if v < 0 {
        if v == i64::MIN {
            9223372036854775808u64
        } else {
            (-v) as u64
        }
    } else {
        v as u64
    };
    let ghost m0 = m as nat;
    proof {
        if v < 0 {
            assert(m0 == (-(v as int)) as nat);
        } else {
            assert(m0 == v as nat);
        }
    }
    let mut rev: Vec<char> = Vec::new();
    proof {
        assert(dec_digits(m0) + rev@.reverse() =~= dec_digits(m0));
    }
    while m >= 10
        invariant
            dec_digits(m0) == dec_digits(m as nat) + rev@.reverse(),
        decreases m,
    {
        let ghost prev_rev = rev@;
        let d = m % 10;
        rev.push(digit_to_char(d));
        m = m / 10;
        proof {
            assert(rev@ =~= prev_rev.push(digit_char(d as int)));
            assert(rev@.reverse() =~= seq![digit_char(d as int)] + prev_rev.reverse());
            assert(dec_digits((m as nat * 10 + d) as nat) == dec_digits(m as nat).push(
                digit_char(d as int),
            ));
            assert(dec_digits(m as nat).push(digit_char(d as int)) + prev_rev.reverse() =~=
                dec_digits(m as nat) + rev@.reverse());
        }
    }
    let ghost prev_rev = rev@;
    rev.push(digit_to_char(m));
    proof {
        assert(dec_digits(m as nat) == seq![digit_char(m as int)]);
        assert(rev@.reverse() =~= seq![digit_char(m as int)] + prev_rev.reverse());
        assert(dec_digits(m0) =~= rev@.reverse());
    }
    let mut out: Vec<char> = Vec::new();
    if neg {
        out.push('-');
    }
    let ghost sgn: Seq<char> = if neg {
        seq!['-']
    } else {
        seq![]
    };
    proof {
        assert(out@ =~= sgn + rev@.reverse().take(0));
    }
    let len = rev.len();
    let mut k: usize = 0;
    while k < len
        invariant
            len == rev@.len(),
            k <= len,
            out@ == sgn + rev@.reverse().take(k as int),
        decreases len - k,
    {
        let ghost prev_out = out@;
        out.push(rev[len - 1 - k]);
        proof {
            assert(rev@.reverse()[k as int] == rev@[len - 1 - k as int]);
            assert(rev@.reverse().take(k as int + 1) =~= rev@.reverse().take(k as int).push(
                rev@[len - 1 - k as int],
            ));
            assert(sgn + rev@.reverse().take(k as int + 1) =~= out@);
        }
        k = k + 1;
    }
    proof {
        assert(rev@.reverse().take(len as int) =~= rev@.reverse());
        assert(out@ =~= dec_str(v as int));
    }
    out
}

proof fn lemma_digits_val_nonneg(s: Seq<char>)
    requires
        all_digits(s),
    ensures
        digits_val(s) >= 0,
    decreases s.len(),
{
    if s.len() > 0 {
        assert(all_digits(s.drop_last()));
        lemma_digits_val_nonneg(s.drop_last());
        assert(digits_val(s.drop_last()) * 10 >= 0) by (nonlinear_arith)
            requires
                digits_val(s.drop_last()) >= 0,
        ;
    }
}

/// A digit string's value only grows as digits are appended.
proof fn lemma_digits_val_prefix_le(s: Seq<char>, j: int)
    requires
        all_digits(s),
        0 <= j <= s.len(),
    ensures
        digits_val(s.take(j)) <= digits_val(s),
    decreases s.len() - j,
{
    if j < s.len() {
        lemma_digits_val_prefix_le(s, j + 1);
        assert(s.take(j + 1).drop_last() =~= s.take(j));
        assert(all_digits(s.take(j)));
        lemma_digits_val_nonneg(s.take(j));
        assert(digits_val(s.take(j)) * 10 >= digits_val(s.take(j))) by (nonlinear_arith)
            requires
                digits_val(s.take(j)) >= 0,
        ;
        assert(digits_val(s.take(j + 1)) >= digits_val(s.take(j)));
    } else {
        assert(s.take(j) =~= s);
    }
}

/// Parse a signed 64-bit integer from `line` starting at `start`:
/// `Some` exactly when the remainder is a signed decimal literal whose
/// value fits in `i64`.
pub fn parse_i64(line: &Vec<char>, start: usize) -> (r: Option<i64>)
    requires
        start <= line@.len(),
    ensures
        match spec_parse_int(line@.skip(start as int)) {
            Some(v) => if i64::MIN <= v <= i64::MAX {
                r == Some(v as i64)
            } else {
                r is None
            },
            None => r is None,
        },
{
    let ghost s = line@.skip(start as int);
    let n = line.len();
    let mut i = start;
    let mut neg = false;
    let mut signed = false;
    if i < n && (line[i] == '-' || line[i] == '+') {
        neg = line[i] == '-';
        signed = true;
        i = i + 1;
    }
    let ghost body = line@.skip(i as int);
    proof {
        if signed {
            assert(s[0] == line@[start as int]);
            assert(s.skip(1) =~= body);
        } else {
            assert(body =~= s);
            if s.len() >= 1 {
                assert(s[0] == line@[start as int]);
            }
        }
    }
    if i >= n {
        // No digits at all.
        return None;
    }
    let limit: u64 = if neg {
        9223372036854775808u64
    } else {
        9223372036854775807u64
    };
    let mut acc: u64 = 0;
    let bodystart = i;
    proof {
        assert(body.take(0) =~= Seq::<char>::empty());
    }
    while i < n
        invariant
            n == line@.len(),
            start <= bodystart <= i <= n,
            bodystart < n,
            s == line@.skip(start as int),
            body == line@.skip(bodystart as int),
            body.len() == n - bodystart,
            signed ==> s.len() >= 1 && (s[0] == '-' || s[0] == '+') && (neg <==> s[0] == '-')
                && body =~= s.skip(1) && bodystart == start + 1,
            !signed ==> body =~= s && bodystart == start && !neg && (s.len() >= 1 ==> !(s[0] == '-'
                || s[0] == '+')),
            all_digits(body.take(i - bodystart)),
            acc as int == digits_val(body.take(i - bodystart)),
            acc <= limit,
            limit == (if neg {
                9223372036854775808u64
            } else {
                9223372036854775807u64
            }),
        decreases n - i,
    {
        let c = line[i];
        proof {
            assert(body[i - bodystart] == line@[i as int]);
        }
        if !('0' <= c && c <= '9') {
            proof {
                assert(!is_digit_char(body[i - bodystart]));
                assert(!all_digits(body));
            }
            return None;
        }
        let d: u64 = (c as u32 - '0' as u32) as u64;
        proof {
            assert(acc as int * 10 + d as int <= u128::MAX as int) by (nonlinear_arith)
                requires
                    acc <= 9223372036854775808u64,
                    d <= 9,
            ;
        }
        let wide: u128 = acc as u128 * 10 + d as u128;
        proof {
            assert(body.take(i - bodystart + 1).drop_last() =~= body.take(i - bodystart));
            assert(body.take(i - bodystart + 1).last() == body[i - bodystart]);
            assert(digits_val(body.take(i - bodystart + 1)) == acc as int * 10 + d as int);
            assert forall|kk: int| 0 <= kk < i - bodystart + 1 implies #[trigger] is_digit_char(
                body.take(i - bodystart + 1)[kk],
            ) by {
                if kk < i - bodystart {
                    assert(body.take(i - bodystart + 1)[kk] == body.take(i - bodystart)[kk]);
                } else {
                    assert(body.take(i - bodystart + 1)[kk] == body[i - bodystart]);
                }
            }
            assert(all_digits(body.take(i - bodystart + 1)));
        }
        if wide > limit as u128 {
            // The value can only grow from here; it cannot fit.
            proof {
                if all_digits(body) {
                    lemma_digits_val_prefix_le(body, i - bodystart + 1);
                    if neg {
                        assert(-digits_val(body) < i64::MIN);
                    } else {
                        assert(digits_val(body) > i64::MAX);
                    }
                }
            }
            return None;
        }
        acc = wide as u64;
        i = i + 1;
    }
    proof {
        assert(body.take(i - bodystart) =~= body);
        assert(body.len() >= 1);
    }
    if neg {
        if acc == 9223372036854775808u64 {
            Some(i64::MIN)
        } else {
            Some(-(acc as i64))
        }
    } else {
        Some(acc as i64)
    }
}

/// Rendering and parsing invert each other: the decimal text of any
/// `i64` parses back to that value.
pub proof fn lemma_dec_str_all_digits(n: nat)
    ensures
        all_digits(dec_digits(n)),
        dec_digits(n).len() >= 1,
    decreases n,
{
    if n < 10 {
    } else {
        lemma_dec_str_all_digits(n / 10);
        assert(dec_digits(n) == dec_digits(n / 10).push(digit_char((n % 10) as int)));
        assert(is_digit_char(digit_char((n % 10) as int)));
        assert forall|k: int| 0 <= k < dec_digits(n).len() implies is_digit_char(
            dec_digits(n)[k],
        ) by {
            if k < dec_digits(n / 10).len() {
                assert(dec_digits(n)[k] == dec_digits(n / 10)[k]);
            }
        }
    }
}

proof fn lemma_digits_val_dec_digits(n: nat)
    ensures
        digits_val(dec_digits(n)) == n,
    decreases n,
{
    if n < 10 {
        let s = dec_digits(n);
        assert(s == seq![digit_char(n as int)]);
        assert(s.drop_last() =~= Seq::<char>::empty());
        assert(s.last() == digit_char(n as int));
        assert(digits_val(Seq::<char>::empty()) == 0);
        assert(digits_val(s) == digits_val(s.drop_last()) * 10 + digit_val(s.last()));
        assert(digit_val(digit_char(n as int)) == n);
    } else {
        lemma_digits_val_dec_digits(n / 10);
        let s = dec_digits(n);
        assert(s == dec_digits(n / 10).push(digit_char((n % 10) as int)));
        assert(s.drop_last() =~= dec_digits(n / 10));
        assert(s.last() == digit_char((n % 10) as int));
        assert(digit_val(digit_char((n % 10) as int)) == n % 10);
        assert(digits_val(s) == digits_val(s.drop_last()) * 10 + digit_val(s.last()));
        assert(digits_val(s) == (n / 10) * 10 + n % 10);
        assert((n / 10) * 10 + n % 10 == n) by {
            vstd::arithmetic::div_mod::lemma_fundamental_div_mod(n as int, 10);
        }
    }
}

/// Parsing inverts rendering: `dec_str` of any `i64` value parses back
/// to exactly that value.
pub proof fn lemma_parse_dec(v: i64)
    ensures
        spec_parse_int(dec_str(v as int)) == Some(v as int),
{
    if v < 0 {
        let m = (-(v as int)) as nat;
        lemma_dec_str_all_digits(m);
        lemma_digits_val_dec_digits(m);
        let s = dec_str(v as int);
        assert(s == seq!['-'] + dec_digits(m));
        assert(s[0] == '-');
        assert(s.skip(1) =~= dec_digits(m));
        assert(spec_parse_int(s) == Some(-digits_val(dec_digits(m))));
    } else {
        let m = v as nat;
        lemma_dec_str_all_digits(m);
        lemma_digits_val_dec_digits(m);
        let s = dec_str(v as int);
        assert(s == dec_digits(m));
        assert(is_digit_char(s[0]));
        assert(s[0] != '-' && s[0] != '+');
    }
}

} // verus!
