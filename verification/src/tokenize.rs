use vstd::prelude::*;

use crate::token::operator_of_char;
use crate::token::Error;
use crate::token::Operator;
use crate::token::Ops;

verus! {

/// True of the ten decimal digit characters.
pub open spec fn is_digit(c: char) -> bool {
    48 <= c as int <= 57
}

/// The numeric value of a decimal digit character.
pub open spec fn digit_val(c: char) -> int {
    c as int - 48
}

/// The length of the maximal run of decimal digit characters of `s`
/// starting at position `i`.
pub open spec fn digit_run_len(s: Seq<char>, i: int) -> nat
    decreases s.len() - i,
{
    if i < 0 || i >= s.len() || !is_digit(s[i]) {
        0
    } else {
        1 + digit_run_len(s, i + 1)
    }
}

/// A digit run never reaches past the end of `s`.
proof fn lemma_digit_run_len_bound(s: Seq<char>, i: int)
    requires
        0 <= i <= s.len(),
    ensures
        i + digit_run_len(s, i) <= s.len(),
    decreases s.len() - i,
{
    if i < s.len() && is_digit(s[i]) {
        lemma_digit_run_len_bound(s, i + 1);
    }
}

/// Every character inside a digit run is a decimal digit.
proof fn lemma_digit_run_digits(s: Seq<char>, i: int)
    ensures
        forall|k: int| i <= k < i + digit_run_len(s, i) ==> is_digit(s[k]),
    decreases s.len() - i,
{
    if 0 <= i < s.len() && is_digit(s[i]) {
        lemma_digit_run_digits(s, i + 1);
    }
}

/// The value of the `n` decimal digits of `s` starting at position `i`,
/// read with the most significant digit first.
pub open spec fn digits_value(s: Seq<char>, i: int, n: nat) -> int
    decreases n,
{
    if n == 0 {
        0
    } else {
        digits_value(s, i, (n - 1) as nat) * 10 + digit_val(s[i + n - 1])
    }
}

/// The value of a run of decimal digits is never negative.
proof fn lemma_digits_value_nonneg(s: Seq<char>, i: int, n: nat)
    requires
        0 <= i,
        i + n <= s.len(),
        forall|k: int| i <= k < i + n ==> is_digit(s[k]),
    ensures
        digits_value(s, i, n) >= 0,
    decreases n,
{
    if n > 0 {
        lemma_digits_value_nonneg(s, i, (n - 1) as nat);
    }
}

/// Reading more decimal digits never shrinks the value of the run.
proof fn lemma_digits_value_mono(s: Seq<char>, i: int, n1: nat, n2: nat)
    requires
        n1 <= n2,
        0 <= i,
        i + n2 <= s.len(),
        forall|k: int| i <= k < i + n2 ==> is_digit(s[k]),
    ensures
        0 <= digits_value(s, i, n1) <= digits_value(s, i, n2),
    decreases n2,
{
    lemma_digits_value_nonneg(s, i, n1);
    if n1 < n2 {
        lemma_digits_value_mono(s, i, n1, (n2 - 1) as nat);
        lemma_digits_value_nonneg(s, i, (n2 - 1) as nat);
    }
}

/// Puts a token in front of the outcome of tokenizing the rest.
pub open spec fn with_token(t: Ops, rest: Option<Seq<Ops>>) -> Option<Seq<Ops>> {
    match rest {
        Some(r) => Some(seq![t] + r),
        None => None,
    }
}

/// The token sequence read from the characters of `s` starting at position
/// `i`. Spaces are skipped; `* / ^ ( )` are single operators; a `+` or `-`
/// directly before a digit signs the literal that follows, before a space it
/// is the binary operator, and anything else after it is an error; a digit
/// starts a literal read as the maximal digit run, whose value must fit in
/// the signed 64-bit range; any other character is an error.
pub open spec fn tokenize_from(s: Seq<char>, i: int) -> Option<Seq<Ops>>
    decreases s.len() - i,
    via tokenize_from_dec
{
    if i < 0 || i >= s.len() {
        Some(Seq::<Ops>::empty())
    } else {
        let c = s[i];
        if c == ' ' {
            tokenize_from(s, i + 1)
        } else if c == '*' || c == '/' || c == '^' || c == '(' || c == ')' {
            with_token(Ops::Operator(operator_of_char(c)->Some_0), tokenize_from(s, i + 1))
        } else if c == '+' || c == '-' {
            if i + 1 >= s.len() {
                None
            } else if is_digit(s[i + 1]) {
                let n = digit_run_len(s, i + 1);
                let v = digits_value(s, i + 1, n);
                if v > i64::MAX {
                    None
                } else {
                    let x: i64 = if c == '-' {
                        (-v) as i64
                    } else {
                        v as i64
                    };
                    with_token(Ops::Number(x), tokenize_from(s, i + 1 + n))
                }
            } else if s[i + 1] == ' ' {
                with_token(
                    Ops::Operator(
                        if c == '+' {
                            Operator::Add
                        } else {
                            Operator::Sub
                        },
                    ),
                    tokenize_from(s, i + 1),
                )
            } else {
                None
            }
        } else if is_digit(c) {
            let n = digit_run_len(s, i);
            let v = digits_value(s, i, n);
            if v > i64::MAX {
                None
            } else {
                with_token(Ops::Number(v as i64), tokenize_from(s, i + n))
            }
        } else {
            None
        }
    }
}

#[via_fn]
proof fn tokenize_from_dec(s: Seq<char>, i: int) {
    if 0 <= i < s.len() {
        lemma_digit_run_len_bound(s, i);
        if i + 1 <= s.len() {
            lemma_digit_run_len_bound(s, i + 1);
        }
    }
}

/// The token sequence of a whole character string, or `None` when some
/// character cannot be read as part of a token.
pub open spec fn tokenize_spec(s: Seq<char>) -> Option<Seq<Ops>> {
    tokenize_from(s, 0)
}

/// True of a decimal digit character.
fn is_digit_ch(c: char) -> (b: bool)
    ensures
        b == is_digit(c),
{
    c >= '0' && c <= '9'
}

/// The numeric value of a decimal digit character.
fn digit_val_ch(c: char) -> (d: i64)
    requires
        is_digit(c),
    ensures
        d == digit_val(c),
        0 <= d <= 9,
{
    ((c as u32) - 48) as i64
}

/// Reads the maximal run of decimal digits of `s` starting at `start` as a
/// signed 64-bit value, together with the position after the run; the error
/// is returned exactly when the run's value is over the largest signed
/// 64-bit value.
fn scan_number(s: &str, start: usize, len: usize) -> (r: Result<(i64, usize), Error>)
    requires
        len == s@.len(),
        start < len,
        is_digit(s@[start as int]),
    ensures
        match r {
            Ok(p) => p.1 == start + digit_run_len(s@, start as int) && 0 <= digits_value(
                s@,
                start as int,
                digit_run_len(s@, start as int),
            ) <= i64::MAX && p.0 == digits_value(
                s@,
                start as int,
                digit_run_len(s@, start as int),
            ),
            Err(e) => digits_value(s@, start as int, digit_run_len(s@, start as int)) > i64::MAX
                && e == Error::InvalidExpression,
        },
{
    let mut j = start;
    let mut v: i64 = 0;
    while j < len && is_digit_ch(s.get_char(j))
        invariant
            start <= j <= len,
            len == s@.len(),
            digit_run_len(s@, start as int) == (j - start) + digit_run_len(s@, j as int),
            forall|k: int| start <= k < j ==> is_digit(s@[k]),
            0 <= v,
            v == digits_value(s@, start as int, (j - start) as nat),
        decreases len - j,
    {
        let c = s.get_char(j);
        let d = digit_val_ch(c);
        let ghost run = digit_run_len(s@, start as int);
        let ghost m = (j - start) as nat;
        proof {
            assert(digits_value(s@, start as int, m + 1) == digits_value(s@, start as int, m) * 10
                + digit_val(s@[start + m]));
            lemma_digit_run_len_bound(s@, start as int);
            lemma_digit_run_digits(s@, start as int);
            assert(digit_run_len(s@, j as int) >= 1);
        }
        let w = match v.checked_mul(10) {
            Some(w) => w,
            None => {
                proof {
                    lemma_digits_value_mono(s@, start as int, m + 1, run);
                }
                return Err(Error::InvalidExpression);
            },
        };
        let u = match w.checked_add(d) {
            Some(u) => u,
            None => {
                proof {
                    lemma_digits_value_mono(s@, start as int, m + 1, run);
                }
                return Err(Error::InvalidExpression);
            },
        };
        v = u;
        j = j + 1;
    }
    proof {
        assert(digit_run_len(s@, j as int) == 0);
    }
    Ok((v, j))
}

/// True of the ten decimal digit bytes.
pub open spec fn is_digit_byte(b: u8) -> bool {
    48 <= b <= 57
}

/// The length of the maximal run of decimal digit bytes of `s` starting at
/// position `i`.
pub open spec fn byte_run_len(s: Seq<u8>, i: int) -> nat
    decreases s.len() - i,
{
    if i < 0 || i >= s.len() || !is_digit_byte(s[i]) {
        0
    } else {
        1 + byte_run_len(s, i + 1)
    }
}

/// The leading run of decimal digits of `data`: the maximal prefix of digit
/// bytes, each returned as its character.
pub fn get_number(data: &[u8]) -> (r: Vec<char>)
    ensures
        r@.len() == byte_run_len(data@, 0),
        forall|k: int| 0 <= k < r@.len() ==> r@[k] == data@[k] as char,
{
    let n = data.len();
    let mut out: Vec<char> = Vec::new();
    let mut i: usize = 0;
    while i < n && *vstd::slice::slice_index_get(data, i) >= 48 && *vstd::slice::slice_index_get(
        data,
        i,
    ) <= 57
        invariant
            i <= n,
            n == data@.len(),
            byte_run_len(data@, 0) == i + byte_run_len(data@, i as int),
            out@.len() == i,
            forall|k: int| 0 <= k < i ==> out@[k] == data@[k] as char,
        decreases n - i,
    {
        let b = *vstd::slice::slice_index_get(data, i);
        out.push(b as char);
        i = i + 1;
    }
    proof {
        assert(byte_run_len(data@, i as int) == 0);
    }
    out
}

/// Scans an expression string into its token sequence, left to right:
/// spaces are skipped; `* / ^ ( )` become single operator tokens; a `+` or
/// `-` directly before a digit signs the literal that follows, before a
/// space it is the binary operator, and anything else after it is an error;
/// a digit starts an integer literal read as the maximal digit run, whose
/// value must fit in the signed 64-bit range; any other character is an
/// error.
pub fn tokenize(expression: &str) -> (r: Result<Vec<Ops>, Error>)
    ensures
        match r {
            Ok(v) => tokenize_spec(expression@) == Some(v@),
            Err(e) => tokenize_spec(expression@) is None && e == Error::InvalidExpression,
        },
{
    let len = expression.unicode_len();
    let mut out: Vec<Ops> = Vec::new();
    let mut i: usize = 0;
    while i < len
        invariant
            i <= len,
            len == expression@.len(),
            tokenize_spec(expression@) == (match tokenize_from(expression@, i as int) {
                Some(r) => Some(out@ + r),
                None => None,
            }),
        decreases len - i,
    {
        let ghost s = expression@;
        let ghost out0 = out@;
        let c = expression.get_char(i);
        if c == ' ' {
            i = i + 1;
        } else if c == '*' || c == '/' || c == '^' || c == '(' || c == ')' {
            let op = Operator::from_char(c).unwrap();
            out.push(Ops::Operator(op));
            proof {
                if tokenize_from(s, i + 1) is Some {
                    let r = tokenize_from(s, i + 1)->Some_0;
                    assert((out0 + (seq![Ops::Operator(op)] + r)) =~= (out@ + r));
                }
            }
            i = i + 1;
        } else if c == '+' || c == '-' {
            if i + 1 >= len {
                return Err(Error::InvalidExpression);
            }
            let c2 = expression.get_char(i + 1);
            if is_digit_ch(c2) {
                let (val, next) = match scan_number(expression, i + 1, len) {
                    Ok(p) => p,
                    Err(e) => {
                        return Err(e);
                    },
                };
                let x: i64 = if c == '-' {
                    -val
                } else {
                    val
                };
                out.push(Ops::Number(x));
                proof {
                    lemma_digit_run_len_bound(s, i + 1);
                    assert(digit_run_len(s, i + 1) >= 1);
                    if tokenize_from(s, next as int) is Some {
                        let r = tokenize_from(s, next as int)->Some_0;
                        assert((out0 + (seq![Ops::Number(x)] + r)) =~= (out@ + r));
                    }
                }
                i = next;
            } else if c2 == ' ' {
                let op = if c == '+' {
                    Operator::Add
                } else {
                    Operator::Sub
                };
                out.push(Ops::Operator(op));
                proof {
                    if tokenize_from(s, i + 1) is Some {
                        let r = tokenize_from(s, i + 1)->Some_0;
                        assert((out0 + (seq![Ops::Operator(op)] + r)) =~= (out@ + r));
                    }
                }
                i = i + 1;
            } else {
                return Err(Error::InvalidExpression);
            }
        } else if is_digit_ch(c) {
            let (val, next) = match scan_number(expression, i, len) {
                Ok(p) => p,
                Err(e) => {
                    return Err(e);
                },
            };
            out.push(Ops::Number(val));
            proof {
                lemma_digit_run_len_bound(s, i as int);
                assert(digit_run_len(s, i as int) >= 1);
                if tokenize_from(s, next as int) is Some {
                    let r = tokenize_from(s, next as int)->Some_0;
                    assert((out0 + (seq![Ops::Number(val)] + r)) =~= (out@ + r));
                }
            }
            i = next;
        } else {
            return Err(Error::InvalidExpression);
        }
    }
    proof {
        assert(out@ + Seq::<Ops>::empty() =~= out@);
    }
    Ok(out)
}

} // verus!
