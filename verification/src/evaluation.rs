use vstd::prelude::*;

verus! {

use vstd::arithmetic::power::pow;
use vstd::string::StringExecFns;
use crate::bignum::Natural;
use crate::bignum::Signed;
use crate::bignum::tdiv;
use crate::bignum::trem;

/// A failure while parsing or evaluating an expression.
#[derive(Clone, Copy, PartialEq, Eq, Structural, Debug)]
pub enum EvalError {
    UnexpectedChar(char),
    MissingNumber,
    UnclosedParenthesis,
    DivisionByZero,
    ModuloByZero,
    NegativeExponent,
    ExponentTooBig,
    NegativeFactorial,
    FactorialTooBig,
    InputIsNegative,
}

impl EvalError {
    /// The human-readable message reported for this failure.
    pub open spec fn spec_message(self) -> Seq<char> {
        match self {
            EvalError::UnexpectedChar(c) => "Unexpected character '"@ + seq![c] + "'"@,
            EvalError::MissingNumber => "Missing number"@,
            EvalError::UnclosedParenthesis => "Unclosed parenthesis"@,
            EvalError::DivisionByZero => "Division by zero"@,
            EvalError::ModuloByZero => "Modulo by zero"@,
            EvalError::NegativeExponent => "Negative exponent"@,
            EvalError::ExponentTooBig => "Exponent too big"@,
            EvalError::NegativeFactorial => "Negative factorial"@,
            EvalError::FactorialTooBig => "Factorial too big"@,
            EvalError::InputIsNegative => "Input is negative"@,
        }
    }

    pub fn message(&self) -> (r: String)
        ensures
            r@ == self.spec_message(),
    {
        match self {
            EvalError::UnexpectedChar(c) => {
                let mut s = String::from_str("Unexpected character '");
                push_char(&mut s, *c);
                let r = s.concat("'");
                proof {
                    assert(r@ =~= "Unexpected character '"@ + seq![*c] + "'"@);
                }
                r
            },
            EvalError::MissingNumber => String::from_str("Missing number"),
            EvalError::UnclosedParenthesis => String::from_str("Unclosed parenthesis"),
            EvalError::DivisionByZero => String::from_str("Division by zero"),
            EvalError::ModuloByZero => String::from_str("Modulo by zero"),
            EvalError::NegativeExponent => String::from_str("Negative exponent"),
            EvalError::ExponentTooBig => String::from_str("Exponent too big"),
            EvalError::NegativeFactorial => String::from_str("Negative factorial"),
            EvalError::FactorialTooBig => String::from_str("Factorial too big"),
            EvalError::InputIsNegative => String::from_str("Input is negative"),
        }
    }
}

/// Relies on `String::push`, which appends one character.
#[verifier::external_body]
fn push_char(s: &mut String, c: char)
    ensures
        final(s)@ == old(s)@.push(c),
{
    s.push(c);
}

/// The value of `c` as a digit in the given radix, as `char::is_digit`
/// and `char::to_digit` define it.
pub open spec fn digit_val(c: char, radix: nat) -> Option<nat> {
    let d: int = if '0' <= c && c <= '9' {
        c as int - '0' as int
    } else if 'a' <= c && c <= 'z' {
        c as int - 'a' as int + 10
    } else if 'A' <= c && c <= 'Z' {
        c as int - 'A' as int + 10
    } else {
        99
    };
    if 0 <= d < radix {
        Some(d as nat)
    } else {
        None
    }
}

/// The value of a big-endian digit string in the given radix.
pub open spec fn digits_value(ds: Seq<char>, radix: nat) -> nat
    decreases ds.len(),
{
    if ds.len() == 0 {
        0
    } else {
        let d: nat = match digit_val(ds.last(), radix) {
            Some(d) => d,
            None => 0,
        };
        digits_value(ds.drop_last(), radix) * radix + d
    }
}

/// The first position at or after `pos` that does not hold a digit.
pub open spec fn sp_scan(s: Seq<char>, pos: nat, radix: nat) -> nat
    decreases s.len() - pos,
{
    if pos >= s.len() || digit_val(s[pos as int], radix) is None {
        pos
    } else {
        sp_scan(s, pos + 1, radix)
    }
}

/// Product of all integers from 2 to `n` inclusive; 1 when `n <= 1`.
pub open spec fn spec_factorial(n: nat) -> nat
    decreases n,
{
    if n <= 1 {
        1
    } else {
        n * spec_factorial((n - 1) as nat)
    }
}

/// Parses an integer literal: an optional `0b`/`0o`/`0x` radix prefix
/// followed by at least one digit of that radix.
pub open spec fn sp_num(s: Seq<char>, pos: nat) -> Result<(int, nat), EvalError> {
    if pos >= s.len() {
        Err(EvalError::MissingNumber)
    } else {
        let radix: nat = if s[pos as int] == '0' && pos + 1 < s.len() {
            if s[pos + 1 as int] == 'b' {
                2
            } else if s[pos + 1 as int] == 'o' {
                8
            } else if s[pos + 1 as int] == 'x' {
                16
            } else {
                10
            }
        } else {
            10
        };
        let dstart: nat = if radix == 10 {
            pos
        } else {
            pos + 2
        };
        if dstart >= s.len() {
            Err(EvalError::MissingNumber)
        } else {
            let dend = sp_scan(s, dstart, radix);
            if dend == dstart {
                Err(EvalError::UnexpectedChar(s[dstart as int]))
            } else {
                Ok((digits_value(s.subrange(dstart as int, dend as int), radix) as int, dend))
            }
        }
    }
}

/// Parses a parenthesized expression or an integer literal.
pub open spec fn sp_paren(s: Seq<char>, pos: nat) -> Result<(int, nat), EvalError>
    decreases s.len() - pos, 1int,
{
    if pos < s.len() && s[pos as int] == '(' {
        match sp_expr(s, pos + 1) {
            Err(e) => Err(e),
            Ok((v, p)) => if p < s.len() && s[p as int] == ')' {
                Ok((v, p + 1))
            } else if p < s.len() {
                Err(EvalError::UnexpectedChar(s[p as int]))
            } else {
                Err(EvalError::UnclosedParenthesis)
            },
        }
    } else {
        sp_num(s, pos)
    }
}

/// Parses an optional leading sign, a parenthesized or literal operand, and
/// an optional trailing factorial; negation applies after the factorial.
pub open spec fn sp_unary(s: Seq<char>, pos: nat) -> Result<(int, nat), EvalError>
    decreases s.len() - pos, 2int,
{
    let neg = pos < s.len() && s[pos as int] == '-';
    let skip: nat = if pos < s.len() && (s[pos as int] == '+' || s[pos as int] == '-') {
        1
    } else {
        0
    };
    match sp_paren(s, pos + skip) {
        Err(e) => Err(e),
        Ok((v0, p0)) => {
            let bang = p0 < s.len() && s[p0 as int] == '!';
            if bang && v0 < 0 {
                Err(EvalError::NegativeFactorial)
            } else if bang && v0 > u32::MAX {
                Err(EvalError::FactorialTooBig)
            } else {
                let v1: int = if bang {
                    spec_factorial(v0 as nat) as int
                } else {
                    v0
                };
                let p1: nat = if bang {
                    p0 + 1
                } else {
                    p0
                };
                Ok(((if neg {
                    -v1
                } else {
                    v1
                }), p1))
            }
        },
    }
}

/// Parses right-associative exponentiation with `**`; the exponent must be
/// non-negative and fit a 32-bit magnitude.
pub open spec fn sp_power(s: Seq<char>, pos: nat) -> Result<(int, nat), EvalError>
    decreases s.len() - pos, 3int,
{
    match sp_unary(s, pos) {
        Err(e) => Err(e),
        Ok((v, p)) => if p + 2 <= s.len() && s[p as int] == '*' && s[p + 1 as int] == '*' && pos
            < p + 2 <= s.len() {
            match sp_power(s, p + 2) {
                Err(e) => Err(e),
                Ok((e2, p2)) => if e2 < 0 {
                    Err(EvalError::NegativeExponent)
                } else if e2 > u32::MAX {
                    Err(EvalError::ExponentTooBig)
                } else {
                    Ok((pow(v, e2 as nat), p2))
                },
            }
        } else {
            Ok((v, p))
        },
    }
}

/// Folds further `*`, `/`, `%` operands into `acc`, left to right.
pub open spec fn sp_factor_tail(s: Seq<char>, acc: int, pos: nat) -> Result<
    (int, nat),
    EvalError,
>
    decreases s.len() - pos, 4int,
{
    if pos < s.len() && (s[pos as int] == '*' || s[pos as int] == '/' || s[pos as int] == '%') {
        match sp_power(s, pos + 1) {
            Err(e) => Err(e),
            Ok((v2, p2)) => if s[pos as int] == '/' && v2 == 0 {
                Err(EvalError::DivisionByZero)
            } else if s[pos as int] == '%' && v2 == 0 {
                Err(EvalError::ModuloByZero)
            } else {
                let acc2: int = if s[pos as int] == '*' {
                    acc * v2
                } else if s[pos as int] == '/' {
                    tdiv(acc, v2)
                } else {
                    trem(acc, v2)
                };
                if pos < p2 <= s.len() {
                    sp_factor_tail(s, acc2, p2)
                } else {
                    Ok((acc2, p2))
                }
            },
        }
    } else {
        Ok((acc, pos))
    }
}

/// Parses left-associative `*`, `/`, `%` at equal precedence.
pub open spec fn sp_factor(s: Seq<char>, pos: nat) -> Result<(int, nat), EvalError>
    decreases s.len() - pos, 5int,
{
    match sp_power(s, pos) {
        Err(e) => Err(e),
        Ok((v, p)) => if pos <= p <= s.len() {
            sp_factor_tail(s, v, p)
        } else {
            Ok((v, p))
        },
    }
}

/// Folds further `+`, `-` operands into `acc`, left to right.
pub open spec fn sp_expr_tail(s: Seq<char>, acc: int, pos: nat) -> Result<(int, nat), EvalError>
    decreases s.len() - pos, 6int,
{
    if pos < s.len() && (s[pos as int] == '+' || s[pos as int] == '-') {
        match sp_factor(s, pos + 1) {
            Err(e) => Err(e),
            Ok((v2, p2)) => {
                let acc2: int = if s[pos as int] == '+' {
                    acc + v2
                } else {
                    acc - v2
                };
                if pos < p2 <= s.len() {
                    sp_expr_tail(s, acc2, p2)
                } else {
                    Ok((acc2, p2))
                }
            },
        }
    } else {
        Ok((acc, pos))
    }
}

/// Parses left-associative `+`, `-` at equal precedence: a whole expression.
pub open spec fn sp_expr(s: Seq<char>, pos: nat) -> Result<(int, nat), EvalError>
    decreases s.len() - pos, 7int,
{
    match sp_factor(s, pos) {
        Err(e) => Err(e),
        Ok((v, p)) => if pos <= p <= s.len() {
            sp_expr_tail(s, v, p)
        } else {
            Ok((v, p))
        },
    }
}

/// The executable result agrees with the specification parser: same error,
/// or same value at the same position, the value well formed and in bounds.
pub open spec fn result_matches(
    r: (Result<Signed, EvalError>, usize),
    sr: Result<(int, nat), EvalError>,
    s: Seq<char>,
    pos: nat,
) -> bool {
    match (r.0, sr) {
        (Ok(v), Ok(vp)) => v@ == vp.0 && v.wf() && r.1 == vp.1 && pos <= vp.1 <= s.len(),
        (Err(e), Err(se)) => e == se,
        _ => false,
    }
}

fn digit_of(c: char, radix: u32) -> (r: Option<u32>)
    requires
        2 <= radix <= 16,
    ensures
        (r is Some) == (digit_val(c, radix as nat) is Some),
        r is Some ==> r.unwrap() as nat == digit_val(c, radix as nat).unwrap(),
{
    let u = c as u32;
    let d: u32 = if u >= 48 && u <= 57 {
        u - 48
    } else if u >= 97 && u <= 122 {
        u - 97 + 10
    } else if u >= 65 && u <= 90 {
        u - 65 + 10
    } else {
        return None;
    };
    if d < radix {
        Some(d)
    } else {
        None
    }
}

/// Computes the product of all integers from 2 to `n` inclusive.
fn factorial(n: u32) -> (r: Natural)
    ensures
        r@ == spec_factorial(n as nat),
        r.wf(),
{
    let mut acc = Natural::from_u32(1);
    let mut i: u64 = 2;
    while i <= n as u64
        invariant
            2 <= i,
            i <= n as u64 + 1 || i == 2,
            acc.wf(),
            acc@ == spec_factorial((i - 1) as nat),
        decreases n as u64 + 1 - i,
    {
        acc = acc.mul(&Natural::from_u64(i));
        i = i + 1;
        proof {
            assert(spec_factorial((i - 1) as nat) == (i - 1) * spec_factorial((i - 2) as nat));
            assert(acc@ == spec_factorial((i - 1) as nat)) by (nonlinear_arith)
                requires
                    acc@ == spec_factorial((i - 2) as nat) * (i - 1),
                    spec_factorial((i - 1) as nat) == (i - 1) * spec_factorial((i - 2) as nat),
            ;
        }
    }
    acc
}

fn parse_num(s: &[char], pos: usize) -> (r: (Result<Signed, EvalError>, usize))
    requires
        pos <= s@.len(),
    ensures
        result_matches(r, sp_num(s@, pos as nat), s@, pos as nat),
{
    if pos >= s.len() {
        return (Err(EvalError::MissingNumber), pos);
    }
    let c0 = s[pos];
    let (radix, dstart): (u32, usize) = if c0 == '0' && pos + 1 < s.len() {
        let c1 = s[pos + 1];
        if c1 == 'b' {
            (2, pos + 2)
        } else if c1 == 'o' {
            (8, pos + 2)
        } else if c1 == 'x' {
            (16, pos + 2)
        } else {
            (10, pos)
        }
    } else {
        (10, pos)
    };
    if dstart >= s.len() {
        return (Err(EvalError::MissingNumber), pos);
    }
    let mut end = dstart;
    let mut go = digit_of(s[end], radix).is_some();
    while go
        invariant
            dstart <= end <= s@.len(),
            s@.len() <= usize::MAX,
            2 <= radix <= 16,
            go == (end < s@.len() && digit_val(s@[end as int], radix as nat) is Some),
            sp_scan(s@, dstart as nat, radix as nat) == sp_scan(s@, end as nat, radix as nat),
            forall|k: int| dstart <= k < end ==> digit_val(#[trigger] s@[k], radix as nat)
                is Some,
        decreases s@.len() - end,
    {
        end = end + 1;
        go = if end < s.len() {
            digit_of(s[end], radix).is_some()
        } else {
            false
        };
    }
    let ghost dend = sp_scan(s@, dstart as nat, radix as nat);
    proof {
        assert(dend == end);
    }
    if end == dstart {
        return (Err(EvalError::UnexpectedChar(s[dstart])), pos);
    }
    let mut acc = Natural::from_u32(0);
    let rad = Natural::from_u32(radix);
    let mut i = dstart;
    proof {
        assert(s@.subrange(dstart as int, dstart as int) =~= Seq::<char>::empty());
    }
    while i < end
        invariant
            dstart <= i <= end <= s@.len(),
            2 <= radix <= 16,
            rad@ == radix as nat,
            acc.wf(),
            forall|k: int| dstart <= k < end ==> digit_val(#[trigger] s@[k], radix as nat)
                is Some,
            acc@ == digits_value(s@.subrange(dstart as int, i as int), radix as nat),
        decreases end - i,
    {
        let dopt = digit_of(s[i], radix);
        let d = match dopt {
            Some(dd) => dd,
            None => {
                proof {
                    assert(false);
                }
                0
            },
        };
        acc = acc.mul(&rad).add(&Natural::from_u32(d));
        proof {
            let sub1 = s@.subrange(dstart as int, i + 1);
            assert(sub1.drop_last() =~= s@.subrange(dstart as int, i as int));
            assert(sub1.last() == s@[i as int]);
        }
        i = i + 1;
    }
    (Ok(Signed::from_natural(acc)), end)
}

fn parse_paren(s: &[char], pos: usize) -> (r: (Result<Signed, EvalError>, usize))
    requires
        pos <= s@.len(),
    ensures
        result_matches(r, sp_paren(s@, pos as nat), s@, pos as nat),
    decreases s@.len() - pos, 1int,
{
    if pos < s.len() && s[pos] == '(' {
        let (r1, p) = parse_expr(s, pos + 1);
        match r1 {
            Err(e) => (Err(e), p),
            Ok(v) => {
                if p < s.len() {
                    if s[p] == ')' {
                        (Ok(v), p + 1)
                    } else {
                        (Err(EvalError::UnexpectedChar(s[p])), p)
                    }
                } else {
                    (Err(EvalError::UnclosedParenthesis), p)
                }
            },
        }
    } else {
        parse_num(s, pos)
    }
}

fn parse_unary(s: &[char], pos: usize) -> (r: (Result<Signed, EvalError>, usize))
    requires
        pos <= s@.len(),
    ensures
        result_matches(r, sp_unary(s@, pos as nat), s@, pos as nat),
    decreases s@.len() - pos, 2int,
{
    let mut neg = false;
    let mut start = pos;
    if pos < s.len() {
        let c = s[pos];
        if c == '+' {
            start = pos + 1;
        } else if c == '-' {
            neg = true;
            start = pos + 1;
        }
    }
    let (r1, p) = parse_paren(s, start);
    let v = match r1 {
        Err(e) => {
            return (Err(e), p);
        },
        Ok(v) => v,
    };
    let mut val = v;
    let mut pp = p;
    if pp < s.len() && s[pp] == '!' {
        if val.is_negative() {
            return (Err(EvalError::NegativeFactorial), pp);
        }
        match val.to_u32() {
            None => {
                return (Err(EvalError::FactorialTooBig), pp);
            },
            Some(u) => {
                val = Signed::from_natural(factorial(u));
                pp = pp + 1;
            },
        }
    }
    if neg {
        val = val.neg();
    }
    (Ok(val), pp)
}

fn parse_power(s: &[char], pos: usize) -> (r: (Result<Signed, EvalError>, usize))
    requires
        pos <= s@.len(),
    ensures
        result_matches(r, sp_power(s@, pos as nat), s@, pos as nat),
    decreases s@.len() - pos, 3int,
{
    let (r1, p) = parse_unary(s, pos);
    let v = match r1 {
        Err(e) => {
            return (Err(e), p);
        },
        Ok(v) => v,
    };
    if p < s.len() && s[p] == '*' && p + 1 < s.len() && s[p + 1] == '*' {
        let (r2, p2) = parse_power(s, p + 2);
        match r2 {
            Err(e) => (Err(e), p2),
            Ok(ev) => {
                if ev.is_negative() {
                    return (Err(EvalError::NegativeExponent), p2);
                }
                match ev.to_u32() {
                    None => (Err(EvalError::ExponentTooBig), p2),
                    Some(u) => (Ok(v.pow(u)), p2),
                }
            },
        }
    } else {
        (Ok(v), p)
    }
}

fn parse_factor(s: &[char], pos: usize) -> (r: (Result<Signed, EvalError>, usize))
    requires
        pos <= s@.len(),
    ensures
        result_matches(r, sp_factor(s@, pos as nat), s@, pos as nat),
    decreases s@.len() - pos, 5int,
{
    let (r1, pfirst) = parse_power(s, pos);
    let mut acc = match r1 {
        Err(e) => {
            return (Err(e), pfirst);
        },
        Ok(v) => v,
    };
    let mut p = pfirst;
    let mut go = p < s.len() && (s[p] == '*' || s[p] == '/' || s[p] == '%');
    while go
        invariant
            pos <= p <= s@.len(),
            s@.len() <= usize::MAX,
            acc.wf(),
            go == (p < s@.len() && (s@[p as int] == '*' || s@[p as int] == '/' || s@[p as int]
                == '%')),
            sp_factor(s@, pos as nat) == sp_factor_tail(s@, acc@, p as nat),
        decreases s@.len() - p,
    {
        let op = s[p];
        let (r2, p2) = parse_power(s, p + 1);
        let v2 = match r2 {
            Err(e) => {
                return (Err(e), p2);
            },
            Ok(v) => v,
        };
        if op == '/' {
            if v2.is_zero() {
                return (Err(EvalError::DivisionByZero), p2);
            }
            acc = acc.div(&v2);
        } else if op == '%' {
            if v2.is_zero() {
                return (Err(EvalError::ModuloByZero), p2);
            }
            acc = acc.rem(&v2);
        } else {
            acc = acc.mul(&v2);
        }
        p = p2;
        go = p < s.len() && (s[p] == '*' || s[p] == '/' || s[p] == '%');
    }
    (Ok(acc), p)
}

fn parse_expr(s: &[char], pos: usize) -> (r: (Result<Signed, EvalError>, usize))
    requires
        pos <= s@.len(),
    ensures
        result_matches(r, sp_expr(s@, pos as nat), s@, pos as nat),
    decreases s@.len() - pos, 7int,
{
    let (r1, pfirst) = parse_factor(s, pos);
    let mut acc = match r1 {
        Err(e) => {
            return (Err(e), pfirst);
        },
        Ok(v) => v,
    };
    let mut p = pfirst;
    let mut go = p < s.len() && (s[p] == '+' || s[p] == '-');
    while go
        invariant
            pos <= p <= s@.len(),
            s@.len() <= usize::MAX,
            acc.wf(),
            go == (p < s@.len() && (s@[p as int] == '+' || s@[p as int] == '-')),
            sp_expr(s@, pos as nat) == sp_expr_tail(s@, acc@, p as nat),
        decreases s@.len() - p,
    {
        let op = s[p];
        let (r2, p2) = parse_factor(s, p + 1);
        let v2 = match r2 {
            Err(e) => {
                return (Err(e), p2);
            },
            Ok(v) => v,
        };
        if op == '+' {
            acc = acc.add(&v2);
        } else {
            acc = acc.sub(&v2);
        }
        p = p2;
        go = p < s.len() && (s[p] == '+' || s[p] == '-');
    }
    (Ok(acc), p)
}

/// Evaluates the expression and returns an unsigned integer if success.
pub fn eval_expression(input: &[char]) -> (r: Result<Natural, String>)
    ensures
        (r is Ok) == (sp_eval(input@) is Ok),
        r is Ok ==> r->Ok_0@ == sp_eval(input@)->Ok_0 && r->Ok_0.wf(),
        r is Err ==> r->Err_0@ == sp_eval(input@)->Err_0.spec_message(),
{
    let (r0, p) = parse_expr(input, 0);
    match r0 {
        Err(e) => Err(e.message()),
        Ok(v) => {
            if p < input.len() {
                Err(EvalError::UnexpectedChar(input[p]).message())
            } else if v.is_negative() {
                Err(EvalError::InputIsNegative.message())
            } else {
                Ok(v.into_magnitude())
            }
        },
    }
}

/// What evaluating a whole input yields: the expression's value when the
/// input is consumed entirely and the value is non-negative, else the error.
pub open spec fn sp_eval(s: Seq<char>) -> Result<int, EvalError> {
    match sp_expr(s, 0) {
        Err(e) => Err(e),
        Ok((v, p)) => if p < s.len() {
            Err(EvalError::UnexpectedChar(s[p as int]))
        } else if v < 0 {
            Err(EvalError::InputIsNegative)
        } else {
            Ok(v)
        },
    }
}

} // verus!

verus! {

/// The character that renders the digit `d`, lowercase for 10 to 15.
pub open spec fn digit_char(d: nat) -> char {
    if d == 0 {
        '0'
    } else if d == 1 {
        '1'
    } else if d == 2 {
        '2'
    } else if d == 3 {
        '3'
    } else if d == 4 {
        '4'
    } else if d == 5 {
        '5'
    } else if d == 6 {
        '6'
    } else if d == 7 {
        '7'
    } else if d == 8 {
        '8'
    } else if d == 9 {
        '9'
    } else if d == 10 {
        'a'
    } else if d == 11 {
        'b'
    } else if d == 12 {
        'c'
    } else if d == 13 {
        'd'
    } else if d == 14 {
        'e'
    } else {
        'f'
    }
}

/// `v` rendered as digits in the given radix, most significant first.
pub open spec fn spec_render(v: nat, radix: nat) -> Seq<char>
    recommends
        2 <= radix <= 16,
    decreases v,
    via spec_render_decreases
{
    if v < radix || radix < 2 {
        seq![digit_char(v)]
    } else {
        spec_render(v / radix, radix).push(digit_char(v % radix))
    }
}

#[via_fn]
proof fn spec_render_decreases(v: nat, radix: nat) {
    if !(v < radix || radix < 2) {
        vstd::arithmetic::div_mod::lemma_fundamental_div_mod(v as int, radix as int);
        assert(v / radix < v) by (nonlinear_arith)
            requires
                v == radix * (v / radix) + v % radix,
                radix >= 2,
                v >= radix,
                v % radix < radix,
                v / radix >= 0,
        ;
    }
}

proof fn lemma_digit_char(d: nat, radix: nat)
    requires
        d < radix <= 16,
    ensures
        digit_val(digit_char(d), radix) == Some(d),
{
}

/// Radix round trip: rendering a value in any supported radix yields a
/// valid digit string whose numeric value is the value itself, so parsing a
/// literal that carries those digits recovers the value.
pub proof fn lemma_radix_round_trip(v: nat, radix: nat)
    requires
        radix == 2 || radix == 8 || radix == 10 || radix == 16,
    ensures
        spec_render(v, radix).len() >= 1,
        forall|i: int| 0 <= i < spec_render(v, radix).len() ==> digit_val(
            #[trigger] spec_render(v, radix)[i],
            radix,
        ) is Some,
        digits_value(spec_render(v, radix), radix) == v,
    decreases v,
{
    reveal_with_fuel(digits_value, 2);
    if v < radix {
        lemma_digit_char(v, radix);
        let ds = spec_render(v, radix);
        assert(ds =~= seq![digit_char(v)]);
        assert(ds.drop_last() =~= Seq::<char>::empty());
        assert(digits_value(ds, radix) == 0 * radix + v);
    } else {
        lemma_radix_round_trip(v / radix, radix);
        lemma_digit_char(v % radix, radix);
        let hd = spec_render(v / radix, radix);
        let ds = spec_render(v, radix);
        assert(ds == hd.push(digit_char(v % radix)));
        assert(ds.drop_last() =~= hd);
        assert(ds.last() == digit_char(v % radix));
        assert(digits_value(ds, radix) == (v / radix) * radix + (v % radix));
        assert(v == radix * (v / radix) + v % radix) by {
            vstd::arithmetic::div_mod::lemma_fundamental_div_mod(v as int, radix as int);
        }
        assert((v / radix) * radix == radix * (v / radix)) by (nonlinear_arith);
        assert forall|i: int| 0 <= i < ds.len() implies digit_val(#[trigger] ds[i], radix)
            is Some by {
            if i < hd.len() {
                assert(ds[i] == hd[i]);
            }
        }
    }
}

} // verus!

verus! {

/// The prefix character that selects a non-decimal radix.
pub open spec fn radix_prefix_char(radix: nat) -> char {
    if radix == 2 {
        'b'
    } else if radix == 8 {
        'o'
    } else {
        'x'
    }
}

proof fn lemma_scan_all(s: Seq<char>, pos: nat, radix: nat)
    requires
        pos <= s.len(),
        forall|i: int| pos <= i < s.len() ==> digit_val(#[trigger] s[i], radix) is Some,
    ensures
        sp_scan(s, pos, radix) == s.len(),
    decreases s.len() - pos,
{
    if pos < s.len() {
        lemma_scan_all(s, pos + 1, radix);
    }
}

/// Radix round trip at the parser, decimal form: the number parser applied
/// to the rendered digits of `v` recovers `v` and consumes every character.
pub proof fn lemma_parse_rendered_decimal(v: nat)
    ensures
        sp_num(spec_render(v, 10), 0) == Ok::<(int, nat), EvalError>(
            (v as int, spec_render(v, 10).len() as nat),
        ),
{
    let s = spec_render(v, 10);
    lemma_radix_round_trip(v, 10);
    lemma_scan_all(s, 0, 10);
    if s.len() > 1 {
        assert(digit_val(s[1], 10) is Some);
        assert(s[1] != 'b' && s[1] != 'o' && s[1] != 'x');
    }
    assert(s.subrange(0, s.len() as int) =~= s);
}

/// Radix round trip at the parser, prefixed forms: for each non-decimal
/// radix, parsing `0b`, `0o` or `0x` followed by the rendered digits of `v`
/// recovers `v` and consumes every character.
pub proof fn lemma_parse_rendered_prefixed(v: nat, radix: nat)
    requires
        radix == 2 || radix == 8 || radix == 16,
    ensures
        sp_num(seq!['0', radix_prefix_char(radix)] + spec_render(v, radix), 0)
            == Ok::<(int, nat), EvalError>(
            (v as int, spec_render(v, radix).len() + 2),
        ),
{
    let ds = spec_render(v, radix);
    let s = seq!['0', radix_prefix_char(radix)] + ds;
    lemma_radix_round_trip(v, radix);
    assert(s[0] == '0' && s[1] == radix_prefix_char(radix));
    assert(s.len() == ds.len() + 2);
    assert forall|i: int| 2 <= i < s.len() implies digit_val(#[trigger] s[i], radix)
        is Some by {
        assert(s[i] == ds[i - 2]);
    }
    lemma_scan_all(s, 2, radix);
    assert(s.subrange(2, s.len() as int) =~= ds);
}

} // verus!
