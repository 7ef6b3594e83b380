//! Compile-time evaluation of integer expressions with `i128` arithmetic.

use vstd::arithmetic::power::pow;
use vstd::prelude::*;

use crate::ast::{BinOp, Expr};

verus! {

pub open spec fn in_i128(v: int) -> bool {
    i128::MIN <= v <= i128::MAX
}

/// `v` when it fits an `i128`, `None` otherwise.
pub open spec fn checked(v: int) -> Option<int> {
    if in_i128(v) {
        Some(v)
    } else {
        None
    }
}

/// Division rounding toward zero, as Rust's integer `/` does.
pub open spec fn trunc_div(x: int, d: int) -> int {
    if x == 0 {
        0
    } else if x > 0 && d > 0 {
        x / d
    } else if x < 0 && d < 0 {
        (-x) / (-d)
    } else if x < 0 {
        -((-x) / d)
    } else {
        -(x / (-d))
    }
}

/// The value of an integer expression built from literals, negation and
/// `+ - * / **`, when every intermediate result fits an `i128`, division is
/// by a non-zero value and exponents fit a `u32`.
pub open spec fn const_int(e: Expr) -> Option<int>
    decreases e,
{
    match e {
        Expr::IntLit(v, _) => Some(v as int),
        Expr::Neg(inner, _) => match const_int(*inner) {
            Some(v) => checked(-v),
            None => None,
        },
        Expr::BinOp { op, lhs, rhs, .. } => match (const_int(*lhs), const_int(*rhs)) {
            (Some(a), Some(b)) => match op {
                BinOp::Add => checked(a + b),
                BinOp::Sub => checked(a - b),
                BinOp::Mul => checked(a * b),
                BinOp::Div => if b == 0 {
                    None
                } else {
                    checked(trunc_div(a, b))
                },
                BinOp::Pow => if 0 <= b <= u32::MAX {
                    checked(pow(a, b as nat))
                } else {
                    None
                },
            },
            _ => None,
        },
        _ => None,
    }
}

proof fn lemma_pow_grows(a: int, m: nat)
    requires
        a >= 2 || a <= -2,
    ensures
        abs(pow(a, m + 1)) >= 2 * abs(pow(a, m)),
{
    vstd::arithmetic::power::lemma_pow_adds(a, m, 1);
    vstd::arithmetic::power::lemma_pow1(a);
    let p = pow(a, m);
    assert(pow(a, m + 1) == p * a);
    assert(abs(p * a) >= 2 * abs(p)) by (nonlinear_arith)
        requires
            a >= 2 || a <= -2,
    {}
}

pub open spec fn abs(v: int) -> int {
    if v < 0 {
        -v
    } else {
        v
    }
}

proof fn lemma_pow_stays_out(a: int, k: nat, e: nat)
    requires
        a >= 2 || a <= -2,
        k <= e,
        !in_i128(pow(a, k)),
    ensures
        !in_i128(pow(a, e)),
    decreases e - k,
{
    if k < e {
        lemma_pow_grows(a, k);
        let p = pow(a, k);
        let q = pow(a, (k + 1) as nat);
        assert(abs(p) >= 170141183460469231731687303715884105728);
        assert(abs(q) >= 2 * abs(p));
        assert(!in_i128(q));
        lemma_pow_stays_out(a, (k + 1) as nat, e);
    }
}

proof fn lemma_pow_unit(a: int, e: nat)
    requires
        -1 <= a <= 1,
    ensures
        a == 0 ==> pow(a, e) == (if e == 0 { 1int } else { 0int }),
        a == 1 ==> pow(a, e) == 1,
        a == -1 ==> pow(a, e) == (if e % 2 == 0 { 1int } else { -1int }),
    decreases e,
{
    vstd::arithmetic::power::lemma_pow0(a);
    if e > 0 {
        lemma_pow_unit(a, (e - 1) as nat);
        vstd::arithmetic::power::lemma_pow_adds(a, (e - 1) as nat, 1);
        vstd::arithmetic::power::lemma_pow1(a);
    }
}

/// `base` raised to `exp`, or `None` when the result does not fit an `i128`.
pub fn checked_pow_i128(base: i128, exp: u32) -> (r: Option<i128>)
    ensures
        r == (if in_i128(pow(base as int, exp as nat)) {
            Some(pow(base as int, exp as nat) as i128)
        } else {
            None::<i128>
        }),
{
    if base == 0 || base == 1 || base == -1 {
        proof {
            lemma_pow_unit(base as int, exp as nat);
        }
        if base == 0 {
            return if exp == 0 {
                Some(1)
            } else {
                Some(0)
            };
        }
        if base == 1 {
            return Some(1);
        }
        return if exp % 2 == 0 {
            Some(1)
        } else {
            Some(-1)
        };
    }
    let mut acc: i128 = 1;
    let mut k: u32 = 0;
    proof {
        vstd::arithmetic::power::lemma_pow0(base as int);
    }
    while k < exp
        invariant
            k <= exp,
            base >= 2 || base <= -2,
            acc as int == pow(base as int, k as nat),
        decreases exp - k,
    {
        proof {
            vstd::arithmetic::power::lemma_pow_adds(base as int, k as nat, 1);
            vstd::arithmetic::power::lemma_pow1(base as int);
        }
        match acc.checked_mul(base) {
            Some(v) => {
                acc = v;
            },
            None => {
                proof {
                    lemma_pow_stays_out(base as int, (k + 1) as nat, exp as nat);
                }
                return None;
            },
        }
        k += 1;
    }
    Some(acc)
}

/// Evaluate an integer expression at compile time (see [`const_int`]).
pub fn eval_int(expr: &Expr) -> (r: Option<i128>)
    ensures
        r matches Some(v) ==> const_int(*expr) == Some(v as int),
        r is None ==> const_int(*expr) is None,
    decreases expr,
{
    match expr {
        Expr::IntLit(value, _) => Some(*value as i128),
        Expr::Neg(inner, _) => {
            let v = eval_int(inner)?;
            (0i128).checked_sub(v)
        },
        Expr::BinOp { op, lhs, rhs, .. } => {
            let a = match eval_int(lhs) {
                Some(a) => a,
                None => {
                    return None;
                },
            };
            let b = match eval_int(rhs) {
                Some(b) => b,
                None => {
                    return None;
                },
            };
            match op {
                BinOp::Add => a.checked_add(b),
                BinOp::Sub => a.checked_sub(b),
                BinOp::Mul => a.checked_mul(b),
                BinOp::Div => {
                    if b == 0 {
                        None
                    } else {
                        a.checked_div(b)
                    }
                },
                BinOp::Pow => {
                    if b < 0 || b > 4294967295 {
                        None
                    } else {
                        checked_pow_i128(a, b as u32)
                    }
                },
            }
        },
        _ => None,
    }
}

} // verus!
