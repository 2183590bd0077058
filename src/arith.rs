use vstd::prelude::*;
use vstd::arithmetic::div_mod::{lemma_fundamental_div_mod, lemma_mod_multiples_vanish, lemma_small_mod};
use crate::literal::{IntegerType, LiteralData, LiteralView};
use crate::register::EvalError;

verus! {

/// The four arithmetic operations.
#[derive(Clone, Copy, Debug, PartialEq, Eq, Structural)]
pub enum ArithOp {
    Add,
    Sub,
    Mul,
    Div,
}

/// Integer division rounding toward zero.
pub open spec fn trunc_div(x: int, d: int) -> int {
    if x == 0 {
        0
    } else if x > 0 && d > 0 {
        x / d
    } else if x < 0 && d < 0 {
        (x * -1) / (d * -1)
    } else if x < 0 {
        ((x * -1) / d) * -1
    } else {
        (x / (d * -1)) * -1
    }
}

/// The exact mathematical result of `op` on `a` and `b`.
pub open spec fn exact(op: ArithOp, a: int, b: int) -> int {
    match op {
        ArithOp::Add => a + b,
        ArithOp::Sub => a - b,
        ArithOp::Mul => a * b,
        ArithOp::Div => trunc_div(a, b),
    }
}

/// The value that `op` on integers of type `t` produces, or `None` where it halts.
///
/// Division by zero halts in both forms. Otherwise the checked form halts when
/// the exact result is out of range, and the wrapped form reduces it modulo 2
/// to the bit width.
pub open spec fn arith_result(op: ArithOp, wrapped: bool, t: IntegerType, a: int, b: int) -> Option<int> {
    if op == ArithOp::Div && b == 0 {
        None
    } else if wrapped {
        Some(t.wrap(exact(op, a, b)))
    } else if t.in_range(exact(op, a, b)) {
        Some(exact(op, a, b))
    } else {
        None
    }
}

/// A value in range that differs from `x` by a multiple of the modulus is the wrap of `x`.
pub proof fn lemma_wrap_unique(t: IntegerType, x: int, v: int, k: int)
    requires
        t.in_range(v),
        x == v + t.modulus() * k,
    ensures
        t.wrap(x) == v,
{
    let m = t.modulus();
    assert(x - t.min() == m * k + (v - t.min()));
    lemma_mod_multiples_vanish(k, v - t.min(), m);
    lemma_small_mod((v - t.min()) as nat, m as nat);
}

/// Wrapping never changes a value that is already in range.
pub proof fn lemma_wrap_in_range(t: IntegerType, x: int)
    requires
        t.in_range(x),
    ensures
        t.wrap(x) == x,
{
    lemma_wrap_unique(t, x, x, 0);
}

proof fn lemma_signed_crop(t: IntegerType, x: int)
    requires
        t.is_signed(),
    ensures
        ({
            let r = x % t.modulus();
            let c = if r > t.max() { r - t.modulus() } else { r };
            t.in_range(c) && t.wrap(x) == c
        }),
{
    let m = t.modulus();
    let r = x % m;
    let c = if r > t.max() { r - m } else { r };
    lemma_fundamental_div_mod(x, m);
    if r > t.max() {
        assert(x == c + m * (x / m + 1)) by (nonlinear_arith)
            requires x == m * (x / m) + r, c == r - m;
        lemma_wrap_unique(t, x, c, x / m + 1);
    } else {
        assert(x == c + m * (x / m));
        lemma_wrap_unique(t, x, c, x / m);
    }
}

proof fn lemma_unsigned_crop(t: IntegerType, x: int)
    requires
        !t.is_signed(),
    ensures
        t.in_range(x % t.modulus()) && t.wrap(x) == x % t.modulus(),
{
    let m = t.modulus();
    lemma_fundamental_div_mod(x, m);
    lemma_wrap_unique(t, x, x % m, x / m);
}

/// A value in range that is one modulus away from `x`, or equal to it, is the wrap of `x`.
proof fn lemma_wrap_near(t: IntegerType, x: int, v: int)
    requires
        t.in_range(v),
        x == v || x == v + t.modulus() || x == v - t.modulus(),
    ensures
        t.wrap(x) == v,
{
    if x == v {
        lemma_wrap_unique(t, x, v, 0);
    } else if x == v + t.modulus() {
        lemma_wrap_unique(t, x, v, 1);
    } else {
        lemma_wrap_unique(t, x, v, -1);
    }
}

/// Truncating division stays in range, but for the lowest value divided by -1.
proof fn lemma_trunc_div_in_range(t: IntegerType, a: int, b: int)
    requires
        t.in_range(a),
        t.in_range(b),
        b != 0,
        !(a == t.min() && b == -1),
    ensures
        t.in_range(trunc_div(a, b)),
{
    let q = trunc_div(a, b);
    if a > 0 && b > 0 {
        assert(0 <= a / b <= a) by (nonlinear_arith) requires a > 0, b > 0;
    } else if a < 0 && b < 0 {
        assert(0 <= (a * -1) / (b * -1) <= a * -1) by (nonlinear_arith) requires a < 0, b < 0;
        if b == -1 {
            assert(b * -1 == 1);
            assert((a * -1) / 1 == a * -1) by (nonlinear_arith);
        } else {
            assert((a * -1) / (b * -1) <= (a * -1) / 2) by (nonlinear_arith) requires a < 0, b < -1;
            assert(t.min() == -(t.modulus() / 2));
        }
    } else if a < 0 && b > 0 {
        assert(0 <= (a * -1) / b <= a * -1) by (nonlinear_arith) requires a < 0, b > 0;
    } else if a > 0 && b < 0 {
        assert(0 <= a / (b * -1) <= a) by (nonlinear_arith) requires a > 0, b < 0;
    }
}

fn arith_i8(op: ArithOp, wrapped: bool, a: i8, b: i8) -> (r: Option<i8>)
    ensures
        match arith_result(op, wrapped, IntegerType::I8, a as int, b as int) {
            Some(v) => r is Some && r->0 as int == v,
            None => r is None,
        },
{
    let t = IntegerType::I8;
    match op {
        ArithOp::Add => if wrapped {
            proof { lemma_wrap_near(t, a + b, a.wrapping_add(b) as int); }
            Some(a.wrapping_add(b))
        } else {
            a.checked_add(b)
        },
        ArithOp::Sub => if wrapped {
            proof { lemma_wrap_near(t, a - b, a.wrapping_sub(b) as int); }
            Some(a.wrapping_sub(b))
        } else {
            a.checked_sub(b)
        },
        ArithOp::Mul => if wrapped {
            proof { lemma_signed_crop(t, a * b); }
            Some(a.wrapping_mul(b))
        } else {
            a.checked_mul(b)
        },
        ArithOp::Div => if b == 0 {
            None
        } else {
            if wrapped && a == i8::MIN && b == -1 {
                proof {
                    let na = a as int * -1;
                    assert(na / 1 == na) by (nonlinear_arith);
                    assert(trunc_div(a as int, b as int) == na);
                    lemma_wrap_unique(t, na, i8::MIN as int, 1);
                }
                Some(i8::MIN)
            } else {
                let q = a.checked_div(b);
                proof {
                    if !(a as int == t.min() && b == -1) {
                        lemma_trunc_div_in_range(t, a as int, b as int);
                    } else {
                        let na = a as int * -1;
                        assert(na / 1 == na) by (nonlinear_arith);
                        assert(trunc_div(a as int, b as int) == t.max() + 1);
                    }
                    if wrapped {
                        lemma_wrap_in_range(t, trunc_div(a as int, b as int));
                    }
                }
                q
            }
        },
    }
}


fn arith_i16(op: ArithOp, wrapped: bool, a: i16, b: i16) -> (r: Option<i16>)
    ensures
        match arith_result(op, wrapped, IntegerType::I16, a as int, b as int) {
            Some(v) => r is Some && r->0 as int == v,
            None => r is None,
        },
{
    let t = IntegerType::I16;
    match op {
        ArithOp::Add => if wrapped {
            proof { lemma_wrap_near(t, a + b, a.wrapping_add(b) as int); }
            Some(a.wrapping_add(b))
        } else {
            a.checked_add(b)
        },
        ArithOp::Sub => if wrapped {
            proof { lemma_wrap_near(t, a - b, a.wrapping_sub(b) as int); }
            Some(a.wrapping_sub(b))
        } else {
            a.checked_sub(b)
        },
        ArithOp::Mul => if wrapped {
            proof { lemma_signed_crop(t, a * b); }
            Some(a.wrapping_mul(b))
        } else {
            a.checked_mul(b)
        },
        ArithOp::Div => if b == 0 {
            None
        } else {
            if wrapped && a == i16::MIN && b == -1 {
                proof {
                    let na = a as int * -1;
                    assert(na / 1 == na) by (nonlinear_arith);
                    assert(trunc_div(a as int, b as int) == na);
                    lemma_wrap_unique(t, na, i16::MIN as int, 1);
                }
                Some(i16::MIN)
            } else {
                let q = a.checked_div(b);
                proof {
                    if !(a as int == t.min() && b == -1) {
                        lemma_trunc_div_in_range(t, a as int, b as int);
                    } else {
                        let na = a as int * -1;
                        assert(na / 1 == na) by (nonlinear_arith);
                        assert(trunc_div(a as int, b as int) == t.max() + 1);
                    }
                    if wrapped {
                        lemma_wrap_in_range(t, trunc_div(a as int, b as int));
                    }
                }
                q
            }
        },
    }
}


fn arith_i32(op: ArithOp, wrapped: bool, a: i32, b: i32) -> (r: Option<i32>)
    ensures
        match arith_result(op, wrapped, IntegerType::I32, a as int, b as int) {
            Some(v) => r is Some && r->0 as int == v,
            None => r is None,
        },
{
    let t = IntegerType::I32;
    match op {
        ArithOp::Add => if wrapped {
            proof { lemma_wrap_near(t, a + b, a.wrapping_add(b) as int); }
            Some(a.wrapping_add(b))
        } else {
            a.checked_add(b)
        },
        ArithOp::Sub => if wrapped {
            proof { lemma_wrap_near(t, a - b, a.wrapping_sub(b) as int); }
            Some(a.wrapping_sub(b))
        } else {
            a.checked_sub(b)
        },
        ArithOp::Mul => if wrapped {
            proof { lemma_signed_crop(t, a * b); }
            Some(a.wrapping_mul(b))
        } else {
            a.checked_mul(b)
        },
        ArithOp::Div => if b == 0 {
            None
        } else {
            if wrapped && a == i32::MIN && b == -1 {
                proof {
                    let na = a as int * -1;
                    assert(na / 1 == na) by (nonlinear_arith);
                    assert(trunc_div(a as int, b as int) == na);
                    lemma_wrap_unique(t, na, i32::MIN as int, 1);
                }
                Some(i32::MIN)
            } else {
                let q = a.checked_div(b);
                proof {
                    if !(a as int == t.min() && b == -1) {
                        lemma_trunc_div_in_range(t, a as int, b as int);
                    } else {
                        let na = a as int * -1;
                        assert(na / 1 == na) by (nonlinear_arith);
                        assert(trunc_div(a as int, b as int) == t.max() + 1);
                    }
                    if wrapped {
                        lemma_wrap_in_range(t, trunc_div(a as int, b as int));
                    }
                }
                q
            }
        },
    }
}


fn arith_i64(op: ArithOp, wrapped: bool, a: i64, b: i64) -> (r: Option<i64>)
    ensures
        match arith_result(op, wrapped, IntegerType::I64, a as int, b as int) {
            Some(v) => r is Some && r->0 as int == v,
            None => r is None,
        },
{
    let t = IntegerType::I64;
    match op {
        ArithOp::Add => if wrapped {
            proof { lemma_wrap_near(t, a + b, a.wrapping_add(b) as int); }
            Some(a.wrapping_add(b))
        } else {
            a.checked_add(b)
        },
        ArithOp::Sub => if wrapped {
            proof { lemma_wrap_near(t, a - b, a.wrapping_sub(b) as int); }
            Some(a.wrapping_sub(b))
        } else {
            a.checked_sub(b)
        },
        ArithOp::Mul => if wrapped {
            proof { lemma_signed_crop(t, a * b); }
            Some(a.wrapping_mul(b))
        } else {
            a.checked_mul(b)
        },
        ArithOp::Div => if b == 0 {
            None
        } else {
            if wrapped && a == i64::MIN && b == -1 {
                proof {
                    let na = a as int * -1;
                    assert(na / 1 == na) by (nonlinear_arith);
                    assert(trunc_div(a as int, b as int) == na);
                    lemma_wrap_unique(t, na, i64::MIN as int, 1);
                }
                Some(i64::MIN)
            } else {
                let q = a.checked_div(b);
                proof {
                    if !(a as int == t.min() && b == -1) {
                        lemma_trunc_div_in_range(t, a as int, b as int);
                    } else {
                        let na = a as int * -1;
                        assert(na / 1 == na) by (nonlinear_arith);
                        assert(trunc_div(a as int, b as int) == t.max() + 1);
                    }
                    if wrapped {
                        lemma_wrap_in_range(t, trunc_div(a as int, b as int));
                    }
                }
                q
            }
        },
    }
}


fn arith_i128(op: ArithOp, wrapped: bool, a: i128, b: i128) -> (r: Option<i128>)
    ensures
        match arith_result(op, wrapped, IntegerType::I128, a as int, b as int) {
            Some(v) => r is Some && r->0 as int == v,
            None => r is None,
        },
{
    let t = IntegerType::I128;
    match op {
        ArithOp::Add => if wrapped {
            proof { lemma_wrap_near(t, a + b, a.wrapping_add(b) as int); }
            Some(a.wrapping_add(b))
        } else {
            a.checked_add(b)
        },
        ArithOp::Sub => if wrapped {
            proof { lemma_wrap_near(t, a - b, a.wrapping_sub(b) as int); }
            Some(a.wrapping_sub(b))
        } else {
            a.checked_sub(b)
        },
        ArithOp::Mul => if wrapped {
            proof { lemma_signed_crop(t, a * b); }
            Some(a.wrapping_mul(b))
        } else {
            a.checked_mul(b)
        },
        ArithOp::Div => if b == 0 {
            None
        } else {
            if wrapped && a == i128::MIN && b == -1 {
                proof {
                    let na = a as int * -1;
                    assert(na / 1 == na) by (nonlinear_arith);
                    assert(trunc_div(a as int, b as int) == na);
                    lemma_wrap_unique(t, na, i128::MIN as int, 1);
                }
                Some(i128::MIN)
            } else {
                let q = a.checked_div(b);
                proof {
                    if !(a as int == t.min() && b == -1) {
                        lemma_trunc_div_in_range(t, a as int, b as int);
                    } else {
                        let na = a as int * -1;
                        assert(na / 1 == na) by (nonlinear_arith);
                        assert(trunc_div(a as int, b as int) == t.max() + 1);
                    }
                    if wrapped {
                        lemma_wrap_in_range(t, trunc_div(a as int, b as int));
                    }
                }
                q
            }
        },
    }
}


fn arith_u8(op: ArithOp, wrapped: bool, a: u8, b: u8) -> (r: Option<u8>)
    ensures
        match arith_result(op, wrapped, IntegerType::U8, a as int, b as int) {
            Some(v) => r is Some && r->0 as int == v,
            None => r is None,
        },
{
    let t = IntegerType::U8;
    match op {
        ArithOp::Add => if wrapped {
            proof { lemma_wrap_near(t, a + b, a.wrapping_add(b) as int); }
            Some(a.wrapping_add(b))
        } else {
            a.checked_add(b)
        },
        ArithOp::Sub => if wrapped {
            proof { lemma_wrap_near(t, a - b, a.wrapping_sub(b) as int); }
            Some(a.wrapping_sub(b))
        } else {
            a.checked_sub(b)
        },
        ArithOp::Mul => if wrapped {
            proof { lemma_unsigned_crop(t, a * b); }
            Some(a.wrapping_mul(b))
        } else {
            a.checked_mul(b)
        },
        ArithOp::Div => if b == 0 {
            None
        } else {
            proof {
                lemma_trunc_div_in_range(t, a as int, b as int);
                if wrapped {
                    lemma_wrap_in_range(t, trunc_div(a as int, b as int));
                }
            }
            a.checked_div(b)
        },
    }
}


fn arith_u16(op: ArithOp, wrapped: bool, a: u16, b: u16) -> (r: Option<u16>)
    ensures
        match arith_result(op, wrapped, IntegerType::U16, a as int, b as int) {
            Some(v) => r is Some && r->0 as int == v,
            None => r is None,
        },
{
    let t = IntegerType::U16;
    match op {
        ArithOp::Add => if wrapped {
            proof { lemma_wrap_near(t, a + b, a.wrapping_add(b) as int); }
            Some(a.wrapping_add(b))
        } else {
            a.checked_add(b)
        },
        ArithOp::Sub => if wrapped {
            proof { lemma_wrap_near(t, a - b, a.wrapping_sub(b) as int); }
            Some(a.wrapping_sub(b))
        } else {
            a.checked_sub(b)
        },
        ArithOp::Mul => if wrapped {
            proof { lemma_unsigned_crop(t, a * b); }
            Some(a.wrapping_mul(b))
        } else {
            a.checked_mul(b)
        },
        ArithOp::Div => if b == 0 {
            None
        } else {
            proof {
                lemma_trunc_div_in_range(t, a as int, b as int);
                if wrapped {
                    lemma_wrap_in_range(t, trunc_div(a as int, b as int));
                }
            }
            a.checked_div(b)
        },
    }
}


fn arith_u32(op: ArithOp, wrapped: bool, a: u32, b: u32) -> (r: Option<u32>)
    ensures
        match arith_result(op, wrapped, IntegerType::U32, a as int, b as int) {
            Some(v) => r is Some && r->0 as int == v,
            None => r is None,
        },
{
    let t = IntegerType::U32;
    match op {
        ArithOp::Add => if wrapped {
            proof { lemma_wrap_near(t, a + b, a.wrapping_add(b) as int); }
            Some(a.wrapping_add(b))
        } else {
            a.checked_add(b)
        },
        ArithOp::Sub => if wrapped {
            proof { lemma_wrap_near(t, a - b, a.wrapping_sub(b) as int); }
            Some(a.wrapping_sub(b))
        } else {
            a.checked_sub(b)
        },
        ArithOp::Mul => if wrapped {
            proof { lemma_unsigned_crop(t, a * b); }
            Some(a.wrapping_mul(b))
        } else {
            a.checked_mul(b)
        },
        ArithOp::Div => if b == 0 {
            None
        } else {
            proof {
                lemma_trunc_div_in_range(t, a as int, b as int);
                if wrapped {
                    lemma_wrap_in_range(t, trunc_div(a as int, b as int));
                }
            }
            a.checked_div(b)
        },
    }
}


fn arith_u64(op: ArithOp, wrapped: bool, a: u64, b: u64) -> (r: Option<u64>)
    ensures
        match arith_result(op, wrapped, IntegerType::U64, a as int, b as int) {
            Some(v) => r is Some && r->0 as int == v,
            None => r is None,
        },
{
    let t = IntegerType::U64;
    match op {
        ArithOp::Add => if wrapped {
            proof { lemma_wrap_near(t, a + b, a.wrapping_add(b) as int); }
            Some(a.wrapping_add(b))
        } else {
            a.checked_add(b)
        },
        ArithOp::Sub => if wrapped {
            proof { lemma_wrap_near(t, a - b, a.wrapping_sub(b) as int); }
            Some(a.wrapping_sub(b))
        } else {
            a.checked_sub(b)
        },
        ArithOp::Mul => if wrapped {
            proof { lemma_unsigned_crop(t, a * b); }
            Some(a.wrapping_mul(b))
        } else {
            a.checked_mul(b)
        },
        ArithOp::Div => if b == 0 {
            None
        } else {
            proof {
                lemma_trunc_div_in_range(t, a as int, b as int);
                if wrapped {
                    lemma_wrap_in_range(t, trunc_div(a as int, b as int));
                }
            }
            a.checked_div(b)
        },
    }
}


fn arith_u128(op: ArithOp, wrapped: bool, a: u128, b: u128) -> (r: Option<u128>)
    ensures
        match arith_result(op, wrapped, IntegerType::U128, a as int, b as int) {
            Some(v) => r is Some && r->0 as int == v,
            None => r is None,
        },
{
    let t = IntegerType::U128;
    match op {
        ArithOp::Add => if wrapped {
            proof { lemma_wrap_near(t, a + b, a.wrapping_add(b) as int); }
            Some(a.wrapping_add(b))
        } else {
            a.checked_add(b)
        },
        ArithOp::Sub => if wrapped {
            proof { lemma_wrap_near(t, a - b, a.wrapping_sub(b) as int); }
            Some(a.wrapping_sub(b))
        } else {
            a.checked_sub(b)
        },
        ArithOp::Mul => if wrapped {
            proof { lemma_unsigned_crop(t, a * b); }
            Some(a.wrapping_mul(b))
        } else {
            a.checked_mul(b)
        },
        ArithOp::Div => if b == 0 {
            None
        } else {
            proof {
                lemma_trunc_div_in_range(t, a as int, b as int);
                if wrapped {
                    lemma_wrap_in_range(t, trunc_div(a as int, b as int));
                }
            }
            a.checked_div(b)
        },
    }
}

/// What `op` makes of two literal payloads: the result, or why it halts.
pub open spec fn arith_view(op: ArithOp, wrapped: bool, x: LiteralView, y: LiteralView) -> Result<LiteralView, EvalError> {
    if !(x.0 is Integer && x.0 == y.0) {
        Err(EvalError::TypeMismatch)
    } else {
        let t = x.0->Integer_0;
        match arith_result(op, wrapped, t, x.1, y.1) {
            Some(v) => Ok((x.0, v, Seq::empty())),
            None => if op == ArithOp::Div && y.1 == 0 {
                Err(EvalError::DivisionByZero)
            } else {
                Err(EvalError::Overflow)
            },
        }
    }
}

/// Applies `op` to two integer literals of one type, checked or wrapped.
pub fn apply_arith(op: ArithOp, wrapped: bool, x: &LiteralData, y: &LiteralData) -> (r: Result<LiteralData, EvalError>)
    ensures
        match r {
            Ok(d) => arith_view(op, wrapped, x@, y@) == Ok::<LiteralView, EvalError>(d@),
            Err(e) => arith_view(op, wrapped, x@, y@) == Err::<LiteralView, EvalError>(e),
        },
{
    match (x, y) {
        (LiteralData::I8(a), LiteralData::I8(b)) => match arith_i8(op, wrapped, *a, *b) {
            Some(v) => Ok(LiteralData::I8(v)),
            None => Err(if op == ArithOp::Div && *b == 0 { EvalError::DivisionByZero } else { EvalError::Overflow }),
        },
        (LiteralData::I16(a), LiteralData::I16(b)) => match arith_i16(op, wrapped, *a, *b) {
            Some(v) => Ok(LiteralData::I16(v)),
            None => Err(if op == ArithOp::Div && *b == 0 { EvalError::DivisionByZero } else { EvalError::Overflow }),
        },
        (LiteralData::I32(a), LiteralData::I32(b)) => match arith_i32(op, wrapped, *a, *b) {
            Some(v) => Ok(LiteralData::I32(v)),
            None => Err(if op == ArithOp::Div && *b == 0 { EvalError::DivisionByZero } else { EvalError::Overflow }),
        },
        (LiteralData::I64(a), LiteralData::I64(b)) => match arith_i64(op, wrapped, *a, *b) {
            Some(v) => Ok(LiteralData::I64(v)),
            None => Err(if op == ArithOp::Div && *b == 0 { EvalError::DivisionByZero } else { EvalError::Overflow }),
        },
        (LiteralData::I128(a), LiteralData::I128(b)) => match arith_i128(op, wrapped, *a, *b) {
            Some(v) => Ok(LiteralData::I128(v)),
            None => Err(if op == ArithOp::Div && *b == 0 { EvalError::DivisionByZero } else { EvalError::Overflow }),
        },
        (LiteralData::U8(a), LiteralData::U8(b)) => match arith_u8(op, wrapped, *a, *b) {
            Some(v) => Ok(LiteralData::U8(v)),
            None => Err(if op == ArithOp::Div && *b == 0 { EvalError::DivisionByZero } else { EvalError::Overflow }),
        },
        (LiteralData::U16(a), LiteralData::U16(b)) => match arith_u16(op, wrapped, *a, *b) {
            Some(v) => Ok(LiteralData::U16(v)),
            None => Err(if op == ArithOp::Div && *b == 0 { EvalError::DivisionByZero } else { EvalError::Overflow }),
        },
        (LiteralData::U32(a), LiteralData::U32(b)) => match arith_u32(op, wrapped, *a, *b) {
            Some(v) => Ok(LiteralData::U32(v)),
            None => Err(if op == ArithOp::Div && *b == 0 { EvalError::DivisionByZero } else { EvalError::Overflow }),
        },
        (LiteralData::U64(a), LiteralData::U64(b)) => match arith_u64(op, wrapped, *a, *b) {
            Some(v) => Ok(LiteralData::U64(v)),
            None => Err(if op == ArithOp::Div && *b == 0 { EvalError::DivisionByZero } else { EvalError::Overflow }),
        },
        (LiteralData::U128(a), LiteralData::U128(b)) => match arith_u128(op, wrapped, *a, *b) {
            Some(v) => Ok(LiteralData::U128(v)),
            None => Err(if op == ArithOp::Div && *b == 0 { EvalError::DivisionByZero } else { EvalError::Overflow }),
        },
        _ => Err(EvalError::TypeMismatch),
    }
}

} // verus!
