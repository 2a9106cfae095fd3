//! Binary operators and their evaluation on 32-bit signed values.
use vstd::prelude::*;

verus! {

/// A binary operator of the circuit language.
#[derive(Clone, Copy, Debug, PartialEq, Eq, Structural)]
pub enum BinOp {
    Add,
    Sub,
    Mul,
    Div,
    Mod,
    Power,
    BitAnd,
    BitOr,
    BitXor,
    ShiftLeft,
    ShiftRight,
    CmpEq,
    CmpNeq,
    CmpLt,
    CmpGt,
    CmpLeq,
    CmpGeq,
}

/// A unary operator of the circuit language.
#[derive(Clone, Copy, Debug, PartialEq, Eq, Structural)]
pub enum UnaryOp {
    Negate,
}

/// `x` reduced into the range of `i32` by wrapping modulo 2^32.
pub open spec fn wrap_i32(x: int) -> int {
    let m = x % 0x1_0000_0000;
    if m > i32::MAX { m - 0x1_0000_0000 } else { m }
}

/// 1 for true, 0 for false.
pub open spec fn bool_value(b: bool) -> i32 {
    if b { 1 } else { 0 }
}

/// Quotient truncated toward zero; division by zero gives 0 and the one
/// overflowing quotient (`i32::MIN / -1`) wraps to `i32::MIN`.
pub open spec fn div_value(l: i32, r: i32) -> i32 {
    match l.checked_div(r) {
        Some(q) => q,
        None => if r == 0 { 0 } else { l },
    }
}

/// Remainder with the sign of the dividend; a zero divisor gives 0, and so
/// does the overflowing case `i32::MIN % -1`.
pub open spec fn rem_value(l: i32, r: i32) -> i32 {
    match l.checked_rem(r) {
        Some(q) => q,
        None => 0,
    }
}

/// `l` raised to `r`, wrapping; a negative exponent gives 0.
pub open spec fn pow_value(l: i32, r: i32) -> i32 {
    if r < 0 { 0 } else { wrap_i32(vstd::arithmetic::power::pow(l as int, r as nat)) as i32 }
}

impl BinOp {
    /// The value of `l op r` under wrapping 32-bit semantics.
    pub open spec fn spec_fold(self, l: i32, r: i32) -> i32 {
        match self {
            BinOp::Add => l.wrapping_add(r),
            BinOp::Sub => l.wrapping_sub(r),
            BinOp::Mul => l.wrapping_mul(r),
            BinOp::Div => div_value(l, r),
            BinOp::Mod => rem_value(l, r),
            BinOp::Power => pow_value(l, r),
            BinOp::BitAnd => l & r,
            BinOp::BitOr => l | r,
            BinOp::BitXor => l ^ r,
            BinOp::ShiftLeft => l.wrapping_shl(r as u32),
            BinOp::ShiftRight => l.wrapping_shr(r as u32),
            BinOp::CmpEq => bool_value(l == r),
            BinOp::CmpNeq => bool_value(l != r),
            BinOp::CmpLt => bool_value(l < r),
            BinOp::CmpGt => bool_value(l > r),
            BinOp::CmpLeq => bool_value(l <= r),
            BinOp::CmpGeq => bool_value(l >= r),
        }
    }

    pub open spec fn spec_is_compare(self) -> bool {
        match self {
            BinOp::CmpEq | BinOp::CmpNeq | BinOp::CmpLt | BinOp::CmpGt | BinOp::CmpLeq
            | BinOp::CmpGeq => true,
            _ => false,
        }
    }

    /// The outcome of comparing any value with itself.
    pub open spec fn spec_fold_same(self) -> i32 {
        match self {
            BinOp::CmpEq | BinOp::CmpLeq | BinOp::CmpGeq => 1,
            _ => 0,
        }
    }

    /// Evaluates `l op r`; overflow wraps instead of trapping.
    pub fn fold(&self, l: i32, r: i32) -> (v: i32)
        ensures
            v == self.spec_fold(l, r),
    {
        match self {
            BinOp::Add => l.wrapping_add(r),
            BinOp::Sub => l.wrapping_sub(r),
            BinOp::Mul => l.wrapping_mul(r),
            BinOp::Div => match l.checked_div(r) {
                Some(q) => q,
                None => if r == 0 { 0 } else { l },
            },
            BinOp::Mod => match l.checked_rem(r) {
                Some(q) => q,
                None => 0,
            },
            BinOp::Power => if r < 0 { 0 } else { wrapping_power(l, r as u32) },
            BinOp::BitAnd => l & r,
            BinOp::BitOr => l | r,
            BinOp::BitXor => l ^ r,
            BinOp::ShiftLeft => l.wrapping_shl(r as u32),
            BinOp::ShiftRight => l.wrapping_shr(r as u32),
            BinOp::CmpEq => if l == r { 1 } else { 0 },
            BinOp::CmpNeq => if l != r { 1 } else { 0 },
            BinOp::CmpLt => if l < r { 1 } else { 0 },
            BinOp::CmpGt => if l > r { 1 } else { 0 },
            BinOp::CmpLeq => if l <= r { 1 } else { 0 },
            BinOp::CmpGeq => if l >= r { 1 } else { 0 },
        }
    }

    /// Whether this operator is a comparison, yielding 0 or 1.
    pub fn is_compare(&self) -> (b: bool)
        ensures
            b == self.spec_is_compare(),
    {
        match self {
            BinOp::CmpEq | BinOp::CmpNeq | BinOp::CmpLt | BinOp::CmpGt | BinOp::CmpLeq
            | BinOp::CmpGeq => true,
            _ => false,
        }
    }

    /// The result of comparing a value with itself: 1 for `==`, `<=`, `>=`,
    /// 0 otherwise.
    pub fn fold_same(&self) -> (v: i32)
        ensures
            v == self.spec_fold_same(),
    {
        match self {
            BinOp::CmpEq | BinOp::CmpLeq | BinOp::CmpGeq => 1,
            _ => 0,
        }
    }
}

/// Comparing a value with itself gives the operator's self-comparison
/// outcome.
pub proof fn lemma_fold_self_compare(op: BinOp, v: i32)
    requires
        op.spec_is_compare(),
    ensures
        op.spec_fold(v, v) == op.spec_fold_same(),
{
}

/// Relies on `i32::wrapping_pow`: `b` to the power `e`, reduced modulo 2^32.
#[verifier::external_body]
fn wrapping_power(b: i32, e: u32) -> (r: i32)
    ensures
        r as int == wrap_i32(vstd::arithmetic::power::pow(b as int, e as nat)),
{
    b.wrapping_pow(e)
}

} // verus!
