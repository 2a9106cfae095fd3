use circuit_ir::op::BinOp;

#[test]
fn add_wraps_at_max() {
    assert_eq!(BinOp::Add.fold(i32::MAX, 1), i32::MIN);
}

#[test]
fn sub_and_mul_wrap() {
    assert_eq!(BinOp::Sub.fold(i32::MIN, 1), i32::MAX);
    assert_eq!(BinOp::Mul.fold(0x10000, 0x10000), 0);
    assert_eq!(BinOp::Mul.fold(6, -7), -42);
}

#[test]
fn division_truncates_and_is_total() {
    assert_eq!(BinOp::Div.fold(7, 2), 3);
    assert_eq!(BinOp::Div.fold(-7, 2), -3);
    assert_eq!(BinOp::Div.fold(5, 0), 0);
    assert_eq!(BinOp::Div.fold(i32::MIN, -1), i32::MIN);
}

#[test]
fn remainder_follows_dividend_and_is_total() {
    assert_eq!(BinOp::Mod.fold(7, 3), 1);
    assert_eq!(BinOp::Mod.fold(-7, 3), -1);
    assert_eq!(BinOp::Mod.fold(7, 0), 0);
    assert_eq!(BinOp::Mod.fold(i32::MIN, -1), 0);
}

#[test]
fn power_wraps() {
    assert_eq!(BinOp::Power.fold(2, 10), 1024);
    assert_eq!(BinOp::Power.fold(3, 0), 1);
    assert_eq!(BinOp::Power.fold(2, 32), 0);
    assert_eq!(BinOp::Power.fold(2, 31), i32::MIN);
    assert_eq!(BinOp::Power.fold(5, -1), 0);
}

#[test]
fn bitwise_and_shifts() {
    assert_eq!(BinOp::BitAnd.fold(0b1100, 0b1010), 0b1000);
    assert_eq!(BinOp::BitOr.fold(0b1100, 0b1010), 0b1110);
    assert_eq!(BinOp::BitXor.fold(0b1100, 0b1010), 0b0110);
    assert_eq!(BinOp::ShiftLeft.fold(1, 4), 16);
    assert_eq!(BinOp::ShiftLeft.fold(1, 33), 2);
    assert_eq!(BinOp::ShiftRight.fold(-16, 2), -4);
}

#[test]
fn comparisons_give_zero_or_one() {
    assert_eq!(BinOp::CmpEq.fold(3, 3), 1);
    assert_eq!(BinOp::CmpNeq.fold(3, 3), 0);
    assert_eq!(BinOp::CmpLt.fold(2, 3), 1);
    assert_eq!(BinOp::CmpGt.fold(2, 3), 0);
    assert_eq!(BinOp::CmpLeq.fold(3, 3), 1);
    assert_eq!(BinOp::CmpGeq.fold(2, 3), 0);
}

#[test]
fn self_comparison_outcomes() {
    assert_eq!(BinOp::CmpEq.fold_same(), 1);
    assert_eq!(BinOp::CmpLeq.fold_same(), 1);
    assert_eq!(BinOp::CmpGeq.fold_same(), 1);
    assert_eq!(BinOp::CmpNeq.fold_same(), 0);
    assert_eq!(BinOp::CmpLt.fold_same(), 0);
    assert_eq!(BinOp::CmpGt.fold_same(), 0);
    assert!(BinOp::CmpLt.is_compare());
    assert!(!BinOp::Add.is_compare());
}
