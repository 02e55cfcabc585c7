use std::cmp::Ordering;
use mm0_server::bigint::BigInt;
use mm0_server::types::{Binop, BinopType, IntTy, Size, Unop};

fn val(b: &BigInt) -> i128 {
    let mut v: i128 = 0;
    for d in b.mag.iter().rev() {
        v = v * (1i128 << 32) + *d as i128;
    }
    if b.neg {
        -v
    } else {
        v
    }
}

fn big(v: i64) -> BigInt {
    BigInt::from_i64(v)
}

fn un(op: Unop, n: i64) -> Option<i128> {
    op.apply_int(&big(n)).map(|r| val(&r))
}

fn bin(op: Binop, a: i64, b: i64) -> Option<i128> {
    op.apply_int_int(&big(a), &big(b)).map(|r| val(&r))
}

#[test]
fn bitnot_truncation() {
    assert_eq!(un(Unop::BitNot(Size::S8), 0x12), Some(0xED));
    assert_eq!(un(Unop::BitNot(Size::Inf), -1), Some(0));
}

#[test]
fn bitnot_fixed_sizes_and_out_of_range() {
    assert_eq!(un(Unop::BitNot(Size::S16), 0), Some(0xFFFF));
    assert_eq!(un(Unop::BitNot(Size::S32), 1), Some(0xFFFF_FFFE));
    assert_eq!(un(Unop::BitNot(Size::S64), 0), Some(0xFFFF_FFFF_FFFF_FFFF));
    assert_eq!(un(Unop::BitNot(Size::S8), 256), None);
    assert_eq!(un(Unop::BitNot(Size::S8), -1), None);
    assert_eq!(un(Unop::BitNot(Size::Inf), 5), Some(-6));
}

#[test]
fn cast_to_i8() {
    assert_eq!(un(Unop::As(IntTy::Int(Size::S8)), 130), Some(-126));
}

#[test]
fn casts_wrap_and_fix_members() {
    assert_eq!(un(Unop::As(IntTy::Int(Size::S8)), -128), Some(-128));
    assert_eq!(un(Unop::As(IntTy::Int(Size::S8)), 127), Some(127));
    assert_eq!(un(Unop::As(IntTy::Int(Size::S8)), 128), Some(-128));
    assert_eq!(un(Unop::As(IntTy::Int(Size::S16)), 0x1_8000), Some(-0x8000));
    assert_eq!(un(Unop::As(IntTy::UInt(Size::S8)), -1), Some(255));
    assert_eq!(un(Unop::As(IntTy::UInt(Size::S8)), 300), Some(44));
    assert_eq!(un(Unop::As(IntTy::UInt(Size::S32)), 0x1_0000_0005), Some(5));
    assert_eq!(un(Unop::As(IntTy::UInt(Size::S64)), -1), Some(0xFFFF_FFFF_FFFF_FFFF));
    assert_eq!(un(Unop::As(IntTy::Int(Size::S64)), i64::MIN), Some(i64::MIN as i128));
    assert_eq!(un(Unop::As(IntTy::Int(Size::Inf)), -77), Some(-77));
}

#[test]
fn contains_iff_cast_is_identity() {
    let tys = [
        IntTy::Int(Size::S8),
        IntTy::Int(Size::S16),
        IntTy::Int(Size::S32),
        IntTy::Int(Size::S64),
        IntTy::Int(Size::Inf),
        IntTy::UInt(Size::S8),
        IntTy::UInt(Size::S16),
        IntTy::UInt(Size::S32),
        IntTy::UInt(Size::S64),
    ];
    let ns: [i64; 10] = [0, -1, 127, 128, -129, 255, 256, 70000, -5_000_000_000, i64::MAX];
    for t in tys {
        for n in ns {
            let r = un(Unop::As(t), n);
            assert_eq!(t.contains(&big(n)), r == Some(n as i128), "{:?} {}", t, n);
        }
    }
}

#[test]
fn contains_edges() {
    assert!(IntTy::UInt(Size::Inf).contains(&big(0)));
    assert!(!IntTy::UInt(Size::Inf).contains(&big(-1)));
    assert!(IntTy::UInt(Size::S64).contains(&BigInt::from_u64(u64::MAX)));
    assert!(!IntTy::Int(Size::S64).contains(&BigInt::from_u64(u64::MAX)));
    assert!(IntTy::Int(Size::S32).contains(&big(-0x8000_0000)));
    assert!(!IntTy::Int(Size::S32).contains(&big(0x8000_0000)));
}

#[test]
fn neg_and_not() {
    assert_eq!(un(Unop::Neg, 5), Some(-5));
    assert_eq!(un(Unop::Neg, 0), Some(0));
    assert_eq!(un(Unop::Not, 1), None);
    assert!(!Unop::Not.apply_bool(true));
    assert!(Unop::Neg.int_in_out());
    assert!(!Unop::Not.int_in_out());
    assert_eq!(Unop::BitNot(Size::S8).to_str(), "bnot");
}

#[test]
fn nat_subtraction_breaks_nat() {
    assert!(!Binop::Sub.preserves_nat());
    assert_eq!(bin(Binop::Sub, 3, 5), Some(-2));
}

#[test]
fn nat_preserving_ops_on_examples() {
    let ops = [
        Binop::Add,
        Binop::Mul,
        Binop::Max,
        Binop::Min,
        Binop::BitAnd,
        Binop::BitOr,
        Binop::BitXor,
        Binop::Shl,
        Binop::Shr,
    ];
    for op in ops {
        assert!(op.preserves_nat());
        for (a, b) in [(0, 0), (3, 5), (12, 10), (1 << 40, 7)] {
            let r = bin(op, a, b).unwrap();
            assert!(r >= 0, "{:?} {} {}", op, a, b);
        }
    }
}

#[test]
fn integer_folding_exact_values() {
    assert_eq!(bin(Binop::Add, 2, 3), Some(5));
    assert_eq!(bin(Binop::Mul, -4, 3), Some(-12));
    assert_eq!(bin(Binop::Max, 2, 9), Some(9));
    assert_eq!(bin(Binop::Min, 2, 9), Some(2));
    assert_eq!(bin(Binop::BitAnd, 12, 10), Some(8));
    assert_eq!(bin(Binop::BitOr, 12, 10), Some(14));
    assert_eq!(bin(Binop::BitXor, 12, 10), Some(6));
    assert_eq!(bin(Binop::BitAnd, -1, 6), Some(6));
    assert_eq!(bin(Binop::BitOr, -8, 3), Some(-5));
    assert_eq!(bin(Binop::BitXor, -1, 5), Some(-6));
    assert_eq!(bin(Binop::Shl, 3, 4), Some(48));
    assert_eq!(bin(Binop::Shl, -3, 40), Some(-3 * (1i128 << 40)));
    assert_eq!(bin(Binop::Shr, 48, 4), Some(3));
    assert_eq!(bin(Binop::Shr, -7, 1), Some(-4));
    assert_eq!(bin(Binop::Shl, 1, -1), None);
    assert_eq!(bin(Binop::Lt, 1, 2), None);
    assert_eq!(bin(Binop::And, 1, 1), None);
    assert_eq!(bin(Binop::Mul, 1 << 40, 1 << 40), Some(1i128 << 80));
}

#[test]
fn comparisons_and_booleans() {
    let (a, b) = (big(-3), big(4));
    assert!(Binop::Lt.apply_int_bool(&a, &b));
    assert!(!Binop::Lt.apply_int_bool(&b, &a));
    assert!(Binop::Le.apply_int_bool(&a, &a));
    assert!(Binop::Eq.apply_int_bool(&b, &big(4)));
    assert!(Binop::Ne.apply_int_bool(&a, &b));
    assert!(Binop::And.apply_bool_bool(true, true));
    assert!(!Binop::And.apply_bool_bool(true, false));
    assert!(Binop::Or.apply_bool_bool(false, true));
}

#[test]
fn binop_classification() {
    assert_eq!(Binop::Add.ty(), BinopType::IntIntInt);
    assert_eq!(Binop::Shl.ty(), BinopType::IntNatInt);
    assert_eq!(Binop::Eq.ty(), BinopType::IntIntBool);
    assert_eq!(Binop::Or.ty(), BinopType::BoolBoolBool);
    assert!(BinopType::IntNatInt.int_in() && BinopType::IntNatInt.int_out());
    assert!(BinopType::IntIntBool.int_in() && !BinopType::IntIntBool.int_out());
    assert!(!BinopType::BoolBoolBool.int_in());
    assert!(Binop::Shr.preserves_usize());
    assert!(!Binop::Add.preserves_usize());
    assert_eq!(Binop::Ne.to_str(), "!=");
    assert_eq!(Binop::BitXor.to_str(), "bxor");
}

#[test]
fn sizes_and_int_types() {
    assert_eq!(Size::S16.bits(), Some(16));
    assert_eq!(Size::Inf.bits(), None);
    assert_eq!(Size::S64.bytes(), Some(8));
    assert_eq!(Size::default(), Size::Inf);
    assert_eq!(IntTy::UInt(Size::S32).size(), Size::S32);
    assert_eq!(IntTy::Int(Size::Inf).to_str(), "int");
    assert_eq!(IntTy::UInt(Size::Inf).to_str(), "nat");
    assert_eq!(IntTy::Int(Size::S8).to_str(), "i8");
    assert!(IntTy::UInt(Size::S8).le(IntTy::Int(Size::S16)));
    assert!(!IntTy::UInt(Size::S8).le(IntTy::Int(Size::S8)));
    assert!(!IntTy::Int(Size::S8).le(IntTy::UInt(Size::Inf)));
    assert!(IntTy::Int(Size::S8).le(IntTy::Int(Size::Inf)));
}

#[test]
fn bigint_construction() {
    assert_eq!(val(&BigInt::from_u64(u64::MAX)), u64::MAX as i128);
    assert_eq!(val(&BigInt::from_i64(i64::MIN)), i64::MIN as i128);
    assert!(BigInt::from_i64(0).mag.is_empty() && !BigInt::from_i64(0).neg);
    assert_eq!(val(&big(-5).negated()), 5);
    assert!(!big(0).negated().neg);
}

#[test]
fn int_types_partial_order() {
    let u8t = IntTy::UInt(Size::S8);
    let i8t = IntTy::Int(Size::S8);
    let i16t = IntTy::Int(Size::S16);
    assert_eq!(u8t.compare(i16t), Some(Ordering::Less));
    assert_eq!(i16t.compare(u8t), Some(Ordering::Greater));
    assert_eq!(u8t.compare(i8t), None);
    assert_eq!(i8t.compare(i8t), Some(Ordering::Equal));
    assert!(u8t.lt(i16t));
    assert!(!i8t.lt(i8t));
}

#[test]
fn usize_preserving_ops_stay_in_range() {
    for op in [Binop::BitAnd, Binop::BitOr, Binop::BitXor, Binop::Shr] {
        assert!(op.preserves_usize());
        for (a, b) in [(0, 0), (255, 255), (200, 55), (1, 7), (128, 3)] {
            let r = bin(op, a, b).unwrap();
            assert!((0..256).contains(&r), "{:?} {} {}", op, a, b);
            assert!(IntTy::UInt(Size::S8).contains(&big(r as i64)));
        }
    }
    assert_eq!(bin(Binop::Add, 200, 100), Some(300));
    assert!(!Binop::Add.preserves_usize());
}
