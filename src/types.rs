//! Integer types and the unary and binary operators of the language, with their folding rules.

use vstd::prelude::*;
use vstd::arithmetic::power2::{pow2, lemma2_to64, lemma2_to64_rest};
use vstd::arithmetic::div_mod::{lemma_fundamental_div_mod, lemma_fundamental_div_mod_converse};
use crate::bigint::{
    BigInt, bit_and, bit_or, bit_xor, lemma_and_low_mask, lemma_bitwise_bounded, lemma_bitwise_nonneg, big_not, big_add,
    big_sub, big_mul, big_and, big_or, big_xor, big_shl, big_shr, big_cmp, big_to_u64, big_to_i64,
    big_to_usize,
};

verus! {

/// An interned atom, resolved through the environment.
#[derive(Clone, Copy, Debug, PartialEq, Eq, Structural, Hash)]
pub struct AtomId(pub u32);

/// A term constructor of the environment.
#[derive(Clone, Copy, Debug, PartialEq, Eq, Structural, Hash)]
pub struct TermId(pub u32);

/// A variable ID. These are local to a given declaration (function, constant, global),
/// but are not de Bruijn variables: they are unique identifiers within the declaration.
#[derive(Clone, Copy, Debug, Default, PartialEq, Eq, Structural, Hash)]
pub struct VarId(pub u32);

/// The character of the decimal digit `d`.
pub open spec fn digit_char(d: nat) -> char {
    if d == 0 {
        '0'
    } else if d == 1 {
        '1'
    } else if d == 2 {
        '2'
    } else if d == 3 {
        '3'
    } else if d == 4 {
        '4'
    } else if d == 5 {
        '5'
    } else if d == 6 {
        '6'
    } else if d == 7 {
        '7'
    } else if d == 8 {
        '8'
    } else {
        '9'
    }
}

/// The decimal digits of `n`, most significant first (`"0"` for zero).
pub open spec fn decimal(n: nat) -> Seq<char>
    decreases n,
{
    if n < 10 {
        seq![digit_char(n)]
    } else {
        decimal(n / 10) + seq![digit_char(n % 10)]
    }
}

/// The decimal digit `d` as a string.
fn digit_str(d: u32) -> (r: &'static str)
    requires
        d < 10,
    ensures
        r@ == seq![digit_char(d as nat)],
{
    match d {
        0 => {
            proof {
                reveal_strlit("0");
                assert("0"@ =~= seq!['0']);
            }
            "0"
        },
        1 => {
            proof {
                reveal_strlit("1");
                assert("1"@ =~= seq!['1']);
            }
            "1"
        },
        2 => {
            proof {
                reveal_strlit("2");
                assert("2"@ =~= seq!['2']);
            }
            "2"
        },
        3 => {
            proof {
                reveal_strlit("3");
                assert("3"@ =~= seq!['3']);
            }
            "3"
        },
        4 => {
            proof {
                reveal_strlit("4");
                assert("4"@ =~= seq!['4']);
            }
            "4"
        },
        5 => {
            proof {
                reveal_strlit("5");
                assert("5"@ =~= seq!['5']);
            }
            "5"
        },
        6 => {
            proof {
                reveal_strlit("6");
                assert("6"@ =~= seq!['6']);
            }
            "6"
        },
        7 => {
            proof {
                reveal_strlit("7");
                assert("7"@ =~= seq!['7']);
            }
            "7"
        },
        8 => {
            proof {
                reveal_strlit("8");
                assert("8"@ =~= seq!['8']);
            }
            "8"
        },
        _ => {
            proof {
                reveal_strlit("9");
                assert("9"@ =~= seq!['9']);
            }
            "9"
        },
    }
}

/// Append the decimal digits of `n` to `s`.
pub(crate) fn push_decimal(s: &mut String, n: u32)
    ensures
        final(s)@ == old(s)@ + decimal(n as nat),
    decreases n,
{
    if n >= 10 {
        push_decimal(s, n / 10);
    }
    let ghost mid = s@;
    s.append(digit_str(n % 10));
    assert(s@ =~= old(s)@ + decimal(n as nat));
}

impl VarId {
    /// The name of this variable: `_` and its number, as in `_12`.
    pub fn display(&self) -> (r: String)
        ensures
            r@ == seq!['_'] + decimal(self.0 as nat),
    {
        let mut s = String::from_str("_");
        proof {
            reveal_strlit("_");
            assert(s@ =~= seq!['_']);
        }
        push_decimal(&mut s, self.0);
        s
    }
}

/// A location in a source file: the file's path and a byte range.
#[derive(Clone, Debug)]
pub struct FileSpan {
    /// The file.
    pub file: String,
    /// The first byte of the range.
    pub start: usize,
    /// One past the last byte of the range.
    pub end: usize,
}

impl FileSpan {
    /// A copy of this span.
    pub fn copied(&self) -> (r: FileSpan)
        ensures
            r == *self,
    {
        FileSpan { file: self.file.clone(), start: self.start, end: self.end }
    }
}

/// A value with the place in the source it came from.
#[derive(Clone, Debug)]
pub struct Spanned<T> {
    /// The span of the expression.
    pub span: FileSpan,
    /// The data (often a `*Kind` enum, but it can be anything).
    pub k: T,
}

impl<T> Spanned<T> {
    /// Transform a `Spanned<T>` into `Spanned<U>` given `f: T -> U`, keeping the span.
    pub fn map_into<U, F: FnOnce(T) -> U>(self, f: F) -> (r: Spanned<U>)
        requires
            f.requires((self.k,)),
        ensures
            r.span == self.span,
            f.ensures((self.k,), r.k),
    {
        Spanned { span: self.span, k: f(self.k) }
    }
}

/// Possible sizes for integer operations and types.
#[derive(Copy, Clone, Debug, PartialEq, Eq, Structural, PartialOrd, Ord, Hash)]
pub enum Size {
    /// 8 bits, or 1 byte. Used for `u8` and `i8`.
    S8,
    /// 16 bits, or 2 bytes. Used for `u16` and `i16`.
    S16,
    /// 32 bits, or 4 bytes. Used for `u32` and `i32`.
    S32,
    /// 64 bits, or 8 bytes. Used for `u64` and `i64`.
    S64,
    /// Unbounded size. Used for `nat` and `int`. (These types are only legal for ghost
    /// variables; the compiler does not support bignum compilation.)
    Inf,
}

impl Default for Size {
    fn default() -> (r: Self)
        ensures
            r == Size::Inf,
    {
        Size::Inf
    }
}

impl Size {
    /// The number of bits, or `None` for the unbounded size.
    pub open spec fn spec_bits(self) -> Option<u8> {
        match self {
            Size::Inf => None,
            Size::S8 => Some(8),
            Size::S16 => Some(16),
            Size::S32 => Some(32),
            Size::S64 => Some(64),
        }
    }

    /// `2^bits`: the number of values of an integer type of this size (0 for `Inf`).
    pub open spec fn modulus(self) -> int {
        match self {
            Size::Inf => 0,
            Size::S8 => 0x100,
            Size::S16 => 0x1_0000,
            Size::S32 => 0x1_0000_0000,
            Size::S64 => 0x1_0000_0000_0000_0000,
        }
    }

    /// The position of this size in the order `S8 < S16 < S32 < S64 < Inf`.
    pub open spec fn rank(self) -> int {
        match self {
            Size::S8 => 0,
            Size::S16 => 1,
            Size::S32 => 2,
            Size::S64 => 3,
            Size::Inf => 4,
        }
    }

    /// The number of bits of this type, or `None` for the infinite case.
    pub fn bits(self) -> (r: Option<u8>)
        ensures
            r == self.spec_bits(),
    {
        match self {
            Size::Inf => None,
            Size::S8 => Some(8),
            Size::S16 => Some(16),
            Size::S32 => Some(32),
            Size::S64 => Some(64),
        }
    }

    /// The number of bytes of this type, or `None` for the infinite case.
    pub fn bytes(self) -> (r: Option<u8>)
        ensures
            r == match self {
                Size::Inf => None,
                Size::S8 => Some(1u8),
                Size::S16 => Some(2u8),
                Size::S32 => Some(4u8),
                Size::S64 => Some(8u8),
            },
    {
        match self {
            Size::Inf => None,
            Size::S8 => Some(1),
            Size::S16 => Some(2),
            Size::S32 => Some(4),
            Size::S64 => Some(8),
        }
    }

    /// `self.rank()` as a number.
    fn rank_exec(self) -> (r: u8)
        ensures
            r as int == self.rank(),
    {
        match self {
            Size::S8 => 0,
            Size::S16 => 1,
            Size::S32 => 2,
            Size::S64 => 3,
            Size::Inf => 4,
        }
    }

    /// The largest unsigned value of a finite size, `2^bits - 1`.
    fn max_unsigned(self) -> (r: u64)
        requires
            self != Size::Inf,
        ensures
            r as int == self.modulus() - 1,
    {
        match self {
            Size::S8 => 0xff,
            Size::S16 => 0xffff,
            Size::S32 => 0xffff_ffff,
            _ => 0xffff_ffff_ffff_ffff,
        }
    }
}

/// `pow2` at the bit widths of the finite sizes.
proof fn lemma_modulus_pow2(sz: Size)
    requires
        sz != Size::Inf,
    ensures
        sz.modulus() == pow2(sz.spec_bits().unwrap() as nat),
        sz.modulus() >= 0x100,
{
    lemma2_to64();
    lemma2_to64_rest();
}

/// The set of integral types: signed and unsigned integers of various bit widths, plus the
/// computationally unrepresentable unbounded naturals and integers.
#[derive(Copy, Clone, Debug, PartialEq, Eq, Structural, Hash)]
pub enum IntTy {
    /// The type of signed integers of given bit width, or all integers.
    Int(Size),
    /// The type of unsigned integers of given bit width, or all nonnegative integers.
    UInt(Size),
}

impl IntTy {
    /// Membership of `n` in this type.
    pub open spec fn spec_contains(self, n: int) -> bool {
        match self {
            IntTy::Int(Size::Inf) => true,
            IntTy::Int(sz) => -(sz.modulus() / 2) <= n < sz.modulus() / 2,
            IntTy::UInt(Size::Inf) => n >= 0,
            IntTy::UInt(sz) => 0 <= n < sz.modulus(),
        }
    }

    /// Inclusion of types: `self <= other` when every member of `self` is one of `other`.
    pub open spec fn spec_le(self, other: IntTy) -> bool {
        match (self, other) {
            (IntTy::Int(sz1), IntTy::Int(sz2)) => sz1.rank() <= sz2.rank(),
            (IntTy::UInt(sz1), IntTy::UInt(sz2)) => sz1.rank() <= sz2.rank(),
            (IntTy::Int(_), IntTy::UInt(_)) => false,
            (IntTy::UInt(sz1), IntTy::Int(sz2)) => sz1.rank() < sz2.rank(),
        }
    }

    /// The name of this type in the surface language.
    pub open spec fn spec_name(self) -> Seq<char> {
        match self {
            IntTy::Int(Size::Inf) => "int"@,
            IntTy::Int(Size::S8) => "i8"@,
            IntTy::Int(Size::S16) => "i16"@,
            IntTy::Int(Size::S32) => "i32"@,
            IntTy::Int(Size::S64) => "i64"@,
            IntTy::UInt(Size::Inf) => "nat"@,
            IntTy::UInt(Size::S8) => "u8"@,
            IntTy::UInt(Size::S16) => "u16"@,
            IntTy::UInt(Size::S32) => "u32"@,
            IntTy::UInt(Size::S64) => "u64"@,
        }
    }

    /// The size of this integral type.
    pub fn size(self) -> (r: Size)
        ensures
            r == match self {
                IntTy::Int(sz) => sz,
                IntTy::UInt(sz) => sz,
            },
    {
        match self {
            IntTy::Int(sz) | IntTy::UInt(sz) => sz,
        }
    }

    /// A string description of this type.
    pub fn to_str(self) -> (r: &'static str)
        ensures
            r@ == self.spec_name(),
    {
        match self {
            IntTy::Int(Size::Inf) => "int",
            IntTy::Int(Size::S8) => "i8",
            IntTy::Int(Size::S16) => "i16",
            IntTy::Int(Size::S32) => "i32",
            IntTy::Int(Size::S64) => "i64",
            IntTy::UInt(Size::Inf) => "nat",
            IntTy::UInt(Size::S8) => "u8",
            IntTy::UInt(Size::S16) => "u16",
            IntTy::UInt(Size::S32) => "u32",
            IntTy::UInt(Size::S64) => "u64",
        }
    }

    /// Returns true if `n` is a valid member of this integral type.
    pub fn contains(self, n: &BigInt) -> (r: bool)
        ensures
            r == self.spec_contains(n@),
    {
        match self {
            IntTy::Int(Size::Inf) => true,
            IntTy::UInt(Size::Inf) => {
                let zero = BigInt::from_u64(0);
                match big_cmp(n, &zero) {
                    std::cmp::Ordering::Less => false,
                    _ => true,
                }
            },
            IntTy::Int(sz) => match big_to_i64(n) {
                None => {
                    assert(sz.modulus() / 2 <= 0x8000_0000_0000_0000);
                    false
                },
                Some(v) => match sz {
                    Size::S8 => -0x80 <= v && v < 0x80,
                    Size::S16 => -0x8000 <= v && v < 0x8000,
                    Size::S32 => -0x8000_0000 <= v && v < 0x8000_0000,
                    _ => true,
                },
            },
            IntTy::UInt(sz) => match big_to_u64(n) {
                None => false,
                Some(v) => v <= sz.max_unsigned(),
            },
        }
    }

    /// Compare by inclusion: `Equal` when each includes the other, `Less` or `Greater` when
    /// only one includes the other, `None` when neither does.
    pub fn compare(self, other: IntTy) -> (r: Option<std::cmp::Ordering>)
        ensures
            r == if self.spec_le(other) && other.spec_le(self) {
                Some(std::cmp::Ordering::Equal)
            } else if self.spec_le(other) {
                Some(std::cmp::Ordering::Less)
            } else if other.spec_le(self) {
                Some(std::cmp::Ordering::Greater)
            } else {
                None
            },
    {
        match (self.le(other), other.le(self)) {
            (true, true) => Some(std::cmp::Ordering::Equal),
            (true, false) => Some(std::cmp::Ordering::Less),
            (false, true) => Some(std::cmp::Ordering::Greater),
            (false, false) => None,
        }
    }

    /// Strict inclusion: `self` is included in `other` and differs from it.
    pub fn lt(self, other: IntTy) -> (r: bool)
        ensures
            r == (self.spec_le(other) && self != other),
    {
        self.le(other) && self != other
    }

    /// Inclusion of types, deciding `spec_le`.
    pub fn le(self, other: IntTy) -> (r: bool)
        ensures
            r == self.spec_le(other),
    {
        match (self, other) {
            (IntTy::Int(sz1), IntTy::Int(sz2)) => sz1.rank_exec() <= sz2.rank_exec(),
            (IntTy::UInt(sz1), IntTy::UInt(sz2)) => sz1.rank_exec() <= sz2.rank_exec(),
            (IntTy::Int(_), IntTy::UInt(_)) => false,
            (IntTy::UInt(sz1), IntTy::Int(sz2)) => sz1.rank_exec() < sz2.rank_exec(),
        }
    }
}

/// Two's-complement wrapping of `n` into `[-m/2, m/2)`.
pub open spec fn wrap_signed(n: int, m: int) -> int {
    if n % m >= m / 2 {
        n % m - m
    } else {
        n % m
    }
}

/// (Elaborated) unary operations.
#[derive(Copy, Clone, Debug, PartialEq, Eq, Structural, Hash)]
pub enum Unop {
    /// Integer negation
    Neg,
    /// Logical (boolean) NOT
    Not,
    /// Bitwise NOT. For fixed size this is the operation `2^n - x - 1`, and
    /// for infinite size this is `-x - 1`. Signed NOT always uses `Size::Inf`.
    BitNot(Size),
    /// Truncation into the given type. For fixed size this is the operation `x % 2^n`,
    /// for `int` this is the identity, and for `nat` this is invalid.
    As(IntTy),
}

impl Unop {
    /// The value of this operation on the integer `n`, or `None` where it has none.
    pub open spec fn spec_apply_int(self, n: int) -> Option<int> {
        match self {
            Unop::Neg => Some(-n),
            Unop::Not => None,
            Unop::BitNot(Size::Inf) => Some(-n - 1),
            Unop::BitNot(sz) => if 0 <= n < sz.modulus() {
                Some(sz.modulus() - n - 1)
            } else {
                None
            },
            Unop::As(IntTy::Int(Size::Inf)) => Some(n),
            Unop::As(IntTy::Int(sz)) => Some(wrap_signed(n, sz.modulus())),
            Unop::As(IntTy::UInt(Size::Inf)) => None,
            Unop::As(IntTy::UInt(sz)) => Some(n % sz.modulus()),
        }
    }

    /// The symbol of this operation.
    pub open spec fn spec_name(self) -> Seq<char> {
        match self {
            Unop::Neg => "-"@,
            Unop::Not => "not"@,
            Unop::BitNot(_) => "bnot"@,
            Unop::As(_) => "as.."@,
        }
    }

    /// Return a string representation of the `Unop`.
    pub fn to_str(self) -> (r: &'static str)
        ensures
            r@ == self.spec_name(),
    {
        match self {
            Unop::Neg => "-",
            Unop::Not => "not",
            Unop::BitNot(_) => "bnot",
            Unop::As(_) => "as..",
        }
    }

    /// Returns true if this takes integral arguments, and false if it takes booleans.
    pub fn int_in_out(self) -> (r: bool)
        ensures
            r == !(self is Not),
    {
        match self {
            Unop::Neg | Unop::BitNot(_) | Unop::As(_) => true,
            Unop::Not => false,
        }
    }

    /// Apply this unary operation as a `bool -> bool` function.
    /// Only `Not` is such a function.
    pub fn apply_bool(self, b: bool) -> (r: bool)
        requires
            self is Not,
        ensures
            r == !b,
    {
        !b
    }

    /// Apply this unary operation as a `int -> int` function. Returns `None` if the inputs are
    /// out of range or if it is not a `int -> int` function. Truncation into `nat` is invalid.
    pub fn apply_int(self, n: &BigInt) -> (r: Option<BigInt>)
        requires
            self != Unop::As(IntTy::UInt(Size::Inf)),
        ensures
            match r {
                Some(x) => self.spec_apply_int(n@) == Some(x@) && (n.wf() ==> x.wf()),
                None => self.spec_apply_int(n@) is None,
            },
    {
        match self {
            Unop::Neg => Some(n.negated()),
            Unop::Not => None,
            Unop::BitNot(Size::Inf) => Some(big_not(n)),
            Unop::BitNot(sz) => match big_to_u64(n) {
                None => None,
                Some(v) => match sz {
                    Size::S8 => if v <= 0xff {
                        let x = v as u8;
                        let y = !x;
                        assert(y == 0xff - x) by (bit_vector)
                            requires
                                y == !x,
                        ;
                        Some(BigInt::from_u64(y as u64))
                    } else {
                        None
                    },
                    Size::S16 => if v <= 0xffff {
                        let x = v as u16;
                        let y = !x;
                        assert(y == 0xffff - x) by (bit_vector)
                            requires
                                y == !x,
                        ;
                        Some(BigInt::from_u64(y as u64))
                    } else {
                        None
                    },
                    Size::S32 => if v <= 0xffff_ffff {
                        let x = v as u32;
                        let y = !x;
                        assert(y == 0xffff_ffff - x) by (bit_vector)
                            requires
                                y == !x,
                        ;
                        Some(BigInt::from_u64(y as u64))
                    } else {
                        None
                    },
                    _ => {
                        let y = !v;
                        assert(y == 0xffff_ffff_ffff_ffff - v) by (bit_vector)
                            requires
                                y == !v,
                        ;
                        Some(BigInt::from_u64(y))
                    },
                },
            },
            Unop::As(IntTy::Int(Size::Inf)) => Some(n.copied()),
            Unop::As(IntTy::Int(sz)) => Some(truncate_signed(n, sz)),
            Unop::As(IntTy::UInt(sz)) => Some(truncate_unsigned(n, sz)),
        }
    }
}

/// `n` modulo `2^bits`, by masking with `2^bits - 1`.
fn truncate_unsigned(n: &BigInt, sz: Size) -> (r: BigInt)
    requires
        sz != Size::Inf,
    ensures
        r@ == n@ % sz.modulus(),
        n.wf() ==> r.wf(),
{
    proof {
        lemma_modulus_pow2(sz);
    }
    if IntTy::UInt(sz).contains(n) {
        proof {
            lemma_fundamental_div_mod_converse(n@, sz.modulus(), 0, n@);
        }
        n.copied()
    } else {
        let mask = BigInt::from_u64(sz.max_unsigned());
        proof {
            lemma_and_low_mask(n@, sz.spec_bits().unwrap() as nat);
        }
        big_and(n, &mask)
    }
}

/// `n` wrapped into the signed range of `sz`, as two's-complement truncation does.
fn truncate_signed(n: &BigInt, sz: Size) -> (r: BigInt)
    requires
        sz != Size::Inf,
    ensures
        r@ == wrap_signed(n@, sz.modulus()),
        n.wf() ==> r.wf(),
{
    proof {
        lemma_modulus_pow2(sz);
        lemma_wrap_signed_in_range(n@, sz.modulus());
    }
    if IntTy::Int(sz).contains(n) {
        n.copied()
    } else {
        let m = truncate_unsigned(n, sz);
        proof {
            lemma_fundamental_div_mod(n@, sz.modulus());
        }
        match big_to_u64(&m) {
            Some(v) => {
                let half: u64 = (sz.max_unsigned() / 2) + 1;
                let w: i128 = if v >= half {
                    v as i128 - 2 * (half as i128)
                } else {
                    v as i128
                };
                BigInt::from_i64(w as i64)
            },
            None => {
                assert(false);
                n.copied()
            },
        }
    }
}

/// Signed wrapping fixes exactly the members of the signed range.
proof fn lemma_wrap_signed_in_range(n: int, m: int)
    requires
        m >= 2,
        m % 2 == 0,
    ensures
        -(m / 2) <= wrap_signed(n, m) < m / 2,
        wrap_signed(n, m) == n <==> -(m / 2) <= n < m / 2,
{
    lemma_fundamental_div_mod(n, m);
    assert(0 <= n % m < m) by {
        vstd::arithmetic::div_mod::lemma_mod_bound(n, m);
    }
    if 0 <= n < m / 2 {
        lemma_fundamental_div_mod_converse(n, m, 0, n);
    } else if -(m / 2) <= n < 0 {
        lemma_fundamental_div_mod_converse(n, m, -1, n + m);
    }
}

/// Unsigned truncation fixes exactly the members of the unsigned range.
proof fn lemma_mod_in_range(n: int, m: int)
    requires
        m >= 1,
    ensures
        0 <= n % m < m,
        n % m == n <==> 0 <= n < m,
{
    vstd::arithmetic::div_mod::lemma_mod_bound(n, m);
    if 0 <= n < m {
        lemma_fundamental_div_mod_converse(n, m, 0, n);
    }
}

/// Truncating into a type changes exactly the integers that are not members of it: for every
/// integer `n` and every type `t` but `nat`, `t` contains `n` if and only if `as t` maps `n`
/// to itself.
pub proof fn lemma_as_fixes_members(t: IntTy, n: int)
    requires
        t != IntTy::UInt(Size::Inf),
    ensures
        t.spec_contains(n) <==> Unop::As(t).spec_apply_int(n) == Some(n),
{
    match t {
        IntTy::Int(Size::Inf) => {},
        IntTy::Int(sz) => {
            lemma_modulus_pow2(sz);
            lemma_wrap_signed_in_range(n, sz.modulus());
        },
        IntTy::UInt(sz) => {
            lemma_modulus_pow2(sz);
            lemma_mod_in_range(n, sz.modulus());
        },
    }
}

/// Classification of the binary operations into types.
#[derive(Copy, Clone, Debug, PartialEq, Eq, Structural, Hash)]
pub enum BinopType {
    /// `(int, int) -> int` functions, like `x + y`, `x * y`, `x & y`
    IntIntInt,
    /// `(int, int) -> bool` functions, like `x < y`, `x = y`, `x <= y`
    IntIntBool,
    /// `(int, nat) -> int` functions: `x << y` and `x >> y`
    IntNatInt,
    /// `(bool, bool) -> bool` functions: `x && y` and `x || y`
    BoolBoolBool,
}

impl BinopType {
    /// Does this function take integral types as input, or booleans?
    pub fn int_in(self) -> (r: bool)
        ensures
            r == !(self is BoolBoolBool),
    {
        matches!(self, BinopType::IntIntInt | BinopType::IntIntBool | BinopType::IntNatInt)
    }

    /// Does this function produce integral types as output, or booleans?
    pub fn int_out(self) -> (r: bool)
        ensures
            r == (self is IntIntInt || self is IntNatInt),
    {
        matches!(self, BinopType::IntIntInt | BinopType::IntNatInt)
    }
}

/// (Elaborated) binary operations.
#[derive(Copy, Clone, Debug, PartialEq, Eq, Structural, Hash)]
pub enum Binop {
    /// Integer addition
    Add,
    /// Integer multiplication
    Mul,
    /// Integer subtraction
    Sub,
    /// Maximum
    Max,
    /// Minimum
    Min,
    /// Logical (boolean) AND
    And,
    /// Logical (boolean) OR
    Or,
    /// Bitwise AND, for signed or unsigned integers of any size
    BitAnd,
    /// Bitwise OR, for signed or unsigned integers of any size
    BitOr,
    /// Bitwise XOR, for signed or unsigned integers of any size
    BitXor,
    /// Shift left
    Shl,
    /// Shift right (arithmetic)
    Shr,
    /// Less than, for signed or unsigned integers of any size
    Lt,
    /// Less than or equal, for signed or unsigned integers of any size
    Le,
    /// Equal, for signed or unsigned integers of any size
    Eq,
    /// Not equal, for signed or unsigned integers of any size
    Ne,
}

impl Binop {
    /// The type of this operation.
    pub open spec fn spec_ty(self) -> BinopType {
        match self {
            Binop::Add | Binop::Mul | Binop::Sub | Binop::Max | Binop::Min | Binop::BitAnd
            | Binop::BitOr | Binop::BitXor => BinopType::IntIntInt,
            Binop::Shl | Binop::Shr => BinopType::IntNatInt,
            Binop::Lt | Binop::Le | Binop::Eq | Binop::Ne => BinopType::IntIntBool,
            Binop::And | Binop::Or => BinopType::BoolBoolBool,
        }
    }

    /// This operation returns an integer.
    pub open spec fn is_int_op(self) -> bool {
        self.spec_ty() is IntIntInt || self.spec_ty() is IntNatInt
    }

    /// Nonnegative inputs give a nonnegative output (for the integer operations).
    pub open spec fn spec_preserves_nat(self) -> bool {
        !(self is Sub)
    }

    /// Inputs in `UInt(sz)` give an output in `UInt(sz)` (for the integer operations).
    pub open spec fn spec_preserves_usize(self) -> bool {
        self is BitAnd || self is BitOr || self is BitXor || self is Shr
    }

    /// The value of this operation on two integers, or `None` where it has none.
    pub open spec fn spec_apply_int_int(self, n1: int, n2: int) -> Option<int> {
        match self {
            Binop::Add => Some(n1 + n2),
            Binop::Mul => Some(n1 * n2),
            Binop::Sub => Some(n1 - n2),
            Binop::Max => Some(if n1 >= n2 { n1 } else { n2 }),
            Binop::Min => Some(if n1 <= n2 { n1 } else { n2 }),
            Binop::BitAnd => Some(bit_and(n1, n2)),
            Binop::BitOr => Some(bit_or(n1, n2)),
            Binop::BitXor => Some(bit_xor(n1, n2)),
            Binop::Shl => if 0 <= n2 <= usize::MAX {
                Some(n1 * pow2(n2 as nat))
            } else {
                None
            },
            Binop::Shr => if 0 <= n2 <= usize::MAX {
                Some(n1 / (pow2(n2 as nat) as int))
            } else {
                None
            },
            _ => None,
        }
    }

    /// The value of a comparison on two integers.
    pub open spec fn spec_apply_int_bool(self, n1: int, n2: int) -> bool {
        match self {
            Binop::Lt => n1 < n2,
            Binop::Le => n1 <= n2,
            Binop::Eq => n1 == n2,
            _ => n1 != n2,
        }
    }

    /// The symbol of this operation.
    pub open spec fn spec_name(self) -> Seq<char> {
        match self {
            Binop::Add => "+"@,
            Binop::Mul => "*"@,
            Binop::Sub => "-"@,
            Binop::Max => "max"@,
            Binop::Min => "min"@,
            Binop::And => "and"@,
            Binop::Or => "or"@,
            Binop::BitAnd => "band"@,
            Binop::BitOr => "bor"@,
            Binop::BitXor => "bxor"@,
            Binop::Shl => "shl"@,
            Binop::Shr => "shr"@,
            Binop::Lt => "<"@,
            Binop::Le => "<="@,
            Binop::Eq => "="@,
            Binop::Ne => "!="@,
        }
    }

    /// Return a string representation of the `Binop`.
    pub fn to_str(self) -> (r: &'static str)
        ensures
            r@ == self.spec_name(),
    {
        match self {
            Binop::Add => "+",
            Binop::Mul => "*",
            Binop::Sub => "-",
            Binop::Max => "max",
            Binop::Min => "min",
            Binop::And => "and",
            Binop::Or => "or",
            Binop::BitAnd => "band",
            Binop::BitOr => "bor",
            Binop::BitXor => "bxor",
            Binop::Shl => "shl",
            Binop::Shr => "shr",
            Binop::Lt => "<",
            Binop::Le => "<=",
            Binop::Eq => "=",
            Binop::Ne => "!=",
        }
    }

    /// Returns the type of this binop.
    pub fn ty(self) -> (r: BinopType)
        ensures
            r == self.spec_ty(),
    {
        match self {
            Binop::Add | Binop::Mul | Binop::Sub | Binop::Max | Binop::Min | Binop::BitAnd
            | Binop::BitOr | Binop::BitXor => BinopType::IntIntInt,
            Binop::Shl | Binop::Shr => BinopType::IntNatInt,
            Binop::Lt | Binop::Le | Binop::Eq | Binop::Ne => BinopType::IntIntBool,
            Binop::And | Binop::Or => BinopType::BoolBoolBool,
        }
    }

    /// Returns true if this integral function returns a `nat` on nonnegative inputs.
    /// Only defined on the integer operations.
    pub fn preserves_nat(self) -> (r: bool)
        requires
            self.is_int_op(),
        ensures
            r == self.spec_preserves_nat(),
    {
        match self {
            Binop::Sub => false,
            _ => true,
        }
    }

    /// Returns true if this integral function returns a `UInt(sz)` on `UInt(sz)` inputs.
    /// Only defined on the integer operations.
    pub fn preserves_usize(self) -> (r: bool)
        requires
            self.is_int_op(),
        ensures
            r == self.spec_preserves_usize(),
    {
        match self {
            Binop::BitAnd | Binop::BitOr | Binop::BitXor | Binop::Shr => true,
            _ => false,
        }
    }

    /// Apply this operation as a `(int, int) -> int` function (the `(int, nat) -> int`
    /// functions are evaluated here too). Returns `None` if the inputs are out of range or if
    /// it is not such a function.
    pub fn apply_int_int(self, n1: &BigInt, n2: &BigInt) -> (r: Option<BigInt>)
        ensures
            match r {
                Some(x) => self.spec_apply_int_int(n1@, n2@) == Some(x@) && (n1.wf() && n2.wf() ==> x.wf()),
                None => self.spec_apply_int_int(n1@, n2@) is None,
            },
    {
        match self {
            Binop::Add => Some(big_add(n1, n2)),
            Binop::Mul => Some(big_mul(n1, n2)),
            Binop::Sub => Some(big_sub(n1, n2)),
            Binop::Max => match big_cmp(n1, n2) {
                std::cmp::Ordering::Less => Some(n2.copied()),
                _ => Some(n1.copied()),
            },
            Binop::Min => match big_cmp(n1, n2) {
                std::cmp::Ordering::Greater => Some(n2.copied()),
                _ => Some(n1.copied()),
            },
            Binop::BitAnd => Some(big_and(n1, n2)),
            Binop::BitOr => Some(big_or(n1, n2)),
            Binop::BitXor => Some(big_xor(n1, n2)),
            Binop::Shl => match big_to_usize(n2) {
                Some(k) => Some(big_shl(n1, k)),
                None => None,
            },
            Binop::Shr => match big_to_usize(n2) {
                Some(k) => Some(big_shr(n1, k)),
                None => None,
            },
            Binop::Lt | Binop::Le | Binop::Eq | Binop::Ne | Binop::And | Binop::Or => None,
        }
    }

    /// Apply this operation as a `(int, int) -> bool` function.
    /// Only the comparisons are such functions.
    pub fn apply_int_bool(self, n1: &BigInt, n2: &BigInt) -> (r: bool)
        requires
            self.spec_ty() is IntIntBool,
        ensures
            r == self.spec_apply_int_bool(n1@, n2@),
    {
        let c = big_cmp(n1, n2);
        match self {
            Binop::Lt => matches!(c, std::cmp::Ordering::Less),
            Binop::Le => !matches!(c, std::cmp::Ordering::Greater),
            Binop::Eq => matches!(c, std::cmp::Ordering::Equal),
            _ => !matches!(c, std::cmp::Ordering::Equal),
        }
    }

    /// Apply this operation as a `(bool, bool) -> bool` function.
    /// Only `And` and `Or` are such functions.
    pub fn apply_bool_bool(self, b1: bool, b2: bool) -> (r: bool)
        requires
            self.spec_ty() is BoolBoolBool,
        ensures
            r == if self is And {
                b1 && b2
            } else {
                b1 || b2
            },
    {
        match self {
            Binop::And => b1 && b2,
            _ => b1 || b2,
        }
    }
}

/// Every integer operation that declares that it preserves `nat` (all of them but `Sub`)
/// maps nonnegative inputs to a nonnegative output.
pub proof fn lemma_preserves_nat(op: Binop, n1: int, n2: int)
    requires
        op.is_int_op(),
        op.spec_preserves_nat(),
        n1 >= 0,
        n2 >= 0,
    ensures
        op.spec_apply_int_int(n1, n2) matches Some(r) ==> r >= 0,
{
    lemma_bitwise_nonneg(n1, n2);
    if op is Mul {
        assert(n1 * n2 >= 0) by (nonlinear_arith)
            requires
                n1 >= 0,
                n2 >= 0,
        ;
    }
    if 0 <= n2 <= usize::MAX {
        let p = pow2(n2 as nat) as int;
        assert(p > 0) by {
            vstd::arithmetic::power2::lemma_pow2_pos(n2 as nat);
        }
        assert(n1 * p >= 0) by (nonlinear_arith)
            requires
                n1 >= 0,
                p > 0,
        ;
        assert(n1 / p >= 0) by (nonlinear_arith)
            requires
                n1 >= 0,
                p > 0,
        ;
    }
}

/// Every integer operation that declares that it preserves `UInt(sz)` (the bitwise ones and
/// `Shr`) maps inputs in the unsigned range of a finite size to an output in that range.
pub proof fn lemma_preserves_usize(op: Binop, sz: Size, n1: int, n2: int)
    requires
        op.is_int_op(),
        op.spec_preserves_usize(),
        sz != Size::Inf,
        IntTy::UInt(sz).spec_contains(n1),
        IntTy::UInt(sz).spec_contains(n2),
    ensures
        op.spec_apply_int_int(n1, n2) matches Some(r) ==> IntTy::UInt(sz).spec_contains(r),
{
    lemma_modulus_pow2(sz);
    lemma_bitwise_bounded(n1, n2, sz.spec_bits().unwrap() as nat);
    if 0 <= n2 <= usize::MAX {
        let p = pow2(n2 as nat) as int;
        assert(p > 0) by {
            vstd::arithmetic::power2::lemma_pow2_pos(n2 as nat);
        }
        assert(0 <= n1 / p <= n1) by (nonlinear_arith)
            requires
                n1 >= 0,
                p > 0,
        ;
    }
}

/// A field accessor.
#[derive(Copy, Clone, Debug)]
pub enum FieldName {
    /// A numbered field access like `x.1`.
    Number(u32),
    /// A named field access like `x.foo`.
    Named(AtomId),
}

/// An embedded MM0 expression inside MMC. This representation is designed to make it easy
/// to produce substitutions of the free variables.
#[derive(Debug)]
pub enum Mm0ExprNode {
    /// A constant expression, containing no free variables,
    /// or a dummy variable that will not be substituted.
    Const(AtomId),
    /// A free variable. This is an index into the `Mm0Expr::subst` array.
    Var(u32),
    /// A term constructor, where at least one subexpression is non-constant
    /// (else `Const` would be used).
    Expr(TermId, Vec<Mm0ExprNode>),
}

/// An embedded MM0 expression inside MMC. All free variables have been replaced by indexes,
/// with `subst` holding the internal names of these variables.
#[derive(Clone, Debug)]
pub struct Mm0Expr<T> {
    /// The mapping from indexes in the `expr` to internal names.
    pub subst: Vec<T>,
    /// The root node of the expression.
    pub expr: std::rc::Rc<Mm0ExprNode>,
}

/// Maps the atoms and term constructors of one environment to those of another, by index.
/// Ids outside the maps are kept.
#[derive(Debug)]
pub struct Remapper {
    /// The new id of each atom.
    pub atom: Vec<AtomId>,
    /// The new id of each term constructor.
    pub term: Vec<TermId>,
}

impl Remapper {
    /// The new id of atom `a`.
    pub open spec fn spec_atom(&self, a: AtomId) -> AtomId {
        if (a.0 as int) < self.atom@.len() {
            self.atom@[a.0 as int]
        } else {
            a
        }
    }

    /// The new id of term constructor `t`.
    pub open spec fn spec_term(&self, t: TermId) -> TermId {
        if (t.0 as int) < self.term@.len() {
            self.term@[t.0 as int]
        } else {
            t
        }
    }

    /// The new id of atom `a`.
    pub fn atom(&self, a: AtomId) -> (r: AtomId)
        ensures
            r == self.spec_atom(a),
    {
        if (a.0 as usize) < self.atom.len() {
            self.atom[a.0 as usize]
        } else {
            a
        }
    }

    /// The new id of term constructor `t`.
    pub fn term(&self, t: TermId) -> (r: TermId)
        ensures
            r == self.spec_term(t),
    {
        if (t.0 as usize) < self.term.len() {
            self.term[t.0 as usize]
        } else {
            t
        }
    }
}

/// `b` is `a` with its atoms and term constructors mapped through `r`.
pub open spec fn node_remapped(a: &Mm0ExprNode, b: &Mm0ExprNode, r: &Remapper) -> bool
    decreases a,
{
    match (a, b) {
        (Mm0ExprNode::Const(x), Mm0ExprNode::Const(y)) => *y == r.spec_atom(*x),
        (Mm0ExprNode::Var(i), Mm0ExprNode::Var(j)) => i == j,
        (Mm0ExprNode::Expr(t, es), Mm0ExprNode::Expr(u, fs)) => {
            &&& *u == r.spec_term(*t)
            &&& fs@.len() == es@.len()
            &&& forall|i: int| 0 <= i < es@.len() ==> node_remapped(&es@[i], &fs@[i], r)
        },
        _ => false,
    }
}

impl Mm0ExprNode {
    /// This node with its atoms and term constructors mapped through `r`.
    pub fn remap(&self, r: &Remapper) -> (res: Mm0ExprNode)
        ensures
            node_remapped(self, &res, r),
        decreases self,
    {
        match self {
            Mm0ExprNode::Const(c) => Mm0ExprNode::Const(r.atom(*c)),
            Mm0ExprNode::Var(i) => Mm0ExprNode::Var(*i),
            Mm0ExprNode::Expr(t, es) => {
                let mut out: Vec<Mm0ExprNode> = Vec::new();
                let mut k: usize = 0;
                while k < es.len()
                    invariant
                        k <= es@.len(),
                        *self == Mm0ExprNode::Expr(*t, *es),
                        out@.len() == k,
                        forall|i: int| 0 <= i < k ==> node_remapped(&es@[i], &out@[i], r),
                    decreases es@.len() - k,
                {
                    proof {
                        assert(decreases_to!(*self => (*self)->Expr_1));
                        assert(decreases_to!(*es => es@));
                        assert(decreases_to!(es@ => es@[k as int]));
                    }
                    out.push(es[k].remap(r));
                    k += 1;
                }
                Mm0ExprNode::Expr(r.term(*t), out)
            },
        }
    }
}

} // verus!
