//! Integer values and types of the language.

use vstd::prelude::*;

use crate::errors::{ErrorView, Errors};
use crate::text::{chars_to_string, push_decimal_i128, push_decimal_u128, push_str, signed_decimal};

verus! {

/// Implicit conversions allowed when a numeric value is expected, from
/// the strictest to the most permissive.
#[derive(Clone, Copy, Debug, PartialEq, Eq, Structural)]
pub enum NumericConversion {
    NoConversion,
    BoolToInt,
    Parse,
}

impl NumericConversion {
    /// Position of the conversion in the order of permissiveness.
    pub open spec fn level(self) -> int {
        match self {
            NumericConversion::NoConversion => 0,
            NumericConversion::BoolToInt => 1,
            NumericConversion::Parse => 2,
        }
    }

    /// Allows at least what `other` allows.
    pub fn at_least(&self, other: NumericConversion) -> (b: bool)
        ensures
            b == (self.level() >= other.level()),
    {
        let a: u8 = match self {
            NumericConversion::NoConversion => 0,
            NumericConversion::BoolToInt => 1,
            NumericConversion::Parse => 2,
        };
        let b: u8 = match other {
            NumericConversion::NoConversion => 0,
            NumericConversion::BoolToInt => 1,
            NumericConversion::Parse => 2,
        };
        a >= b
    }
}

/// Conversion used for the operands of arithmetic operators.
pub const ARITHMETIC_CONVERSION: NumericConversion = NumericConversion::NoConversion;

/// The builtin integer types.
#[derive(Clone, Copy, Debug, PartialEq, Eq, Structural, Hash)]
pub enum IntType {
    I8,
    U8,
    I16,
    U16,
    I32,
    U32,
    I64,
    U64,
    I128,
    U128,
}

/// Integer type used when none is given.
pub const DEFAULT_INT: IntType = IntType::I64;

impl IntType {
    pub open spec fn is_signed(self) -> bool {
        match self {
            IntType::I8 | IntType::I16 | IntType::I32 | IntType::I64 | IntType::I128 => true,
            _ => false,
        }
    }

    pub open spec fn bit_count(self) -> int {
        match self {
            IntType::I8 | IntType::U8 => 8,
            IntType::I16 | IntType::U16 => 16,
            IntType::I32 | IntType::U32 => 32,
            IntType::I64 | IntType::U64 => 64,
            IntType::I128 | IntType::U128 => 128,
        }
    }

    /// Largest value of the type.
    pub open spec fn max(self) -> int {
        match self {
            IntType::I8 => i8::MAX as int,
            IntType::U8 => u8::MAX as int,
            IntType::I16 => i16::MAX as int,
            IntType::U16 => u16::MAX as int,
            IntType::I32 => i32::MAX as int,
            IntType::U32 => u32::MAX as int,
            IntType::I64 => i64::MAX as int,
            IntType::U64 => u64::MAX as int,
            IntType::I128 => i128::MAX as int,
            IntType::U128 => u128::MAX as int,
        }
    }

    /// Smallest value of the type.
    pub open spec fn min(self) -> int {
        match self {
            IntType::I8 => i8::MIN as int,
            IntType::I16 => i16::MIN as int,
            IntType::I32 => i32::MIN as int,
            IntType::I64 => i64::MIN as int,
            IntType::I128 => i128::MIN as int,
            _ => 0,
        }
    }

    pub open spec fn name_text(self) -> Seq<char> {
        match self {
            IntType::I8 => "I8"@,
            IntType::U8 => "U8"@,
            IntType::I16 => "I16"@,
            IntType::U16 => "U16"@,
            IntType::I32 => "I32"@,
            IntType::U32 => "U32"@,
            IntType::I64 => "I64"@,
            IntType::U64 => "U64"@,
            IntType::I128 => "I128"@,
            IntType::U128 => "U128"@,
        }
    }

    /// Name of the type.
    pub fn name(&self) -> (s: &'static str)
        ensures
            s@ == self.name_text(),
    {
        match self {
            IntType::I8 => "I8",
            IntType::U8 => "U8",
            IntType::I16 => "I16",
            IntType::U16 => "U16",
            IntType::I32 => "I32",
            IntType::U32 => "U32",
            IntType::I64 => "I64",
            IntType::U64 => "U64",
            IntType::I128 => "I128",
            IntType::U128 => "U128",
        }
    }

    /// The smallest type with at least `bits` bits and the given sign.
    pub open spec fn by_min_bits(bits: int, signed: bool) -> IntType {
        if bits <= 8 {
            if signed { IntType::I8 } else { IntType::U8 }
        } else if bits <= 16 {
            if signed { IntType::I16 } else { IntType::U16 }
        } else if bits <= 32 {
            if signed { IntType::I32 } else { IntType::U32 }
        } else if bits <= 64 {
            if signed { IntType::I64 } else { IntType::U64 }
        } else {
            if signed { IntType::I128 } else { IntType::U128 }
        }
    }

    /// The smallest type with at least `bits` bits (or the largest type)
    /// and the given sign.
    pub fn get_by_min_bits(bits: u8, signed: bool) -> (t: IntType)
        ensures
            t == Self::by_min_bits(bits as int, signed),
    {
        if bits <= 8 {
            if signed {
                IntType::I8
            } else {
                IntType::U8
            }
        } else if bits <= 16 {
            if signed {
                IntType::I16
            } else {
                IntType::U16
            }
        } else if bits <= 32 {
            if signed {
                IntType::I32
            } else {
                IntType::U32
            }
        } else if bits <= 64 {
            if signed {
                IntType::I64
            } else {
                IntType::U64
            }
        } else {
            if signed {
                IntType::I128
            } else {
                IntType::U128
            }
        }
    }

    /// True for the signed types.
    pub fn signed(&self) -> (b: bool)
        ensures
            b == self.is_signed(),
    {
        match self {
            IntType::I8 | IntType::I16 | IntType::I32 | IntType::I64 | IntType::I128 => true,
            _ => false,
        }
    }

    /// The type that two operands of types `a` and `b` are converted to:
    /// the larger of the two when they have the same sign, else the signed
    /// type with the larger number of bits.
    pub open spec fn upcast(a: IntType, b: IntType) -> IntType {
        if a.is_signed() == b.is_signed() {
            if a.bit_count() > b.bit_count() {
                a
            } else {
                b
            }
        } else {
            Self::by_min_bits(
                if a.bit_count() >= b.bit_count() {
                    a.bit_count()
                } else {
                    b.bit_count()
                },
                true,
            )
        }
    }

    /// Type that values of types `a` and `b` are converted to when they
    /// are combined.
    pub fn merge_for_upcast(a: IntType, b: IntType) -> (t: IntType)
        ensures
            t == Self::upcast(a, b),
    {
        if a.signed() == b.signed() {
            if a.bits() > b.bits() {
                a
            } else {
                b
            }
        } else {
            let bits = if a.bits() >= b.bits() {
                a.bits()
            } else {
                b.bits()
            };
            Self::get_by_min_bits(bits, true)
        }
    }

    /// Number of bits of the type.
    pub fn bits(&self) -> (n: u8)
        ensures
            n == self.bit_count(),
    {
        match self {
            IntType::I8 | IntType::U8 => 8,
            IntType::I16 | IntType::U16 => 16,
            IntType::I32 | IntType::U32 => 32,
            IntType::I64 | IntType::U64 => 64,
            IntType::I128 | IntType::U128 => 128,
        }
    }

    /// Largest value of the type.
    pub fn max_value(&self) -> (v: u128)
        ensures
            v == self.max(),
    {
        match self {
            IntType::I8 => i8::MAX as u128,
            IntType::U8 => u8::MAX as u128,
            IntType::I16 => i16::MAX as u128,
            IntType::U16 => u16::MAX as u128,
            IntType::I32 => i32::MAX as u128,
            IntType::U32 => u32::MAX as u128,
            IntType::I64 => i64::MAX as u128,
            IntType::U64 => u64::MAX as u128,
            IntType::I128 => i128::MAX as u128,
            IntType::U128 => u128::MAX,
        }
    }

    /// Smallest value of the type.
    pub fn min_value(&self) -> (v: i128)
        ensures
            v == self.min(),
    {
        match self {
            IntType::I8 => i8::MIN as i128,
            IntType::I16 => i16::MIN as i128,
            IntType::I32 => i32::MIN as i128,
            IntType::I64 => i64::MIN as i128,
            IntType::I128 => i128::MIN,
            _ => 0,
        }
    }
}

/// An integer value of one of the builtin types.
#[derive(Clone, Copy, Debug, PartialEq, Eq, Structural, Hash)]
pub enum IntValue {
    I8(i8),
    U8(u8),
    I16(i16),
    U16(u16),
    I32(i32),
    U32(u32),
    I64(i64),
    U64(u64),
    I128(i128),
    U128(u128),
}

/// `value` wrapped into the range of an `i128`.
pub open spec fn wrap_i128(value: int) -> int {
    if value > i128::MAX {
        value - 0x1_0000_0000_0000_0000_0000_0000_0000_0000int
    } else {
        value
    }
}

/// `value` wrapped into the range of a `u128`.
pub open spec fn wrap_u128(value: int) -> int {
    if value < 0 {
        value + 0x1_0000_0000_0000_0000_0000_0000_0000_0000int
    } else {
        value
    }
}

/// Message of the error for a value above the range of a type.
pub open spec fn overflow_message(kind: IntType, value: int) -> Seq<char> {
    "value overflows an "@ + kind.name_text() + " (value is "@ + signed_decimal(value) + ")"@
}

/// Message of the error for a signed value outside the range of a type.
pub open spec fn signed_range_message(kind: IntType, value: int) -> Seq<char> {
    if value > kind.max() {
        "value overflows "@ + kind.name_text() + " (value is "@ + signed_decimal(value) + ")"@
    } else if kind.is_signed() {
        "value underflows "@ + kind.name_text() + " (value is "@ + signed_decimal(value) + ")"@
    } else {
        "invalid negative value for "@ + kind.name_text() + " (value is "@ + signed_decimal(value)
            + ")"@
    }
}

/// The errors hold one error with `message` and no location.
pub open spec fn single_error(errors: Seq<ErrorView>, message: Seq<char>) -> bool {
    &&& errors.len() == 1
    &&& errors[0].message == message
    &&& errors[0].span.source.name.len() == 0
    &&& errors[0].span.length == 0
}

impl IntValue {
    /// Type of the value.
    pub open spec fn kind(self) -> IntType {
        match self {
            IntValue::I8(..) => IntType::I8,
            IntValue::U8(..) => IntType::U8,
            IntValue::I16(..) => IntType::I16,
            IntValue::U16(..) => IntType::U16,
            IntValue::I32(..) => IntType::I32,
            IntValue::U32(..) => IntType::U32,
            IntValue::I64(..) => IntType::I64,
            IntValue::U64(..) => IntType::U64,
            IntValue::I128(..) => IntType::I128,
            IntValue::U128(..) => IntType::U128,
        }
    }

    /// Mathematical value.
    pub open spec fn value(self) -> int {
        match self {
            IntValue::I8(v) => v as int,
            IntValue::U8(v) => v as int,
            IntValue::I16(v) => v as int,
            IntValue::U16(v) => v as int,
            IntValue::I32(v) => v as int,
            IntValue::U32(v) => v as int,
            IntValue::I64(v) => v as int,
            IntValue::U64(v) => v as int,
            IntValue::I128(v) => v as int,
            IntValue::U128(v) => v as int,
        }
    }

    /// A value always lies in the range of its type.
    pub proof fn lemma_in_range(self)
        ensures
            self.kind().min() <= self.value() <= self.kind().max(),
    {
    }

    /// Builds a value of type `kind` from a value in its range.
    fn of_type(value: i128, kind: IntType) -> (v: IntValue)
        requires
            kind.min() <= value <= kind.max(),
        ensures
            v.kind() == kind,
            v.value() == value,
    {
        match kind {
            IntType::I8 => IntValue::I8(value as i8),
            IntType::U8 => IntValue::U8(value as u8),
            IntType::I16 => IntValue::I16(value as i16),
            IntType::U16 => IntValue::U16(value as u16),
            IntType::I32 => IntValue::I32(value as i32),
            IntType::U32 => IntValue::U32(value as u32),
            IntType::I64 => IntValue::I64(value as i64),
            IntType::U64 => IntValue::U64(value as u64),
            IntType::I128 => IntValue::I128(value),
            IntType::U128 => IntValue::U128(value as u128),
        }
    }

    /// Value `value` of type `kind`; an error when it does not fit.
    pub fn new(value: u128, kind: IntType) -> (res: Result<IntValue, Errors>)
        ensures
            res is Ok <==> value <= kind.max(),
            res matches Ok(v) ==> v.kind() == kind && v.value() == value,
            res matches Err(e) ==> single_error(e@, overflow_message(kind, value as int)),
    {
        if value > kind.max_value() {
            let mut out: Vec<char> = Vec::new();
            push_str(&mut out, "value overflows an ");
            push_str(&mut out, kind.name());
            push_str(&mut out, " (value is ");
            push_decimal_u128(&mut out, value);
            push_str(&mut out, ")");
            let message = chars_to_string(out.as_slice());
            Err(Errors::from(message.as_str()))
        } else if kind == IntType::U128 {
            Ok(IntValue::U128(value))
        } else {
            Ok(Self::of_type(value as i128, kind))
        }
    }

    /// Value `value` of type `kind`; an error when it is above or below
    /// the range of the type.
    pub fn new_signed(value: i128, kind: IntType) -> (res: Result<IntValue, Errors>)
        ensures
            res is Ok <==> kind.min() <= value <= kind.max(),
            res matches Ok(v) ==> v.kind() == kind && v.value() == value,
            res matches Err(e) ==> single_error(e@, signed_range_message(kind, value as int)),
    {
        let over = value > 0 && value as u128 > kind.max_value();
        let under = value < kind.min_value();
        if over || under {
            let mut out: Vec<char> = Vec::new();
            if over {
                push_str(&mut out, "value overflows ");
            } else if kind.signed() {
                push_str(&mut out, "value underflows ");
            } else {
                push_str(&mut out, "invalid negative value for ");
            }
            push_str(&mut out, kind.name());
            push_str(&mut out, " (value is ");
            push_decimal_i128(&mut out, value);
            push_str(&mut out, ")");
            let message = chars_to_string(out.as_slice());
            Err(Errors::from(message.as_str()))
        } else {
            Ok(Self::of_type(value, kind))
        }
    }

    /// Type of the value.
    pub fn get_type(&self) -> (t: IntType)
        ensures
            t == self.kind(),
    {
        match self {
            IntValue::I8(..) => IntType::I8,
            IntValue::U8(..) => IntType::U8,
            IntValue::I16(..) => IntType::I16,
            IntValue::U16(..) => IntType::U16,
            IntValue::I32(..) => IntType::I32,
            IntValue::U32(..) => IntType::U32,
            IntValue::I64(..) => IntType::I64,
            IntValue::U64(..) => IntType::U64,
            IntValue::I128(..) => IntType::I128,
            IntValue::U128(..) => IntType::U128,
        }
    }

    /// The value converted to type `kind`. A signed value is converted as
    /// an `i128` and an unsigned one as a `u128`, so an error comes when the
    /// value does not fit.
    pub fn cast_to(&self, kind: &IntType) -> (res: Result<IntValue, Errors>)
        ensures
            res is Ok <==> kind.min() <= self.value() <= kind.max(),
            res matches Ok(v) ==> v.kind() == *kind && v.value() == self.value(),
            res matches Err(e) ==> single_error(
                e@,
                if self.kind().is_signed() {
                    signed_range_message(*kind, self.value())
                } else {
                    overflow_message(*kind, self.value())
                },
            ),
    {
        if self.get_type().signed() {
            let value = self.signed();
            Self::new_signed(value, *kind)
        } else {
            let value = self.unsigned();
            Self::new(value, *kind)
        }
    }

    /// True for zero.
    pub fn is_zero(&self) -> (b: bool)
        ensures
            b == (self.value() == 0),
    {
        match self {
            IntValue::I8(value) => *value == 0,
            IntValue::U8(value) => *value == 0,
            IntValue::I16(value) => *value == 0,
            IntValue::U16(value) => *value == 0,
            IntValue::I32(value) => *value == 0,
            IntValue::U32(value) => *value == 0,
            IntValue::I64(value) => *value == 0,
            IntValue::U64(value) => *value == 0,
            IntValue::I128(value) => *value == 0,
            IntValue::U128(value) => *value == 0,
        }
    }

    /// Decimal text of the value.
    pub fn to_text(&self) -> (s: String)
        ensures
            s@ == signed_decimal(self.value()),
    {
        let mut out: Vec<char> = Vec::new();
        if self.get_type().signed() {
            push_decimal_i128(&mut out, self.signed());
        } else {
            push_decimal_u128(&mut out, self.unsigned());
        }
        chars_to_string(out.as_slice())
    }

    /// The value as an `i128`; a `u128` above the range wraps around.
    pub fn signed(&self) -> (v: i128)
        ensures
            v == wrap_i128(self.value()),
    {
        match self {
            IntValue::I8(value) => *value as i128,
            IntValue::U8(value) => *value as i128,
            IntValue::I16(value) => *value as i128,
            IntValue::U16(value) => *value as i128,
            IntValue::I32(value) => *value as i128,
            IntValue::U32(value) => *value as i128,
            IntValue::I64(value) => *value as i128,
            IntValue::U64(value) => *value as i128,
            IntValue::I128(value) => *value,
            IntValue::U128(value) => {
                if *value > i128::MAX as u128 {
                    ((*value - (i128::MAX as u128) - 1) as i128) + i128::MIN
                } else {
                    *value as i128
                }
            },
        }
    }

    /// The value as a `u128`; a negative value wraps around.
    pub fn unsigned(&self) -> (v: u128)
        ensures
            v == wrap_u128(self.value()),
    {
        let s: i128 = match self {
            IntValue::U128(value) => {
                return *value;
            },
            _ => self.signed(),
        };
        if s < 0 {
            u128::MAX - ((-(s + 1)) as u128)
        } else {
            s as u128
        }
    }
}

impl Default for IntValue {
    fn default() -> (v: IntValue)
        ensures
            v == IntValue::I64(0),
    {
        IntValue::I64(0)
    }
}

/// Identity on the default integer type.
pub fn default_int(value: i64) -> (v: i64)
    ensures
        v == value,
{
    value
}


/// An integer value is determined by its type and its number, so a cast
/// to a type that holds the value and back gives the value again.
pub proof fn lemma_value_determined(a: IntValue, b: IntValue)
    requires
        a.kind() == b.kind(),
        a.value() == b.value(),
    ensures
        a == b,
{
}

/// Merging integer types does not depend on their order.
pub proof fn lemma_upcast_commutative(a: IntType, b: IntType)
    ensures
        IntType::upcast(a, b) == IntType::upcast(b, a),
{
}

/// The merged integer type has at least the bits of both types, and is
/// signed when either is.
pub proof fn lemma_upcast_covers(a: IntType, b: IntType)
    ensures
        IntType::upcast(a, b).bit_count() >= a.bit_count(),
        IntType::upcast(a, b).bit_count() >= b.bit_count(),
        (a.is_signed() || b.is_signed()) ==> IntType::upcast(a, b).is_signed(),
{
}

} // verus!
