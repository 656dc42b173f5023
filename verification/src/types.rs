//! Builtin types of the language, float types and string values.

use std::sync::Arc;
use vstd::prelude::*;

use crate::text::{chars_to_string, push_str};
use crate::values::{IntType, NumericConversion, DEFAULT_INT, ARITHMETIC_CONVERSION};

verus! {

/// The builtin floating point types.
#[derive(Clone, Copy, Debug, PartialEq, Eq, Structural, Hash)]
pub enum FloatType {
    F32,
    F64,
}

impl FloatType {
    pub open spec fn name_text(self) -> Seq<char> {
        match self {
            FloatType::F32 => "F32"@,
            FloatType::F64 => "F64"@,
        }
    }

    /// Name of the type.
    pub fn name(&self) -> (s: &'static str)
        ensures
            s@ == self.name_text(),
    {
        match self {
            FloatType::F32 => "F32",
            FloatType::F64 => "F64",
        }
    }

    /// The same type when both are equal, else `F64`.
    pub open spec fn upcast(a: FloatType, b: FloatType) -> FloatType {
        if a == b {
            a
        } else {
            FloatType::F64
        }
    }

    /// Bits of precision of the type.
    pub open spec fn bits(self) -> int {
        match self {
            FloatType::F32 => 32,
            FloatType::F64 => 64,
        }
    }

    /// Type that values of types `a` and `b` are converted to when they
    /// are combined.
    pub fn merge_for_upcast(a: FloatType, b: FloatType) -> (t: FloatType)
        ensures
            t == Self::upcast(a, b),
            t.bits() >= a.bits() && t.bits() >= b.bits(),
            t == a || t == b,
    {
        if a == b {
            a
        } else {
            FloatType::F64
        }
    }
}

/// An immutable shared string.
pub struct StringValue {
    data: Arc<String>,
}

impl View for StringValue {
    type V = Seq<char>;

    closed spec fn view(&self) -> Seq<char> {
        self.data@
    }
}

impl StringValue {
    /// A string value with the text of `text`.
    pub fn new(text: &str) -> (s: StringValue)
        ensures
            s@ == text@,
    {
        StringValue { data: Arc::new(text.to_owned()) }
    }

    /// A string value sharing `text`.
    pub fn new_from_arc(text: Arc<String>) -> (s: StringValue)
        ensures
            s@ == text@,
    {
        StringValue { data: text }
    }

    /// The text.
    pub fn as_str(&self) -> (s: &str)
        ensures
            s@ == self@,
    {
        self.data.as_str()
    }

    /// Length of the text in bytes.
    pub fn len(&self) -> (n: usize)
        ensures
            n == vstd::utf8::encode_utf8(self@).len(),
    {
        self.as_str().as_bytes().len()
    }
}

/// The builtin types.
#[derive(Debug)]
pub enum Type {
    Unknown,
    Any,
    Unit,
    Null,
    Never,
    Bool,
    String,
    Int(IntType),
    Float(FloatType),
    Or(Box<Type>, Box<Type>),
    Ref(Box<Type>),
}

/// Name of a type: the builtin names, `a | b` for alternatives and `&(a)`
/// for references.
pub open spec fn type_text(t: Type) -> Seq<char>
    decreases t,
{
    match t {
        Type::Unknown => "unknown"@,
        Type::Any => "any"@,
        Type::Unit => "unit"@,
        Type::Null => "null"@,
        Type::Never => "never"@,
        Type::Bool => "bool"@,
        Type::String => "string"@,
        Type::Int(i) => i.name_text(),
        Type::Float(f) => f.name_text(),
        Type::Or(a, b) => type_text(*a) + " | "@ + type_text(*b),
        Type::Ref(a) => "&("@ + type_text(*a) + ")"@,
    }
}

/// The type of a value, looking through all references.
pub open spec fn value_type(t: Type) -> Type
    decreases t,
{
    match t {
        Type::Ref(v) => value_type(*v),
        _ => t,
    }
}

/// Integer type a value of type `t` can be used as under `convert`.
pub open spec fn int_type_of(t: Type, convert: NumericConversion) -> Option<IntType> {
    match value_type(t) {
        Type::Int(i) => Some(i),
        Type::Bool => if convert.level() >= 1 {
            Some(IntType::U8)
        } else {
            None
        },
        Type::String => if convert.level() >= 2 {
            Some(DEFAULT_INT)
        } else {
            None
        },
        _ => None,
    }
}

/// Float type a value of type `t` can be used as under `convert`.
pub open spec fn float_type_of(t: Type, convert: NumericConversion) -> Option<FloatType> {
    match value_type(t) {
        Type::Float(f) => Some(f),
        Type::Bool => if convert.level() >= 1 {
            Some(FloatType::F64)
        } else {
            None
        },
        Type::String => if convert.level() >= 2 {
            Some(FloatType::F64)
        } else {
            None
        },
        _ => None,
    }
}

/// Numeric type a value of type `t` can be used as under `convert`.
pub open spec fn numeric_type_of(t: Type, convert: NumericConversion) -> Option<Type> {
    match value_type(t) {
        Type::Int(..) => Some(t),
        Type::Float(..) => Some(t),
        Type::Bool => if convert.level() >= 1 {
            Some(Type::Int(IntType::U8))
        } else {
            None
        },
        Type::String => if convert.level() >= 2 {
            Some(Type::Float(FloatType::F64))
        } else {
            None
        },
        _ => None,
    }
}

/// Upper type of `a` and `b`: equal types give themselves, `any` and
/// `unknown` absorb everything, `never` gives the other type, numeric
/// types (and `bool` with integers) merge, and anything else becomes an
/// alternative.
pub open spec fn upcast(a: Type, b: Type) -> Type {
    if a == b {
        a
    } else if a == Type::Any || b == Type::Any {
        Type::Any
    } else if a == Type::Unknown || b == Type::Unknown {
        Type::Unknown
    } else {
        match a {
            Type::Never => b,
            Type::Bool => match int_type_of(b, NumericConversion::NoConversion) {
                Some(bt) => Type::Int(IntType::upcast(IntType::U8, bt)),
                None => Type::Or(Box::new(a), Box::new(b)),
            },
            Type::Int(at) => match int_type_of(b, NumericConversion::BoolToInt) {
                Some(bt) => Type::Int(IntType::upcast(at, bt)),
                None => Type::Or(Box::new(a), Box::new(b)),
            },
            Type::Float(af) => match float_type_of(b, NumericConversion::BoolToInt) {
                Some(bf) => Type::Float(FloatType::upcast(af, bf)),
                None => Type::Or(Box::new(a), Box::new(b)),
            },
            _ => Type::Or(Box::new(a), Box::new(b)),
        }
    }
}

/// Type of the result of a short-circuit boolean operator on a value of
/// type `t`: the type itself, when every alternative can be used as a
/// boolean.
pub open spec fn bool_output_of(t: Type) -> Option<Type>
    decreases t,
{
    match t {
        Type::Unknown => None,
        Type::Any => None,
        Type::Or(a, b) => match (bool_output_of(*a), bool_output_of(*b)) {
            (Some(x), Some(y)) => Some(Type::Or(Box::new(x), Box::new(y))),
            _ => None,
        },
        Type::Ref(v) => if bool_output_of(*v) is Some {
            Some(t)
        } else {
            None
        },
        _ => Some(t),
    }
}

impl Type {
    /// A copy of the type.
    pub fn duplicate(&self) -> (t: Type)
        ensures
            t == *self,
        decreases self,
    {
        match self {
            Type::Unknown => Type::Unknown,
            Type::Any => Type::Any,
            Type::Unit => Type::Unit,
            Type::Null => Type::Null,
            Type::Never => Type::Never,
            Type::Bool => Type::Bool,
            Type::String => Type::String,
            Type::Int(i) => Type::Int(*i),
            Type::Float(f) => Type::Float(*f),
            Type::Or(a, b) => Type::Or(Box::new(a.duplicate()), Box::new(b.duplicate())),
            Type::Ref(a) => Type::Ref(Box::new(a.duplicate())),
        }
    }

    /// Structural equality.
    pub fn equals(&self, other: &Type) -> (b: bool)
        ensures
            b == (*self == *other),
        decreases self,
    {
        match (self, other) {
            (Type::Unknown, Type::Unknown) => true,
            (Type::Any, Type::Any) => true,
            (Type::Unit, Type::Unit) => true,
            (Type::Null, Type::Null) => true,
            (Type::Never, Type::Never) => true,
            (Type::Bool, Type::Bool) => true,
            (Type::String, Type::String) => true,
            (Type::Int(a), Type::Int(b)) => *a == *b,
            (Type::Float(a), Type::Float(b)) => *a == *b,
            (Type::Or(a1, b1), Type::Or(a2, b2)) => {
                let x = a1.equals(a2);
                let y = b1.equals(b2);
                x && y
            },
            (Type::Ref(a1), Type::Ref(a2)) => a1.equals(a2),
            _ => false,
        }
    }

    /// Upper base type that encompasses both types; unrelated types give
    /// an alternative of the two.
    pub fn merge_for_upcast(a: Type, b: Type) -> (t: Type)
        ensures
            t == upcast(a, b),
    {
        if a.equals(&b) {
            a
        } else if matches!(a, Type::Any) || matches!(b, Type::Any) {
            Type::Any
        } else if matches!(a, Type::Unknown) || matches!(b, Type::Unknown) {
            Type::Unknown
        } else {
            match a {
                Type::Never => b,
                Type::Bool => match b.get_int_type(NumericConversion::NoConversion) {
                    Some(bt) => Type::Int(IntType::merge_for_upcast(IntType::U8, bt)),
                    None => Type::Or(Box::new(a), Box::new(b)),
                },
                Type::Int(at) => match b.get_int_type(NumericConversion::BoolToInt) {
                    Some(bt) => Type::Int(IntType::merge_for_upcast(at, bt)),
                    None => Type::Or(Box::new(a), Box::new(b)),
                },
                Type::Float(af) => match b.get_float_type(NumericConversion::BoolToInt) {
                    Some(bf) => Type::Float(FloatType::merge_for_upcast(af, bf)),
                    None => Type::Or(Box::new(a), Box::new(b)),
                },
                _ => Type::Or(Box::new(a), Box::new(b)),
            }
        }
    }

    /// Name of the type.
    pub fn name(&self) -> (s: String)
        ensures
            s@ == type_text(*self),
    {
        let mut out: Vec<char> = Vec::new();
        self.push_name(&mut out);
        chars_to_string(out.as_slice())
    }

    fn push_name(&self, out: &mut Vec<char>)
        ensures
            final(out)@ == old(out)@ + type_text(*self),
        decreases self,
    {
        match self {
            Type::Unknown => push_str(out, "unknown"),
            Type::Any => push_str(out, "any"),
            Type::Unit => push_str(out, "unit"),
            Type::Null => push_str(out, "null"),
            Type::Never => push_str(out, "never"),
            Type::Bool => push_str(out, "bool"),
            Type::String => push_str(out, "string"),
            Type::Int(i) => push_str(out, i.name()),
            Type::Float(f) => push_str(out, f.name()),
            Type::Or(a, b) => {
                let ghost start = out@;
                a.push_name(out);
                push_str(out, " | ");
                b.push_name(out);
                assert(out@ == start + (type_text(**a) + " | "@ + type_text(**b)));
            },
            Type::Ref(a) => {
                let ghost start = out@;
                push_str(out, "&(");
                a.push_name(out);
                push_str(out, ")");
                assert(out@ == start + ("&("@ + type_text(**a) + ")"@));
            },
        }
    }

    /// The type of a value, disregarding reference types.
    pub fn value(&self) -> (t: &Type)
        ensures
            *t == value_type(*self),
            !(*t is Ref),
        decreases self,
    {
        match self {
            Type::Ref(val) => val.value(),
            _ => self,
        }
    }

    /// True for strings (or references to them).
    pub fn is_string(&self) -> (b: bool)
        ensures
            b == (value_type(*self) is String),
    {
        matches!(self.value(), Type::String)
    }

    /// True for floats (or references to them).
    pub fn is_float(&self) -> (b: bool)
        ensures
            b == (value_type(*self) is Float),
    {
        matches!(self.value(), Type::Float(..))
    }

    /// True for booleans (or references to them).
    pub fn is_bool(&self) -> (b: bool)
        ensures
            b == (value_type(*self) is Bool),
    {
        matches!(self.value(), Type::Bool)
    }

    /// True for integers (or references to them).
    pub fn is_int(&self) -> (b: bool)
        ensures
            b == (value_type(*self) is Int),
    {
        matches!(self.value(), Type::Int(..))
    }

    /// Numeric type a value of this type can be used as under `convert`.
    pub fn get_numeric_type(&self, convert: NumericConversion) -> (t: Option<Type>)
        ensures
            t == numeric_type_of(*self, convert),
    {
        match self.value() {
            Type::Int(..) => Some(self.duplicate()),
            Type::Float(..) => Some(self.duplicate()),
            Type::Bool => if convert.at_least(NumericConversion::BoolToInt) {
                Some(Type::Int(IntType::U8))
            } else {
                None
            },
            Type::String => if convert.at_least(NumericConversion::Parse) {
                Some(Type::Float(FloatType::F64))
            } else {
                None
            },
            _ => None,
        }
    }

    /// Integer type a value of this type can be used as under `convert`.
    pub fn get_int_type(&self, convert: NumericConversion) -> (t: Option<IntType>)
        ensures
            t == int_type_of(*self, convert),
    {
        match self.value() {
            Type::Int(it) => Some(*it),
            Type::Bool => if convert.at_least(NumericConversion::BoolToInt) {
                Some(IntType::U8)
            } else {
                None
            },
            Type::String => if convert.at_least(NumericConversion::Parse) {
                Some(DEFAULT_INT)
            } else {
                None
            },
            _ => None,
        }
    }

    /// Float type a value of this type can be used as under `convert`.
    pub fn get_float_type(&self, convert: NumericConversion) -> (t: Option<FloatType>)
        ensures
            t == float_type_of(*self, convert),
    {
        match self.value() {
            Type::Float(float) => Some(*float),
            Type::Bool => if convert.at_least(NumericConversion::BoolToInt) {
                Some(FloatType::F64)
            } else {
                None
            },
            Type::String => if convert.at_least(NumericConversion::Parse) {
                Some(FloatType::F64)
            } else {
                None
            },
            _ => None,
        }
    }

    /// Type of the result of a short-circuit boolean operator on a value of
    /// this type, when it can be used as a boolean.
    pub fn bool_output(&self) -> (t: Option<Type>)
        ensures
            t == bool_output_of(*self),
        decreases self,
    {
        match self {
            Type::Unknown => None,
            Type::Any => None,
            Type::Or(a, b) => {
                let a = Self::bool_output(a);
                let b = Self::bool_output(b);
                match (a, b) {
                    (Some(a), Some(b)) => Some(Type::Or(Box::new(a), Box::new(b))),
                    _ => None,
                }
            },
            Type::Ref(value) => {
                if Self::bool_output(value).is_some() {
                    Some(self.duplicate())
                } else {
                    None
                }
            },
            _ => Some(self.duplicate()),
        }
    }
}

/// Result type of an arithmetic operator on operands of types `lhs` and
/// `rhs`: the merged integer type, when both are integers.
pub fn arithmetic_output(lhs: &Type, rhs: &Type) -> (t: Option<Type>)
    ensures
        t == match (int_type_of(*lhs, ARITHMETIC_CONVERSION), int_type_of(*rhs, ARITHMETIC_CONVERSION)) {
            (Some(l), Some(r)) => Some(Type::Int(IntType::upcast(l, r))),
            _ => None,
        },
{
    match lhs.get_int_type(ARITHMETIC_CONVERSION) {
        Some(lt) => match rhs.get_int_type(ARITHMETIC_CONVERSION) {
            Some(rt) => Some(Type::Int(IntType::merge_for_upcast(lt, rt))),
            None => None,
        },
        None => None,
    }
}

/// Result type of a numeric operator on an operand of type `arg`, with
/// whether it is signed.
pub fn numeric_output(arg: &Type, convert: NumericConversion) -> (t: Option<(Type, bool)>)
    ensures
        t == match int_type_of(*arg, convert) {
            Some(i) => Some((*arg, i.is_signed())),
            None => None,
        },
{
    match arg.get_int_type(convert) {
        Some(it) => Some((arg.duplicate(), it.signed())),
        None => None,
    }
}

/// Merging float types never loses precision: the result has at least
/// the precision of either operand and is one of them, so two different
/// types merge to `F64`; merging does not depend on the order of the
/// operands, and a type merged with itself stays the same.
pub proof fn lemma_float_upcast(a: FloatType, b: FloatType)
    ensures
        FloatType::upcast(a, b).bits() >= a.bits(),
        FloatType::upcast(a, b).bits() >= b.bits(),
        FloatType::upcast(a, b) == a || FloatType::upcast(a, b) == b,
        FloatType::upcast(a, b) == FloatType::upcast(b, a),
        FloatType::upcast(a, a) == a,
        a != b ==> FloatType::upcast(a, b) == FloatType::F64,
{
}

} // verus!
