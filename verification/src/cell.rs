//! Dynamically typed values of the compiler core.

use vstd::prelude::*;

use crate::token::str_eq;

verus! {

/// Kinds of integer held by a [`Cell`]; `Any` is an integer of no fixed type.
#[derive(Clone, Copy, Debug, PartialEq, Eq, Structural)]
pub enum IntKind {
    Any,
    I8,
    U8,
    I16,
    U16,
    I32,
    U32,
    I64,
    U64,
    ISize,
    USize,
}

/// Kinds of float a [`Cell`] can be tagged with.
#[derive(Clone, Copy, Debug, PartialEq, Eq, Structural)]
pub enum FloatKind {
    Any,
    F32,
    F64,
}

/// Kind of the value of a [`Cell`].
#[derive(Clone, Copy, Debug, PartialEq, Eq, Structural)]
pub enum CellKind {
    Unit,
    Never,
    Bool,
    Str,
    Int(IntKind),
    Float(FloatKind),
    Other,
}

/// An integer of one of the supported types; `Any` is an integer of no
/// fixed type, held as a `u64`.
#[derive(Clone, Copy, Debug, PartialEq, Eq, Structural)]
pub enum IntCell {
    Any(u64),
    I8(i8),
    U8(u8),
    I16(i16),
    U16(u16),
    I32(i32),
    U32(u32),
    I64(i64),
    U64(u64),
    ISize(isize),
    USize(usize),
}

impl IntCell {
    /// Kind of the integer.
    pub open spec fn kind(self) -> IntKind {
        match self {
            IntCell::Any(_) => IntKind::Any,
            IntCell::I8(_) => IntKind::I8,
            IntCell::U8(_) => IntKind::U8,
            IntCell::I16(_) => IntKind::I16,
            IntCell::U16(_) => IntKind::U16,
            IntCell::I32(_) => IntKind::I32,
            IntCell::U32(_) => IntKind::U32,
            IntCell::I64(_) => IntKind::I64,
            IntCell::U64(_) => IntKind::U64,
            IntCell::ISize(_) => IntKind::ISize,
            IntCell::USize(_) => IntKind::USize,
        }
    }

    /// Value of the integer.
    pub open spec fn value(self) -> int {
        match self {
            IntCell::Any(v) => v as int,
            IntCell::I8(v) => v as int,
            IntCell::U8(v) => v as int,
            IntCell::I16(v) => v as int,
            IntCell::U16(v) => v as int,
            IntCell::I32(v) => v as int,
            IntCell::U32(v) => v as int,
            IntCell::I64(v) => v as int,
            IntCell::U64(v) => v as int,
            IntCell::ISize(v) => v as int,
            IntCell::USize(v) => v as int,
        }
    }

    /// Kind of the integer.
    pub fn int_kind(&self) -> (k: IntKind)
        ensures
            k == self.kind(),
    {
        match self {
            IntCell::Any(_) => IntKind::Any,
            IntCell::I8(_) => IntKind::I8,
            IntCell::U8(_) => IntKind::U8,
            IntCell::I16(_) => IntKind::I16,
            IntCell::U16(_) => IntKind::U16,
            IntCell::I32(_) => IntKind::I32,
            IntCell::U32(_) => IntKind::U32,
            IntCell::I64(_) => IntKind::I64,
            IntCell::U64(_) => IntKind::U64,
            IntCell::ISize(_) => IntKind::ISize,
            IntCell::USize(_) => IntKind::USize,
        }
    }
}

/// A value of one of the supported types.
#[derive(Clone, Debug)]
pub enum Cell {
    Unit,
    Never,
    Bool(bool),
    Str(&'static str),
    Int(IntCell),
    /// An owned string, the one value kept as is.
    Other(String),
}

/// Values that can be stored in a [`Cell`].
pub trait IsCellValue: Sized {
    /// The cell holding the value.
    spec fn cell_of(self) -> Cell;

    /// Stores the value in a cell.
    fn into_cell(self) -> (c: Cell)
        ensures
            c == self.cell_of(),
    ;

    /// The cell `c` holds the value `v` of this type.
    spec fn holds(c: Cell, v: Self) -> bool;

    /// The value of this type that `c` holds, if it holds one.
    fn from_cell(c: &Cell) -> (r: Option<Self>)
        ensures
            r matches Some(v) ==> Self::holds(*c, v),
            (exists|v: Self| #[trigger] Self::holds(*c, v)) ==> r is Some,
    ;

    /// The cell `c`, of a kind that holds this type, with its value
    /// replaced by `v`.
    spec fn replaced(c: Cell, v: Self) -> Cell;

    /// A reference to the value of this type that `c` holds, if it holds
    /// one; writing through it changes the value the cell holds.
    fn from_cell_mut(c: &mut Cell) -> (r: Option<&mut Self>)
        ensures
            match r {
                Some(v) => Self::holds(*old(c), *v) && *final(c) == Self::replaced(*old(c), *final(v)),
                None => (forall|v: Self| !#[trigger] Self::holds(*old(c), v)) && *final(c) == *old(c),
            },
    ;
}

impl IsCellValue for bool {
    open spec fn cell_of(self) -> Cell {
        Cell::Bool(self)
    }

    fn into_cell(self) -> (c: Cell) {
        Cell::Bool(self)
    }

    open spec fn holds(c: Cell, v: Self) -> bool {
        c == Cell::Bool(v)
    }

    fn from_cell(c: &Cell) -> (r: Option<Self>) {
        match c {
            Cell::Bool(b) => Some(*b),
            _ => None,
        }
    }

    open spec fn replaced(c: Cell, v: Self) -> Cell {
        Cell::Bool(v)
    }

    fn from_cell_mut(c: &mut Cell) -> (r: Option<&mut Self>) {
        match c {
            Cell::Bool(b) => Some(b),
            _ => None,
        }
    }
}

impl IsCellValue for &'static str {
    open spec fn cell_of(self) -> Cell {
        Cell::Str(self)
    }

    fn into_cell(self) -> (c: Cell) {
        Cell::Str(self)
    }

    open spec fn holds(c: Cell, v: Self) -> bool {
        c == Cell::Str(v)
    }

    fn from_cell(c: &Cell) -> (r: Option<Self>) {
        match c {
            Cell::Str(t) => Some(*t),
            _ => None,
        }
    }

    open spec fn replaced(c: Cell, v: Self) -> Cell {
        Cell::Str(v)
    }

    fn from_cell_mut(c: &mut Cell) -> (r: Option<&mut Self>) {
        match c {
            Cell::Str(t) => Some(t),
            _ => None,
        }
    }
}

impl IsCellValue for String {
    open spec fn cell_of(self) -> Cell {
        Cell::Other(self)
    }

    fn into_cell(self) -> (c: Cell) {
        Cell::Other(self)
    }

    open spec fn holds(c: Cell, v: Self) -> bool {
        c matches Cell::Other(s) && s@ == v@
    }

    fn from_cell(c: &Cell) -> (r: Option<Self>) {
        match c {
            Cell::Other(t) => Some(t.clone()),
            _ => None,
        }
    }

    open spec fn replaced(c: Cell, v: Self) -> Cell {
        Cell::Other(v)
    }

    fn from_cell_mut(c: &mut Cell) -> (r: Option<&mut Self>) {
        match c {
            Cell::Other(t) => Some(t),
            _ => None,
        }
    }
}

impl IsCellValue for Cell {
    open spec fn cell_of(self) -> Cell {
        self
    }

    fn into_cell(self) -> (c: Cell) {
        self
    }

    /// A cell is stored as itself, never inside another cell.
    open spec fn holds(c: Cell, v: Self) -> bool {
        false
    }

    fn from_cell(c: &Cell) -> (r: Option<Self>) {
        None
    }

    open spec fn replaced(c: Cell, v: Self) -> Cell {
        c
    }

    fn from_cell_mut(c: &mut Cell) -> (r: Option<&mut Self>) {
        None
    }
}

impl IsCellValue for i8 {
    open spec fn cell_of(self) -> Cell {
        Cell::Int(IntCell::I8(self))
    }

    fn into_cell(self) -> (c: Cell) {
        Cell::Int(IntCell::I8(self))
    }

    open spec fn holds(c: Cell, v: Self) -> bool {
        c == Cell::Int(IntCell::I8(v))
    }

    fn from_cell(c: &Cell) -> (r: Option<Self>) {
        match c {
            Cell::Int(IntCell::I8(v)) => Some(*v),
            _ => None,
        }
    }

    open spec fn replaced(c: Cell, v: Self) -> Cell {
        Cell::Int(IntCell::I8(v))
    }

    fn from_cell_mut(c: &mut Cell) -> (r: Option<&mut Self>) {
        match c {
            Cell::Int(IntCell::I8(v)) => Some(v),
            _ => None,
        }
    }
}

impl IsCellValue for u8 {
    open spec fn cell_of(self) -> Cell {
        Cell::Int(IntCell::U8(self))
    }

    fn into_cell(self) -> (c: Cell) {
        Cell::Int(IntCell::U8(self))
    }

    open spec fn holds(c: Cell, v: Self) -> bool {
        c == Cell::Int(IntCell::U8(v))
    }

    fn from_cell(c: &Cell) -> (r: Option<Self>) {
        match c {
            Cell::Int(IntCell::U8(v)) => Some(*v),
            _ => None,
        }
    }

    open spec fn replaced(c: Cell, v: Self) -> Cell {
        Cell::Int(IntCell::U8(v))
    }

    fn from_cell_mut(c: &mut Cell) -> (r: Option<&mut Self>) {
        match c {
            Cell::Int(IntCell::U8(v)) => Some(v),
            _ => None,
        }
    }
}

impl IsCellValue for i16 {
    open spec fn cell_of(self) -> Cell {
        Cell::Int(IntCell::I16(self))
    }

    fn into_cell(self) -> (c: Cell) {
        Cell::Int(IntCell::I16(self))
    }

    open spec fn holds(c: Cell, v: Self) -> bool {
        c == Cell::Int(IntCell::I16(v))
    }

    fn from_cell(c: &Cell) -> (r: Option<Self>) {
        match c {
            Cell::Int(IntCell::I16(v)) => Some(*v),
            _ => None,
        }
    }

    open spec fn replaced(c: Cell, v: Self) -> Cell {
        Cell::Int(IntCell::I16(v))
    }

    fn from_cell_mut(c: &mut Cell) -> (r: Option<&mut Self>) {
        match c {
            Cell::Int(IntCell::I16(v)) => Some(v),
            _ => None,
        }
    }
}

impl IsCellValue for u16 {
    open spec fn cell_of(self) -> Cell {
        Cell::Int(IntCell::U16(self))
    }

    fn into_cell(self) -> (c: Cell) {
        Cell::Int(IntCell::U16(self))
    }

    open spec fn holds(c: Cell, v: Self) -> bool {
        c == Cell::Int(IntCell::U16(v))
    }

    fn from_cell(c: &Cell) -> (r: Option<Self>) {
        match c {
            Cell::Int(IntCell::U16(v)) => Some(*v),
            _ => None,
        }
    }

    open spec fn replaced(c: Cell, v: Self) -> Cell {
        Cell::Int(IntCell::U16(v))
    }

    fn from_cell_mut(c: &mut Cell) -> (r: Option<&mut Self>) {
        match c {
            Cell::Int(IntCell::U16(v)) => Some(v),
            _ => None,
        }
    }
}

impl IsCellValue for i32 {
    open spec fn cell_of(self) -> Cell {
        Cell::Int(IntCell::I32(self))
    }

    fn into_cell(self) -> (c: Cell) {
        Cell::Int(IntCell::I32(self))
    }

    open spec fn holds(c: Cell, v: Self) -> bool {
        c == Cell::Int(IntCell::I32(v))
    }

    fn from_cell(c: &Cell) -> (r: Option<Self>) {
        match c {
            Cell::Int(IntCell::I32(v)) => Some(*v),
            _ => None,
        }
    }

    open spec fn replaced(c: Cell, v: Self) -> Cell {
        Cell::Int(IntCell::I32(v))
    }

    fn from_cell_mut(c: &mut Cell) -> (r: Option<&mut Self>) {
        match c {
            Cell::Int(IntCell::I32(v)) => Some(v),
            _ => None,
        }
    }
}

impl IsCellValue for u32 {
    open spec fn cell_of(self) -> Cell {
        Cell::Int(IntCell::U32(self))
    }

    fn into_cell(self) -> (c: Cell) {
        Cell::Int(IntCell::U32(self))
    }

    open spec fn holds(c: Cell, v: Self) -> bool {
        c == Cell::Int(IntCell::U32(v))
    }

    fn from_cell(c: &Cell) -> (r: Option<Self>) {
        match c {
            Cell::Int(IntCell::U32(v)) => Some(*v),
            _ => None,
        }
    }

    open spec fn replaced(c: Cell, v: Self) -> Cell {
        Cell::Int(IntCell::U32(v))
    }

    fn from_cell_mut(c: &mut Cell) -> (r: Option<&mut Self>) {
        match c {
            Cell::Int(IntCell::U32(v)) => Some(v),
            _ => None,
        }
    }
}

impl IsCellValue for i64 {
    open spec fn cell_of(self) -> Cell {
        Cell::Int(IntCell::I64(self))
    }

    fn into_cell(self) -> (c: Cell) {
        Cell::Int(IntCell::I64(self))
    }

    open spec fn holds(c: Cell, v: Self) -> bool {
        c == Cell::Int(IntCell::I64(v))
    }

    fn from_cell(c: &Cell) -> (r: Option<Self>) {
        match c {
            Cell::Int(IntCell::I64(v)) => Some(*v),
            _ => None,
        }
    }

    open spec fn replaced(c: Cell, v: Self) -> Cell {
        Cell::Int(IntCell::I64(v))
    }

    fn from_cell_mut(c: &mut Cell) -> (r: Option<&mut Self>) {
        match c {
            Cell::Int(IntCell::I64(v)) => Some(v),
            _ => None,
        }
    }
}

impl IsCellValue for u64 {
    open spec fn cell_of(self) -> Cell {
        Cell::Int(IntCell::U64(self))
    }

    fn into_cell(self) -> (c: Cell) {
        Cell::Int(IntCell::U64(self))
    }

    /// Integers of no fixed type are `u64` too.
    open spec fn holds(c: Cell, v: Self) -> bool {
        c == Cell::Int(IntCell::U64(v)) || c == Cell::Int(IntCell::Any(v))
    }

    fn from_cell(c: &Cell) -> (r: Option<Self>) {
        match c {
            Cell::Int(IntCell::U64(v)) => Some(*v),
            Cell::Int(IntCell::Any(v)) => Some(*v),
            _ => None,
        }
    }

    open spec fn replaced(c: Cell, v: Self) -> Cell {
        if c is Int && c->Int_0 is Any {
            Cell::Int(IntCell::Any(v))
        } else {
            Cell::Int(IntCell::U64(v))
        }
    }

    fn from_cell_mut(c: &mut Cell) -> (r: Option<&mut Self>) {
        match c {
            Cell::Int(IntCell::U64(v)) => Some(v),
            Cell::Int(IntCell::Any(v)) => Some(v),
            _ => None,
        }
    }
}

impl IsCellValue for isize {
    open spec fn cell_of(self) -> Cell {
        Cell::Int(IntCell::ISize(self))
    }

    fn into_cell(self) -> (c: Cell) {
        Cell::Int(IntCell::ISize(self))
    }

    open spec fn holds(c: Cell, v: Self) -> bool {
        c == Cell::Int(IntCell::ISize(v))
    }

    fn from_cell(c: &Cell) -> (r: Option<Self>) {
        match c {
            Cell::Int(IntCell::ISize(v)) => Some(*v),
            _ => None,
        }
    }

    open spec fn replaced(c: Cell, v: Self) -> Cell {
        Cell::Int(IntCell::ISize(v))
    }

    fn from_cell_mut(c: &mut Cell) -> (r: Option<&mut Self>) {
        match c {
            Cell::Int(IntCell::ISize(v)) => Some(v),
            _ => None,
        }
    }
}

impl IsCellValue for usize {
    open spec fn cell_of(self) -> Cell {
        Cell::Int(IntCell::USize(self))
    }

    fn into_cell(self) -> (c: Cell) {
        Cell::Int(IntCell::USize(self))
    }

    open spec fn holds(c: Cell, v: Self) -> bool {
        c == Cell::Int(IntCell::USize(v))
    }

    fn from_cell(c: &Cell) -> (r: Option<Self>) {
        match c {
            Cell::Int(IntCell::USize(v)) => Some(*v),
            _ => None,
        }
    }

    open spec fn replaced(c: Cell, v: Self) -> Cell {
        Cell::Int(IntCell::USize(v))
    }

    fn from_cell_mut(c: &mut Cell) -> (r: Option<&mut Self>) {
        match c {
            Cell::Int(IntCell::USize(v)) => Some(v),
            _ => None,
        }
    }
}

/// Kind of a cell.
pub open spec fn kind_of(c: Cell) -> CellKind {
    match c {
        Cell::Unit => CellKind::Unit,
        Cell::Never => CellKind::Never,
        Cell::Bool(..) => CellKind::Bool,
        Cell::Str(..) => CellKind::Str,
        Cell::Int(i) => CellKind::Int(i.kind()),
        Cell::Other(..) => CellKind::Other,
    }
}

/// Text of a cell holding a string.
pub open spec fn cell_text(c: Cell) -> Option<Seq<char>> {
    match c {
        Cell::Str(s) => Some(s@),
        Cell::Other(s) => Some(s@),
        _ => None,
    }
}

/// Equality of cells: strings by text whatever their kind, other values
/// when they have the same kind and value.
pub open spec fn cell_eq(a: Cell, b: Cell) -> bool {
    if a is Str || b is Str {
        cell_text(a) == cell_text(b)
    } else {
        match (a, b) {
            (Cell::Unit, Cell::Unit) => true,
            (Cell::Never, Cell::Never) => true,
            (Cell::Bool(x), Cell::Bool(y)) => x == y,
            (Cell::Int(x), Cell::Int(y)) => x == y,
            (Cell::Other(x), Cell::Other(y)) => x@ == y@,
            _ => false,
        }
    }
}

impl Cell {
    /// The unit value.
    pub fn unit() -> (c: Cell)
        ensures
            c is Unit,
    {
        Cell::Unit
    }

    /// The never value.
    pub fn never() -> (c: Cell)
        ensures
            c is Never,
    {
        Cell::Never
    }

    /// An integer of no fixed type.
    pub fn any_int(value: u64) -> (c: Cell)
        ensures
            c == Cell::Int(IntCell::Any(value)),
    {
        Cell::Int(IntCell::Any(value))
    }

    /// Cell holding `value`.
    pub fn from<T: IsCellValue>(value: T) -> (c: Cell)
        ensures
            c == value.cell_of(),
    {
        value.into_cell()
    }

    /// The value of type `T` the cell holds, if it holds one.
    pub fn get<T: IsCellValue>(&self) -> (r: Option<T>)
        ensures
            r matches Some(v) ==> T::holds(*self, v),
            (exists|v: T| #[trigger] T::holds(*self, v)) ==> r is Some,
    {
        T::from_cell(self)
    }

    /// A reference to the value of type `T` the cell holds, if it holds
    /// one; writing through it changes the cell's value, not its kind.
    pub fn get_mut<T: IsCellValue>(&mut self) -> (r: Option<&mut T>)
        ensures
            match r {
                Some(v) => T::holds(*old(self), *v) && *final(self) == T::replaced(*old(self), *final(v)),
                None => (forall|v: T| !#[trigger] T::holds(*old(self), v)) && *final(self) == *old(self),
            },
    {
        T::from_cell_mut(self)
    }

    /// Kind of the value.
    pub fn kind(&self) -> (k: CellKind)
        ensures
            k == kind_of(*self),
    {
        match self {
            Cell::Unit => CellKind::Unit,
            Cell::Never => CellKind::Never,
            Cell::Bool(..) => CellKind::Bool,
            Cell::Str(..) => CellKind::Str,
            Cell::Int(i) => CellKind::Int(i.int_kind()),
            Cell::Other(..) => CellKind::Other,
        }
    }

    pub fn is_unit(&self) -> (b: bool)
        ensures
            b == (kind_of(*self) == CellKind::Unit),
    {
        self.kind() == CellKind::Unit
    }

    pub fn is_never(&self) -> (b: bool)
        ensures
            b == (kind_of(*self) == CellKind::Never),
    {
        self.kind() == CellKind::Never
    }

    pub fn is_int(&self) -> (b: bool)
        ensures
            b == (kind_of(*self) is Int),
    {
        matches!(self.kind(), CellKind::Int(..))
    }

    pub fn is_float(&self) -> (b: bool)
        ensures
            b == (kind_of(*self) is Float),
    {
        matches!(self.kind(), CellKind::Float(..))
    }

    pub fn is_any_int(&self) -> (b: bool)
        ensures
            b == (kind_of(*self) == CellKind::Int(IntKind::Any)),
    {
        self.kind() == CellKind::Int(IntKind::Any)
    }

    pub fn is_any_float(&self) -> (b: bool)
        ensures
            b == (kind_of(*self) == CellKind::Float(FloatKind::Any)),
    {
        self.kind() == CellKind::Float(FloatKind::Any)
    }

    /// Text of a string value.
    pub fn as_str(&self) -> (s: Option<&str>)
        ensures
            match cell_text(*self) {
                Some(t) => s is Some && s.unwrap()@ == t,
                None => s is None,
            },
    {
        match self {
            Cell::Str(s) => Some(*s),
            Cell::Other(s) => Some(s.as_str()),
            _ => None,
        }
    }

    /// Equality of cells, strings compared by text.
    pub fn equals(&self, other: &Cell) -> (b: bool)
        ensures
            b == cell_eq(*self, *other),
    {
        if matches!(self, Cell::Str(..)) || matches!(other, Cell::Str(..)) {
            match (self.as_str(), other.as_str()) {
                (Some(a), Some(b)) => str_eq(a, b),
                (None, None) => true,
                _ => false,
            }
        } else {
            match (self, other) {
                (Cell::Unit, Cell::Unit) => true,
                (Cell::Never, Cell::Never) => true,
                (Cell::Bool(x), Cell::Bool(y)) => *x == *y,
                (Cell::Int(x), Cell::Int(y)) => *x == *y,
                (Cell::Other(x), Cell::Other(y)) => str_eq(x.as_str(), y.as_str()),
                _ => false,
            }
        }
    }
}

} // verus!
