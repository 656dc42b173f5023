use byte::cell::{Cell, CellKind};
use byte::core_error::{Error, ErrorList};
use byte::input::{Input, Span};
use byte::strings::{Str, StrStore};
use std::sync::Arc;

fn eq(a: &Str, b: &Str, store: &StrStore) -> bool {
    a.equals(b, store)
}

#[test]
fn str_empty() {
    let mut store = StrStore::new();
    let interned = Str::intern(&mut store, "");
    let interned_owned = Str::intern(&mut store, &String::new());
    assert!(eq(&Str::Empty, &Str::Empty, &store));
    assert!(eq(&Str::Empty, &Str::Static(""), &store));
    assert!(eq(&Str::Empty, &Str::Static(""), &store));
    assert!(eq(&Str::Empty, &Str::Shared(Arc::new(String::new())), &store));
    assert!(eq(&Str::Empty, &interned, &store));
    assert!(eq(&Str::Empty, &interned_owned, &store));
    assert!(Str::Empty.equals_str("", &store));
    assert!(Str::Empty.equals_str(&String::new(), &store));
    assert!(Str::Empty.equals_str("", &store));
    assert!(Str::Empty.equals_str(&String::new(), &store));
}

#[test]
fn str_eq() {
    let mut store = StrStore::new();
    let a1 = Str::Static("123");
    let a2 = Str::Static("123");
    let a3 = Str::Shared(Arc::new(String::from("123")));
    let a4 = Str::intern(&mut store, "123");
    let a5 = Str::intern(&mut store, "123");

    let input = Input::open_str("", "[123]");
    let mut sta = input.start();
    sta.read();
    let mut end = sta.duplicate();
    end.read();
    end.read();
    end.read();
    let span = Span { sta, end };
    let a6 = Str::FromInput(span);

    let all = [&a1, &a2, &a3, &a4, &a5, &a6];
    for a in all.iter() {
        assert!(a.equals_str("123", &store));
        assert!(a.equals_str(&String::from("123"), &store));
        for b in all.iter() {
            assert!(eq(a, b, &store));
        }
        let copy = a.interned(&mut store);
        assert!(eq(a, &copy, &store));
    }
    assert_eq!(a4.as_str(&store), "123");
    assert_eq!(a6.as_str(&store), "123");
}

#[test]
fn str_store_dedup() {
    let mut store = StrStore::new();
    let a = store.add("abc");
    let b = store.add("xyz");
    let c = store.add("abc");
    assert_eq!(a, c);
    assert_ne!(a, b);
    assert_eq!(store.get(&a), "abc");
    assert_eq!(store.get(&b), "xyz");
}

#[test]
fn strings() {
    let a = Cell::from("abc");
    let b = Cell::from("abc");
    let c = Cell::from("123");

    assert_eq!(a.kind(), CellKind::Str);
    assert_eq!(b.kind(), CellKind::Str);
    assert_eq!(c.kind(), CellKind::Str);

    assert!(a.get::<&str>() == Some("abc"));
    assert!(b.get::<&str>() == Some("abc"));
    assert!(c.get::<&str>() == Some("123"));

    assert!(a.equals(&b));
    assert!(!a.equals(&c));

    assert_eq!(a.as_str(), Some("abc"));
    assert_eq!(b.as_str(), Some("abc"));
    assert_eq!(c.as_str(), Some("123"));

    let a = Cell::from(String::from("abc"));
    let b = Cell::from(String::from("abc"));
    let c = Cell::from(String::from("123"));

    assert!(a.equals(&b));
    assert!(!a.equals(&c));

    assert_eq!(a.as_str(), Some("abc"));
    assert_eq!(b.as_str(), Some("abc"));
    assert_eq!(c.as_str(), Some("123"));

    assert!(Cell::from("123").equals(&Cell::from(String::from("123"))));
    assert!(Cell::from(String::from("123")).equals(&Cell::from("123")));

    let x = Cell::from(123);
    assert!(x.as_str() == None);
}

#[test]
fn cell_kinds() {
    assert!(Cell::unit().is_unit());
    assert!(Cell::never().is_never());
    assert!(Cell::from(7u8).is_int());
    assert!(Cell::any_int(5).is_any_int());
    assert!(!Cell::from(7u8).is_any_int());
    assert!(!Cell::from(true).is_int());
    assert!(Cell::from(1i32).equals(&Cell::from(1i32)));
    assert!(!Cell::from(1i32).equals(&Cell::from(1u32)));
}

#[test]
fn cursor_reading() {
    let input = Input::open_str("in", "a\r\n\tb\rc");
    let mut c = input.start();
    assert_eq!(c.read(), Some('a'));
    assert_eq!((c.row(), c.col()), (0, 1));
    assert_eq!(c.read(), Some('\n'));
    assert_eq!((c.row(), c.col(), c.offset()), (1, 0, 3));
    assert_eq!(c.read(), Some('\t'));
    assert_eq!((c.col(), c.indent()), (4, 4));
    assert!(c.read_if('b'));
    assert!(!c.read_if('x'));
    assert_eq!(c.read(), Some('\n'));
    assert_eq!(c.row(), 2);
    assert_eq!(c.read(), Some('c'));
    assert!(c.at_end());
    assert_eq!(c.read(), None);
}

#[test]
fn input_span_text() {
    let input = Input::open_str("name", "hello world");
    let mut sta = input.start();
    for _ in 0..6 {
        sta.read();
    }
    let mut end = sta.duplicate();
    for _ in 0..5 {
        end.read();
    }
    let span = Span { sta, end };
    assert_eq!(span.text(), "world");
    assert_eq!(input.text(&span), "world");
    assert_eq!(input.bytes(&span), b"world");
    assert_eq!(input.name(), "name");
    assert_eq!(input.len(), 11);
    let pos = Span::from_range(Some(span.duplicate()), None).unwrap();
    assert_eq!(pos.text(), "");
    assert!(Span::from_range(None, None).is_none());
}

#[test]
fn error_list() {
    let input = Input::open_str("f", "abc");
    let mut list = ErrorList::new();
    assert!(list.empty());
    list.add(Error::new("first"));
    list.at(input.start().pos(), "second");
    assert!(!list.empty());
    let errors = list.list();
    assert_eq!(errors.len(), 2);
    assert_eq!(errors[0].message(), "first");
    assert!(errors[0].span().is_none());
    assert_eq!(errors[1].message(), "second");
    assert!(errors[1].span().is_some());
}

#[test]
fn cell_get() {
    let x = Cell::from(123i32);
    assert_eq!(x.get::<i32>(), Some(123));
    assert_eq!(x.get::<u32>(), None);
    assert_eq!(Cell::from(true).get::<bool>(), Some(true));
    assert_eq!(Cell::from(String::from("s")).get::<String>(), Some(String::from("s")));
    assert_eq!(Cell::from("s").get::<String>(), None);
}

#[test]
fn cell_get_any_int() {
    let any = Cell::any_int(42);
    assert_eq!(any.get::<u64>(), Some(42));
    assert_eq!(any.get::<i64>(), None);
    assert_eq!(Cell::from(42u64).get::<u64>(), Some(42));
}

#[test]
fn input_from_bytes() {
    let input = Input::open_bytes("f", b"ab\xffc").unwrap();
    assert_eq!(input.len(), "ab\u{FFFD}c".len());
    let input = Input::open_bytes("g", b"plain").unwrap();
    assert_eq!(input.len(), 5);
    assert_eq!(input.name(), "g");
}

fn check_cell<T: byte::cell::IsCellValue + PartialEq + Clone + std::fmt::Debug>(cell: &Cell, v1: T, v2: T) {
    // check that we don't cast to the wrong type
    assert!(cell.get::<String>().is_none());

    // make sure we are able to get the value
    assert_eq!(cell.get::<T>().unwrap(), v1);

    // make sure invariants hold after cloning
    let mut cell = cell.clone();
    assert!(cell.get_mut::<String>().is_none());
    assert_eq!(cell.get::<T>().unwrap(), v1);

    // test the mutable reference as well
    assert_eq!(*cell.get_mut::<T>().unwrap(), v1);

    let saved = cell.clone();

    // change the value and check that it applied correctly
    *(cell.get_mut::<T>().unwrap()) = v2.clone();
    assert_eq!(cell.get::<T>().unwrap(), v2);
    assert_eq!(*cell.get_mut::<T>().unwrap(), v2);

    // make sure the clone does not change
    assert_eq!(saved.get::<T>().unwrap(), v1);

    // make sure a cell is equal to its clone
    assert!(cell.equals(&cell.clone()));
    assert!(!cell.equals(&saved));
}

#[test]
fn simple_types() {
    // unit
    let unit = Cell::unit();
    assert!(unit.is_unit());

    // never
    let never = Cell::never();
    assert!(never.is_never());

    // bool
    let bool = Cell::from(true);
    check_cell(&bool, true, false);

    let bool = Cell::from(false);
    check_cell(&bool, false, true);

    // i8 and u8
    let int = Cell::from(42i8);
    check_cell(&int, 42i8, 123);

    let int = Cell::from(42u8);
    check_cell(&int, 42u8, 123);

    // i16 and u16
    let int = Cell::from(42i16);
    check_cell(&int, 42i16, 123);

    let int = Cell::from(42u16);
    check_cell(&int, 42u16, 123);

    // i32 and u32
    let int = Cell::from(42i32);
    check_cell(&int, 42i32, 123);

    let int = Cell::from(42u32);
    check_cell(&int, 42u32, 123);

    // i64 and u64
    let int = Cell::from(42i64);
    check_cell(&int, 42i64, 123);

    let int = Cell::from(42u64);
    check_cell(&int, 42u64, 123);

    // isize and usize
    let int = Cell::from(42isize);
    check_cell(&int, 42isize, 123);

    let int = Cell::from(42usize);
    check_cell(&int, 42usize, 123);

    // any
    let v1: u64 = 42;
    let v2: u64 = 123;
    let any = Cell::any_int(v1);
    assert!(any.is_any_int());
    check_cell(&any, v1, v2);
    let mut any = Cell::any_int(v1);
    *any.get_mut::<u64>().unwrap() = v2;
    assert!(any.is_any_int());
}
