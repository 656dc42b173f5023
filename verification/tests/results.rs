use byte::errors::{Errors, ResultExtension};

fn err(msg: &str) -> Result<u32, Errors> {
    Err(Errors::from(msg))
}

fn messages(r: &Result<u32, Errors>) -> Vec<String> {
    match r {
        Ok(_) => vec![],
        Err(e) => (0..e.len()).map(|i| e.get(i).message().to_string()).collect(),
    }
}

#[test]
fn and_keeps_all_errors() {
    let r = ResultExtension::and(err("a"), err("b"));
    assert_eq!(messages(&r), vec!["a", "b"]);
    let r = ResultExtension::and(Ok::<u32, Errors>(1), Ok(2));
    assert_eq!(r.ok(), Some(2));
    let r = ResultExtension::and(err("a"), Ok(2));
    assert_eq!(messages(&r), vec!["a"]);
}

#[test]
fn or_takes_first_success() {
    let r = ResultExtension::or(err("a"), Ok(5));
    assert_eq!(r.ok(), Some(5));
    let r = ResultExtension::or(Ok::<u32, Errors>(1), err("b"));
    assert_eq!(r.ok(), Some(1));
    let r = ResultExtension::or(err("a"), err("b"));
    assert_eq!(messages(&r), vec!["a", "b"]);
}

#[test]
fn handle_collects_errors() {
    let mut errors = Errors::new();
    assert_eq!(Ok::<u32, Errors>(7).handle(&mut errors), 7);
    assert_eq!(errors.len(), 0);
    assert_eq!(err("x").handle(&mut errors), 0);
    assert_eq!(errors.len(), 1);
}

#[test]
fn unless_errors() {
    let r = Ok::<u32, Errors>(3).unless(Errors::from("late"));
    assert_eq!(messages(&r), vec!["late"]);
    let r = err("first").unless(Errors::from("late"));
    assert_eq!(messages(&r), vec!["first"]);
    let r = Ok::<u32, Errors>(3).unless(Errors::new());
    assert_eq!(r.ok(), Some(3));
}
