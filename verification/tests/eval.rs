use byte::cell::Cell;
use byte::eval::eval;

#[test]
fn hello_world() {
    let result = eval("print 'hello world!!!'").ok().unwrap();
    assert_eq!(result.output(), "hello world!!!\n");
}

#[test]
fn print_several_lines() {
    let result = eval("print 1, 'a'\n# comment\nprint\nprint 42").ok().unwrap();
    assert_eq!(result.output(), "1 a\n\n42\n");
    assert!(result.val().is_unit());
}

#[test]
fn unsupported_statement() {
    let errors = match eval("x = 1") {
        Ok(_) => panic!("expected an error"),
        Err(errors) => errors,
    };
    assert_eq!(errors.len(), 1);
    assert_eq!(errors.get(0).message(), "unsupported statement");
}

#[test]
fn unclosed_literal() {
    let errors = match eval("print 'abc") {
        Ok(_) => panic!("expected an error"),
        Err(errors) => errors,
    };
    assert_eq!(errors.get(0).message(), "unclosed string literal");
}

#[test]
fn answer_to_everything() {
    let result = eval("42").ok().unwrap();
    assert!(result.val().equals(&Cell::any_int(42)));
}

#[test]
fn unknown_name() {
    let errors = match eval("print x") {
        Ok(_) => panic!("expected an error"),
        Err(errors) => errors,
    };
    assert_eq!(errors.get(0).message(), "unsupported statement");
}
