use byte::errors::Errors;
use byte::format::{fmt_indented, IndentedFormatter};
use byte::span::{Source, Span};
use byte::spanfmt::{Format, Mode};

#[test]
fn span_format() {
    let normal = Format::new().with_mode(Mode::Normal);
    let text = Span::default().debug_text(&normal);
    assert_eq!(text, "<span>");

    let text = Span::default().display_text(&normal);
    assert_eq!(text, "");

    let minimal = Format::new().with_mode(Mode::Minimal);
    let detail = Format::new().with_mode(Mode::Detail).with_line_width(35);

    let prefix = "\n\n\n\t\t\t\t";
    let s = Source::new("small.txt", &format!("{prefix}123456"));
    let m = Source::new("medium.txt", &format!("{prefix}somewhat larger text"));
    let l = Source::new(
        "large.txt",
        &format!("{prefix}[the quick brown fox jumps over the lazy dog]"),
    );

    let mut s = s.span();
    let mut m = m.span();
    let mut l = l.span();

    s.advance(prefix.len());
    m.advance(prefix.len());
    l.advance(prefix.len());

    {
        let fmt = minimal.with_separator("at ");
        let text = s.display_text(&fmt);
        assert_eq!(text, "at L4:17");
    }

    {
        let fmt = &minimal;
        let text = s.debug_text(fmt);
        assert_eq!(text, "<L4:17+6>");

        let text = s.display_text(fmt);
        assert_eq!(text, "L4:17");

        let s = s.truncate(0);
        let text = s.debug_text(fmt);
        assert_eq!(text, "<L4:17>");
    }

    {
        let fmt = &normal;
        let text = s.debug_text(fmt);
        assert_eq!(text, "<span \"small.txt\" L4:17+6>");

        let text = s.display_text(fmt);
        assert_eq!(text, "small.txt:4:17…4:23");

        let s = s.truncate(0);
        let text = s.display_text(fmt);
        assert_eq!(text, "small.txt:4:17");

        let text = m.debug_text(fmt);
        assert_eq!(text, "<span \"medium.txt\" L4:17+20>");

        let text = l.debug_text(fmt);
        assert_eq!(text, "<span \"large.txt\" L4:17+45>");
    }

    {
        let fmt = &detail;
        let text = s.debug_text(fmt);
        assert_eq!(text, "<span \"small.txt\" L4:17 = \"123456\">");

        let text = s.display_text(fmt);
        assert_eq!(text, "small.txt at L4:17 to L4:23");

        let s = s.truncate(0);
        let text = s.display_text(fmt);
        assert_eq!(text, "small.txt at L4:17");

        let text = m.debug_text(fmt);
        assert_eq!(text, "<span \"medium.txt\" L4:17\n    = \"somewhat larger text\"\n>");

        let text = l.debug_text(fmt);
        assert_eq!(
            text,
            "<span \"large.txt\" L4:17\n    = \"[the quick brown… lazy dog]\"\n>"
        );
    }
}

#[test]
fn reading() {
    let input = Source::new("input A", "123456");

    let mut cursor = input.span();
    assert_eq!(cursor.read(), Some('1'));
    assert_eq!(cursor.read(), Some('2'));
    assert_eq!(cursor.read(), Some('3'));

    let pos = cursor.duplicate();

    assert_eq!(cursor.read(), Some('4'));
    assert_eq!(cursor.read_if('!'), false);
    assert_eq!(cursor.read_if('5'), true);

    assert_eq!(cursor.span_from(&pos).text(), "45");

    assert_eq!(cursor.read(), Some('6'));
    assert_eq!(cursor.read(), None);
    assert_eq!(cursor.at_end(), true);
}

#[test]
fn test_output() {
    let mut errors = Errors::default();
    errors.add("some error 1", Span::default());
    errors.add(&"some error 2".to_string(), Span::default());
    errors.add("error A", Span::default());
    errors.add("error B", Span::default());
    errors.add("error C\n    with some detail", Span::default());

    let expected = vec![
        "Errors:",
        "",
        "    [1] some error 1",
        "    [2] some error 2",
        "    [3] error A",
        "    [4] error B",
        "    [5] error C",
        "        with some detail",
        "",
    ];
    let expected = expected.join("\n");
    let actual = errors.to_string();
    assert_eq!(actual, expected);
}

struct List(Vec<&'static str>);

struct Key(&'static str, List);

struct Obj(Vec<Key>);

impl List {
    fn render(&self) -> String {
        let mut f = IndentedFormatter::new();
        f.write_str("[");
        for it in self.0.iter() {
            f.write_str("\n");
            let mut g = IndentedFormatter::with_indent("…");
            g.write_str(&format!("<{it}>"));
            f.write_str(&g.output());
        }
        format!("{}\n]", f.output())
    }
}

impl Key {
    fn render(&self) -> String {
        format!("{} = {}", self.0, self.1.render())
    }
}

impl Obj {
    fn render(&self) -> String {
        let mut f = IndentedFormatter::new();
        f.write_str("Object {");
        for it in self.0.iter() {
            f.write_str(&format!("\n{}", it.render()));
        }
        format!("{}\n}}", f.output())
    }
}

fn indent_expected() -> (Obj, String) {
    let expected = vec![
        "Object {",
        "    A = [",
        "        <item 1>",
        "        <item 2>",
        "        <item 3 but",
        "        …with multiple lines>",
        "    ]",
        "    B = [",
        "    ]",
        "    C = [",
        "        <C1>",
        "        <C2>",
        "    ]",
        "}",
    ];

    let value = Obj(vec![
        Key("A", List(vec!["item 1", "item 2", "item 3 but\nwith multiple lines"])),
        Key("B", List(vec![])),
        Key("C", List(vec!["C1", "C2"])),
    ]);

    (value, expected.join("\n"))
}

#[test]
fn format_test_indent() {
    let (value, expected) = indent_expected();
    assert_eq!(value.render(), expected);
}

#[test]
fn indent_test_indent() {
    let (value, expected) = indent_expected();
    assert_eq!(value.render(), expected);
}

#[test]
fn indented_prefix() {
    assert_eq!(fmt_indented("a\nb", "- ", "  "), "- - a\n  b");
    assert_eq!(fmt_indented("", "> ", "  "), "> ");
}

#[test]
fn pieces_write_like_whole() {
    let mut a = IndentedFormatter::new();
    a.write_str("x\ny");
    a.write_str("\nz");
    let mut b = IndentedFormatter::new();
    b.write_str("x\ny\nz");
    assert_eq!(a.output(), b.output());
    assert_eq!(b.output(), "x\n    y\n    z");

    let mut c = IndentedFormatter::new();
    c.write_str("x\r");
    c.write_str("\ny");
    let mut d = IndentedFormatter::new();
    d.write_str("x\r\ny");
    assert_eq!(d.output(), "x\r\n    y");
    assert_eq!(c.output(), "x\r    \n    y");
}

#[test]
fn scanned_spans_in_order() {
    let mut matcher = byte::matcher::Matcher::new();
    matcher.add_word_chars("abc");
    matcher.add_symbol("+");
    let source = Source::new("s", "a + bc\n  c");
    let mut cursor = source.span();
    let mut errors = Errors::new();
    let mut last_end = 0;
    let mut count = 0;
    while let Some((_, span)) = matcher.scan(&mut cursor, &mut errors) {
        let (sta, end) = span.source_range();
        assert!(sta >= last_end && end > sta);
        last_end = end;
        count += 1;
    }
    assert_eq!(count, 5);
    assert!(cursor.at_end());
    assert_eq!(errors.len(), 0);
}

#[test]
fn merge_covers_nested() {
    let source = Source::new("m", "0123456789");
    let mut outer = source.span();
    outer.advance(1);
    let outer = outer.truncate(8);
    let mut inner = source.span();
    inner.advance(3);
    let inner = inner.truncate(2);
    let merged = Span::merge(outer.duplicate(), inner.duplicate());
    assert_eq!(merged.source_range(), (1, 9));
    let merged = Span::merge(inner, outer);
    assert_eq!(merged.source_range(), (1, 9));
}
