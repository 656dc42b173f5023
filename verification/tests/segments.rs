use byte::brackets::BracketPairs;
use byte::errors::Errors;
use byte::matcher::Matcher;
use byte::matchers::MatcherKind;
use byte::segments::{parse_segments, scan, Block, Group, Node, Segment};
use byte::span::Source;

fn check(input: Vec<&str>, expected: Vec<Node>) {
    let actual = parse(input);
    assert_eq!(actual, expected);
}

fn parse(input: Vec<&str>) -> Vec<Node> {
    let text = input.join("\n");
    let text = Source::new("test.in", &text);

    let mut brackets = BracketPairs::new();
    brackets.add("(", ")");
    brackets.add("[", "]");
    brackets.add("{", "}");

    let mut scanner = Matcher::new();
    scanner.add_word_chars("abcdefghijklmnopqrstuvwxyzABCDEFGHIJKLMNOPQRSTUVWXYZ_");
    for symbol in [",", ";", ":", "(", "[", "{", "}", "]", ")", "+", "-", "*", "/"] {
        scanner.add_symbol(symbol);
    }
    scanner.add_matcher(MatcherKind::Integer);
    scanner.add_matcher(MatcherKind::Comment);

    let mut errors = Errors::new();
    let nodes = match scan(&mut scanner, &text.span()) {
        Ok(mut stream) => parse_segments(&brackets, &mut stream, &mut errors),
        Err(errs) => {
            errors.append(&errs);
            Vec::new()
        }
    };

    if errors.len() > 0 {
        panic!("Segment parsing generated errors: {}", errors.to_string());
    }

    nodes
}

fn line(line: Vec<Node>) -> Node {
    Node::Segment(segment(line))
}

fn segment(line: Vec<Node>) -> Segment {
    Segment::new(line)
}

fn segment_block(line: Vec<Node>, block: Block) -> Segment {
    Segment::new_with_block(line, block)
}

fn block(segments: Vec<Segment>) -> Block {
    Block::new(segments)
}

fn id(text: &str) -> Node {
    Node::Word(text.to_string())
}

fn brk() -> Node {
    Node::Break
}

fn n(value: usize) -> Node {
    Node::Integer(value as u128)
}

fn s(symbol: &str) -> Node {
    Node::Symbol(symbol.to_string())
}

fn comment(text: &str) -> Node {
    Node::Comment(text.to_string())
}

fn group(s: &str, nodes: Vec<Node>, e: &str) -> Node {
    let s = Node::Symbol(s.to_string());
    let e = Node::Symbol(e.to_string());
    Node::Group(Group::new(s, nodes, e))
}

#[test]
fn segments_empty() {
    let input = vec![];
    check(input, vec![]);
}

#[test]
fn lines() {
    let input = vec!["line 1", "line 2", "line 3"];
    check(
        input,
        vec![
            line(vec![id("line"), n(1)]),
            line(vec![id("line"), n(2)]),
            line(vec![id("line"), n(3)]),
        ],
    );

    let input = vec!["", "line 1", "", "line 2", "    ", "\t", "line 3", ""];
    check(
        input,
        vec![
            line(vec![id("line"), n(1)]),
            line(vec![id("line"), n(2)]),
            line(vec![id("line"), n(3)]),
        ],
    );
}

#[test]
fn indented_lines() {
    let input = vec!["line 1", "  line 2", "  line 3", "    line 4", "line 5"];
    check(
        input,
        vec![
            Node::Segment(segment_block(
                vec![id("line"), n(1)],
                block(vec![
                    segment(vec![id("line"), n(2)]),
                    segment_block(
                        vec![id("line"), n(3)],
                        block(vec![segment(vec![id("line"), n(4)])]),
                    ),
                ]),
            )),
            line(vec![id("line"), n(5)]),
        ],
    )
}

#[test]
fn comments() {
    let input = vec!["# comment 1", "line 1"];
    check(input, vec![line(vec![id("line"), n(1)])]);

    let input = vec![
        "# comment 1",
        "line 1",
        "",
        "#(",
        "comment 2",
        ")",
        "line 2",
        "",
    ];
    check(
        input,
        vec![line(vec![id("line"), n(1)]), line(vec![id("line"), n(2)])],
    );

    let input = vec!["# comment 1", "#(c1)A#(c2)B #((c3)) C D # comment 2 "];
    check(input, vec![line(vec![id("A"), id("B"), id("C"), id("D")])]);
}

#[test]
fn groups() {
    let input = vec!["(1)"];
    check(input, vec![line(vec![group("(", vec![n(1)], ")")])]);

    let input = vec!["(a)", "[ 1 2 ]", "{", "    content", "}"];
    check(
        input,
        vec![
            line(vec![group("(", vec![id("a")], ")")]),
            line(vec![group("[", vec![n(1), n(2)], "]")]),
            line(vec![group("{", vec![brk(), id("content"), brk()], "}")]),
        ],
    );

    let input = vec!["1 + (2 + 3) * 4"];
    check(
        input,
        vec![line(vec![
            n(1),
            s("+"),
            group("(", vec![n(2), s("+"), n(3)], ")"),
            s("*"),
            n(4),
        ])],
    );

    let input = vec!["(([{1}]))"];
    check(
        input,
        vec![line(vec![group(
            "(",
            vec![group(
                "(",
                vec![group("[", vec![group("{", vec![n(1)], "}")], "]")],
                ")",
            )],
            ")",
        )])],
    );

    let content = vec![
        " # comment 1",
        "    1",
        "    #((",
        "      comment 2",
        "    ))",
        "    [ 2, 3 ]",
        "   # A) comment",
        "  4",
        "  ",
    ]
    .join("\n");

    let input = format!("x + ({content}) + y # end");
    let content_nodes = vec![
        comment("# comment 1"),
        brk(),
        n(1),
        brk(),
        comment("#((\n      comment 2\n    ))"),
        brk(),
        group("[", vec![n(2), s(","), n(3)], "]"),
        brk(),
        comment("# A) comment"),
        brk(),
        n(4),
        brk(),
    ];

    let input = vec![input.as_str()];
    check(
        input,
        vec![line(vec![
            id("x"),
            s("+"),
            group("(", content_nodes, ")"),
            s("+"),
            id("y"),
        ])],
    );
}
