use byte::arena::Arena;
use byte::brackets::BracketPairs;
use byte::offset::{BindingList, CodeOffset};
use byte::operators::{compute_range, Bound, OpMap};
use byte::resolve::{highest_precedence, next_group_len, resolve_next, NodeReplace, ResolveAction, ResolveContext};
use byte::scope::ScopeList;
use byte::segments::Node;
use byte::span::Span;
use byte::operators::Precedence;

#[test]
fn arena() {
    let mut arena: Arena<u32> = Arena::new_with_page_size(3);
    assert_eq!(arena.count(), 0);
    for i in 0..10u32 {
        let index = arena.store(i * 10);
        assert_eq!(index, i as usize);
    }
    assert_eq!(arena.count(), 10);
    assert_eq!(*arena.get(7), 70);
    let mut it = arena.iter();
    let mut seen = Vec::new();
    while let Some(v) = it.next() {
        seen.push(*v);
    }
    assert_eq!(seen, vec![0, 10, 20, 30, 40, 50, 60, 70, 80, 90]);
    assert_eq!(arena.take(), vec![0, 10, 20, 30, 40, 50, 60, 70, 80, 90]);
}

#[test]
fn bracket_pairs() {
    let mut b = BracketPairs::new();
    b.add("(", ")");
    b.add("[", "]");
    assert_eq!(b.closing_bracket_for("("), Some(")".to_string()));
    assert_eq!(b.closing_bracket_for("{"), None);
    b.add("(", ">");
    assert_eq!(b.closing_bracket_for("("), Some(">".to_string()));
    assert!(b.is_closing(")"));
    assert!(b.is_closing("]"));
    assert!(!b.is_closing("("));
}

#[test]
fn bindings() {
    let mut list: BindingList<u32> = BindingList::new("x");
    assert!(list.set(CodeOffset::At(10), 1, Span::default()).is_ok());
    assert!(list.set(CodeOffset::At(20), 2, Span::default()).is_ok());
    assert_eq!(list.lookup_index(&CodeOffset::At(5)), None);
    assert_eq!(list.lookup_index(&CodeOffset::At(15)), Some(CodeOffset::At(10)));
    assert_eq!(list.lookup_index(&CodeOffset::At(20)), Some(CodeOffset::At(20)));
    assert_eq!(list.get(&CodeOffset::At(25)), Some(&2));
    assert!(list.set(CodeOffset::Static, 0, Span::default()).is_ok());
    assert_eq!(list.lookup_index(&CodeOffset::At(5)), Some(CodeOffset::Static));
    assert_eq!(list.lookup_index(&CodeOffset::Static), Some(CodeOffset::Static));
    let errors = match list.set(CodeOffset::At(10), 3, Span::default()) {
        Ok(()) => panic!("expected an error"),
        Err(errors) => errors,
    };
    assert_eq!(errors.get(0).message(), "`x` already bound at offset 10");
    assert_eq!(CodeOffset::At(4).value(), 4);
    assert_eq!(CodeOffset::Static.value(), 0);
}

#[test]
fn scopes() {
    let mut list: ScopeList<&str> = ScopeList::new();
    let root = list.get_root();
    let writer = list.get_root_writer();
    assert!(list.set(&writer, "a", CodeOffset::Static, "root a", Span::default()).is_ok());
    let child = list.new_child(&root).get();
    let child_writer = list.get_writer(child);
    assert!(list.set(&child_writer, "b", CodeOffset::At(3), "child b", Span::default()).is_ok());
    assert_eq!(list.get(&child, "a", &CodeOffset::At(0)), Some(&"root a"));
    assert_eq!(list.get(&child, "b", &CodeOffset::At(5)), Some(&"child b"));
    assert_eq!(list.get(&child, "b", &CodeOffset::At(1)), None);
    assert_eq!(list.get(&root, "b", &CodeOffset::At(5)), None);
    assert_eq!(list.lookup(&child, "a", &CodeOffset::At(9)), Some(CodeOffset::Static));
    assert!(list.parent(&child).is_some());
    assert!(list.parent(&root).is_none());
    assert!(list.matcher(&child).is_none());
}

#[test]
fn op_map() {
    let mut ops: OpMap<u8> = OpMap::new();
    ops.add("+", 1);
    ops.add("-", 2);
    ops.add("+", 3);
    assert!(ops.contains("+"));
    assert!(!ops.contains("*"));
    assert_eq!(ops.op_for_node(&Node::Symbol("+".to_string())), Some(3));
    assert_eq!(ops.op_for_node(&Node::Symbol("*".to_string())), None);
    assert_eq!(ops.op_for_node(&Node::Break), None);
}

#[test]
fn ranges() {
    assert_eq!(compute_range(Bound::Unbounded, Bound::Unbounded, 5), (0, 5));
    assert_eq!(compute_range(Bound::Included(1), Bound::Excluded(3), 5), (1, 3));
    assert_eq!(compute_range(Bound::Excluded(1), Bound::Included(3), 5), (2, 4));
}

fn change(index: usize, count: usize, nodes: Vec<u32>) -> NodeReplace<u32> {
    NodeReplace { index, count, nodes }
}

#[test]
fn node_replace() {
    let nodes = [1, 2, 3, 4, 5];
    let out = NodeReplace::apply(&nodes, vec![]).ok().unwrap();
    assert_eq!(out, vec![1, 2, 3, 4, 5]);

    let out = NodeReplace::apply(
        &nodes,
        vec![change(3, 1, vec![40, 41]), change(0, 2, vec![]), change(2, 0, vec![9])],
    )
    .ok()
    .unwrap();
    assert_eq!(out, vec![9, 3, 40, 41, 5]);

    let errors = match NodeReplace::apply(&nodes, vec![change(0, 3, vec![]), change(1, 1, vec![7])]) {
        Ok(_) => panic!("expected an error"),
        Err(errors) => errors,
    };
    assert_eq!(errors.get(0).message(), "operators replace overlapping ranges #1…3");

    let errors = match NodeReplace::apply(&nodes, vec![change(2, 0, vec![7]), change(2, 0, vec![8])]) {
        Ok(_) => panic!("expected an error"),
        Err(errors) => errors,
    };
    assert_eq!(errors.get(0).message(), "multiple node insertions at same position #2");

    assert!(change(0, 3, vec![]).overlaps(&change(2, 2, vec![])));
    assert!(!change(0, 2, vec![]).overlaps(&change(2, 2, vec![])));
    assert!(change(4, 0, vec![]).overlaps(&change(4, 1, vec![])));
}

#[test]
fn resolve_context() {
    let mut ctx = ResolveContext::new(vec![1u32, 2, 3]);
    ctx.replace_index(1, vec![20]);
    ctx.replace_range(Bound::Included(0), Bound::Excluded(1), vec![]);
    let (nodes, errors, changes) = ctx.into_parts();
    assert_eq!(errors.len(), 0);
    let out = NodeReplace::apply(&nodes, changes).ok().unwrap();
    assert_eq!(out, vec![20, 3]);
    let mut ctx = ResolveContext::new(vec![1u32, 2]);
    ctx.replace_nodes(vec![7]);
    let (nodes, _, changes) = ctx.into_parts();
    assert_eq!(NodeReplace::apply(&nodes, changes).ok().unwrap(), vec![7]);
}

#[test]
fn precedence_groups() {
    assert_eq!(next_group_len(&[3, 3, 5, 3]), 2);
    assert_eq!(next_group_len(&[1]), 1);
    let p = highest_precedence(&[None, Some(Precedence::Values), None, Some(Precedence::Comments)]);
    assert_eq!(p, Some(Precedence::Comments));
    assert_eq!(highest_precedence(&[None, None]), None);
}

fn sym(s: &str) -> Node {
    Node::Symbol(s.to_string())
}

#[test]
fn bracket_grouping() {
    let mut b = BracketPairs::new();
    b.add("(", ")");
    b.add("[", "]");
    let nodes = vec![Node::Integer(1), sym("("), Node::Integer(2), sym("["), sym("]"), sym(")"), sym("+")];
    let out = b.parse_nodes(nodes).ok().unwrap();
    let expected = vec![
        Node::Integer(1),
        Node::Group(byte::segments::Group::new(
            sym("("),
            vec![
                Node::Integer(2),
                Node::Group(byte::segments::Group::new(sym("["), vec![], sym("]"))),
            ],
            sym(")"),
        )),
        sym("+"),
    ];
    assert_eq!(out, expected);

    let errors = match b.parse_nodes(vec![sym("("), Node::Integer(2)]) {
        Ok(_) => panic!("expected an error"),
        Err(e) => e,
    };
    assert_eq!(errors.get(0).message(), "bracket `(` is missing `)`");

    let errors = match b.parse_nodes(vec![Node::Integer(2), sym("]")]) {
        Ok(_) => panic!("expected an error"),
        Err(e) => e,
    };
    assert_eq!(errors.get(0).message(), "unpaired right bracket `]`");
}

#[test]
fn bracket_inner_mismatch() {
    let mut b = BracketPairs::new();
    b.add("(", ")");
    b.add("[", "]");
    let errors = match b.parse_nodes(vec![sym("("), sym("["), Node::Integer(1), sym(")")]) {
        Ok(_) => panic!("expected an error"),
        Err(e) => e,
    };
    assert_eq!(errors.get(0).message(), "unpaired right bracket `)`");

    let errors = match b.parse_nodes(vec![sym("("), sym("["), sym("]")]) {
        Ok(_) => panic!("expected an error"),
        Err(e) => e,
    };
    assert_eq!(errors.get(0).message(), "bracket `(` is missing `)`");

    let errors = match b.parse_nodes(vec![sym("("), sym("[")]) {
        Ok(_) => panic!("expected an error"),
        Err(e) => e,
    };
    assert_eq!(errors.get(0).message(), "bracket `[` is missing `]`");
}

#[test]
fn sort_changes_keeps_given_order() {
    let list = vec![change(1, 0, vec![7]), change(0, 1, vec![9]), change(1, 0, vec![5]), change(1, 2, vec![])];
    let sorted = byte::resolve::sort_changes(list);
    let keys: Vec<(usize, usize, Vec<u32>)> = sorted.into_iter().map(|c| (c.index, c.count, c.nodes)).collect();
    assert_eq!(keys, vec![(0, 1, vec![9]), (1, 0, vec![7]), (1, 0, vec![5]), (1, 2, vec![])]);
}

#[test]
fn resolve_steps() {
    let precs = [5u8, 5, 3, 1, 1];
    assert!(matches!(resolve_next(&precs, 0, false, false), ResolveAction::Evaluate(0, 2)));
    assert!(matches!(resolve_next(&precs, 2, false, false), ResolveAction::Evaluate(2, 1)));
    assert!(matches!(resolve_next(&precs, 3, false, false), ResolveAction::Evaluate(3, 2)));
    assert!(matches!(resolve_next(&precs, 5, false, false), ResolveAction::Stop));
    assert!(matches!(resolve_next(&precs, 2, true, true), ResolveAction::Apply));
    assert!(matches!(resolve_next(&precs, 2, false, true), ResolveAction::Stop));
    assert!(matches!(resolve_next(&[], 0, false, false), ResolveAction::Stop));
}

#[test]
fn apply_reports_first_failure() {
    let nodes = vec![1u32, 2, 3, 4];
    let errors = match NodeReplace::apply(&nodes, vec![change(0, 2, vec![9]), change(1, 2, vec![8])]) {
        Ok(_) => panic!("expected an error"),
        Err(e) => e,
    };
    assert_eq!(errors.get(0).message(), "operators replace overlapping ranges #1…2");
    let errors = match NodeReplace::apply(&nodes, vec![change(1, 0, vec![9]), change(1, 0, vec![8])]) {
        Ok(_) => panic!("expected an error"),
        Err(e) => e,
    };
    assert_eq!(errors.get(0).message(), "multiple node insertions at same position #1");
}
