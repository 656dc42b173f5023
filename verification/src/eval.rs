//! Evaluation of source text: the segments of the input are run as
//! statements; a `print` statement writes its arguments and a line break.

use vstd::prelude::*;
use vstd::string::StringSliceAdditionalSpecFns;

use crate::brackets::BracketPairs;
use crate::cell::{Cell, IntCell, IntKind};
use crate::errors::{ErrorView, Errors};
use crate::matcher::{is_char_key, Matcher, ScanActionView};
use crate::matchers::MatcherKind;
use crate::segments::{
    block_items, parse_message, parse_segments, scan, scan_stops, views, Node, Segment,
};
use crate::span::{SourceView, SpanView};
use crate::token::TokenView;
use crate::span::{Source, MAX_SOURCE_LEN};
use crate::text::{chars_to_string, decimal, push_decimal_u128, push_str};
use crate::token::str_eq;

verus! {

/// Value of a statement: nothing, an integer or a text.
pub enum ValueView {
    Unit,
    Int(u64),
    Text(Seq<char>),
}

/// The value a cell holds.
pub open spec fn cell_value(c: Cell) -> ValueView {
    match c {
        Cell::Int(IntCell::Any(v)) => ValueView::Int(v),
        Cell::Other(s) => ValueView::Text(s@),
        _ => ValueView::Unit,
    }
}

/// Result of an evaluation: the value of the last statement and the text
/// printed.
pub struct Output {
    result: Cell,
    output: String,
}

impl Output {
    pub closed spec fn text(self) -> Seq<char> {
        self.output@
    }

    pub closed spec fn value(self) -> ValueView {
        cell_value(self.result)
    }

    /// Value of the last statement.
    pub fn val(&self) -> (c: &Cell)
        ensures
            cell_value(*c) == self.value(),
    {
        &self.result
    }

    /// Text printed by the evaluation.
    pub fn output(&self) -> (s: &str)
        ensures
            s@ == self.text(),
    {
        self.output.as_str()
    }
}

/// Text printed for a value: the text of a literal or a float, and the
/// decimal value of an integer.
pub open spec fn node_text(n: Node) -> Option<Seq<char>> {
    match n {
        Node::Literal(s) => Some(s@),
        Node::Float(s) => Some(s@),
        Node::Integer(v) => Some(decimal(v as nat)),
        _ => None,
    }
}

/// A comma, which separates the arguments of `print`.
pub open spec fn is_comma(n: Node) -> bool {
    n matches Node::Symbol(s) && s@ == ","@
}

/// Texts of the arguments of `print`: its values, commas left out; none
/// when an argument is not a value.
pub open spec fn args_items(args: Seq<Node>) -> Option<Seq<Seq<char>>>
    decreases args.len(),
{
    if args.len() == 0 {
        Some(Seq::empty())
    } else if is_comma(args.last()) {
        args_items(args.drop_last())
    } else {
        match (args_items(args.drop_last()), node_text(args.last())) {
            (Some(a), Some(t)) => Some(a.push(t)),
            _ => None,
        }
    }
}

/// Texts joined by single spaces.
pub open spec fn join(items: Seq<Seq<char>>) -> Seq<char>
    decreases items.len(),
{
    if items.len() == 0 {
        Seq::empty()
    } else if items.len() == 1 {
        items[0]
    } else {
        join(items.drop_last()) + seq![' '] + items.last()
    }
}

/// Arguments of `print` printed one after the other, separated by spaces.
pub open spec fn args_text(args: Seq<Node>) -> Option<Seq<char>> {
    match args_items(args) {
        Some(items) => Some(join(items)),
        None => None,
    }
}

/// The word `print`.
pub open spec fn is_print_word(n: Node) -> bool {
    n matches Node::Word(w) && w@ == "print"@
}

/// A line of a single value: an integer that fits a `u64`, or a string
/// literal.
pub open spec fn value_line(line: Seq<Node>) -> Option<ValueView> {
    if line.len() == 1 {
        match line[0] {
            Node::Integer(v) => if v <= u64::MAX {
                Some(ValueView::Int(v as u64))
            } else {
                None
            },
            Node::Literal(s) => Some(ValueView::Text(s@)),
            _ => None,
        }
    } else {
        None
    }
}

/// Text printed by a statement: a line starting with the word `print`
/// and without an indented block prints its arguments and a line break; a
/// line of a single value prints nothing.
pub open spec fn statement_text(n: Node) -> Option<Seq<char>> {
    match n {
        Node::Segment(seg) => {
            let line = seg.line_nodes();
            if seg.sub_block() is None && line.len() > 0 && is_print_word(line[0]) {
                match args_text(line.subrange(1, line.len() as int)) {
                    Some(t) => Some(t + seq!['\n']),
                    None => None,
                }
            } else if seg.sub_block() is None && value_line(line) is Some {
                Some(Seq::empty())
            } else {
                None
            }
        },
        _ => None,
    }
}

/// Value of a statement that runs: a value line gives its value, `print`
/// gives nothing.
pub open spec fn statement_value(n: Node) -> ValueView {
    match n {
        Node::Segment(seg) => if !is_print_word(seg.line_nodes()[0]) && value_line(seg.line_nodes()) is Some {
            value_line(seg.line_nodes()).unwrap()
        } else {
            ValueView::Unit
        },
        _ => ValueView::Unit,
    }
}

/// Value of a program: that of its last statement, nothing when empty.
pub open spec fn program_value(nodes: Seq<Node>) -> ValueView {
    if nodes.len() == 0 {
        ValueView::Unit
    } else {
        statement_value(nodes.last())
    }
}

/// Text printed by running the statements in order.
pub open spec fn program_text(nodes: Seq<Node>) -> Option<Seq<char>>
    decreases nodes.len(),
{
    if nodes.len() == 0 {
        Some(Seq::empty())
    } else {
        match (program_text(nodes.drop_last()), statement_text(nodes.last())) {
            (Some(a), Some(t)) => Some(a + t),
            _ => None,
        }
    }
}

fn push_node(out: &mut Vec<char>, node: &Node) -> (ok: bool)
    ensures
        ok == node_text(*node) is Some,
        ok ==> final(out)@ == old(out)@ + node_text(*node).unwrap(),
        !ok ==> final(out)@ == old(out)@,
{
    match node {
        Node::Literal(s) => {
            push_str(out, s.as_str());
            true
        },
        Node::Float(s) => {
            push_str(out, s.as_str());
            true
        },
        Node::Integer(v) => {
            push_decimal_u128(out, *v);
            true
        },
        _ => false,
    }
}

fn is_comma_node(node: &Node) -> (b: bool)
    ensures
        b == is_comma(*node),
{
    match node {
        Node::Symbol(s) => str_eq(s.as_str(), ","),
        _ => false,
    }
}

fn is_print(node: &Node) -> (b: bool)
    ensures
        b == is_print_word(*node),
{
    match node {
        Node::Word(s) => str_eq(s.as_str(), "print"),
        _ => false,
    }
}

proof fn lemma_args_none_extends(s: Seq<Node>, k: int)
    requires
        0 <= k <= s.len(),
        args_items(s.take(k)) is None,
    ensures
        args_items(s) is None,
    decreases s.len() - k,
{
    if k < s.len() {
        assert(s.take(k + 1).drop_last() =~= s.take(k));
        lemma_args_none_extends(s, k + 1);
    } else {
        assert(s.take(k) =~= s);
    }
}

/// Prints the values of `line[1..]`, separated by spaces.
fn print_args(out: &mut Vec<char>, line: &[Node]) -> (ok: bool)
    requires
        line@.len() > 0,
    ensures
        ok == args_text(line@.subrange(1, line@.len() as int)) is Some,
        ok ==> final(out)@ == old(out)@ + args_text(line@.subrange(1, line@.len() as int)).unwrap(),
{
    let ghost args = line@.subrange(1, line@.len() as int);
    let mut j: usize = 1;
    let mut count: usize = 0;
    proof {
        assert(args.take(0).len() == 0);
    }
    while j < line.len()
        invariant
            1 <= j <= line@.len(),
            args == line@.subrange(1, line@.len() as int),
            args_items(args.take(j - 1)) is Some,
            count == args_items(args.take(j - 1)).unwrap().len(),
            count <= j - 1,
            line@.len() == line.len(),
            out@ == old(out)@ + join(args_items(args.take(j - 1)).unwrap()),
        decreases line@.len() - j,
    {
        let ghost prev = args.take(j - 1);
        let ghost items = args_items(prev).unwrap();
        proof {
            assert(args.take(j as int).drop_last() =~= prev);
            assert(args.take(j as int).last() == line@[j as int]);
        }
        if is_comma_node(&line[j]) {
            j = j + 1;
        } else {
            let ghost before = out@;
            if count > 0 {
                out.push(' ');
            }
            if !push_node(out, &line[j]) {
                proof {
                    lemma_args_none_extends(args, j as int);
                }
                return false;
            }
            proof {
                let t = node_text(line@[j as int]).unwrap();
                assert(items.push(t).drop_last() =~= items);
                assert(out@ =~= old(out)@ + join(items.push(t)));
            }
            count = count + 1;
            j = j + 1;
        }
    }
    proof {
        assert(args.take(j - 1) =~= args);
    }
    true
}

/// Runs a statement: prints the arguments of a `print` line, or gives the
/// value of a value line.
fn run_statement(out: &mut Vec<char>, node: &Node) -> (res: Option<Cell>)
    ensures
        res is Some == statement_text(*node) is Some,
        res matches Some(c) ==> final(out)@ == old(out)@ + statement_text(*node).unwrap()
            && cell_value(c) == statement_value(*node),
{
    match node {
        Node::Segment(seg) => {
            let line = seg.line();
            if seg.block().is_some() || line.len() == 0 {
                return None;
            }
            if is_print(&line[0]) {
                let printed = print_args(out, line.as_slice());
                if printed {
                    out.push('\n');
                    Some(Cell::unit())
                } else {
                    None
                }
            } else if line.len() == 1 {
                match &line[0] {
                    Node::Integer(v) => {
                        if *v <= u64::MAX as u128 {
                            proof {
                                assert(out@ =~= old(out)@ + Seq::<char>::empty());
                            }
                            Some(Cell::any_int(*v as u64))
                        } else {
                            None
                        }
                    },
                    Node::Literal(s) => {
                        proof {
                            assert(out@ =~= old(out)@ + Seq::<char>::empty());
                        }
                        Some(Cell::Other(s.clone()))
                    },
                    _ => None,
                }
            } else {
                None
            }
        },
        _ => None,
    }
}

/// Runs the statements, returning the text they print and the value of
/// the last one; a statement that is neither a `print` of values nor a
/// value is an error.
pub fn run(nodes: &[Node]) -> (res: Result<Output, Errors>)
    ensures
        res is Ok <==> program_text(nodes@) is Some,
        res matches Ok(o) ==> o.text() == program_text(nodes@).unwrap() && o.value() == program_value(
            nodes@,
        ),
        res matches Err(e) ==> e@.len() == 1 && e@[0].message == "unsupported statement"@,
{
    let mut out: Vec<char> = Vec::new();
    let mut value = Cell::unit();
    let mut i: usize = 0;
    proof {
        assert(nodes@.take(0).len() == 0);
    }
    while i < nodes.len()
        invariant
            0 <= i <= nodes@.len(),
            program_text(nodes@.take(i as int)) == Some(out@),
            cell_value(value) == program_value(nodes@.take(i as int)),
        decreases nodes@.len() - i,
    {
        proof {
            assert(nodes@.take(i + 1).drop_last() =~= nodes@.take(i as int));
            assert(nodes@.take(i + 1).last() == nodes@[i as int]);
        }
        let ghost before = out@;
        match run_statement(&mut out, &nodes[i]) {
            Some(c) => {
                value = c;
            },
            None => {
                proof {
                    lemma_program_none_extends(nodes@, i + 1);
                }
                return Err(Errors::from("unsupported statement"));
            },
        }
        proof {
            assert(out@ =~= before + statement_text(nodes@[i as int]).unwrap());
        }
        i = i + 1;
    }
    proof {
        assert(nodes@.take(nodes@.len() as int) =~= nodes@);
    }
    Ok(Output { result: value, output: chars_to_string(out.as_slice()) })
}

proof fn lemma_program_none_extends(s: Seq<Node>, k: int)
    requires
        0 <= k <= s.len(),
        program_text(s.take(k)) is None,
    ensures
        program_text(s) is None,
    decreases s.len() - k,
{
    if k < s.len() {
        assert(s.take(k + 1).drop_last() =~= s.take(k));
        lemma_program_none_extends(s, k + 1);
    } else {
        assert(s.take(k) =~= s);
    }
}

/// The matchers the evaluator scans with: comments, string literals and
/// numbers, in that order.
pub open spec fn eval_kinds() -> Seq<MatcherKind> {
    seq![MatcherKind::Comment, MatcherKind::Literal, MatcherKind::Integer]
}

/// Parsing failed: every error is one of parsing.
pub open spec fn parse_failure(e: Seq<ErrorView>) -> bool {
    &&& e.len() > 0
    &&& forall|k: int| 0 <= k < e.len() ==> parse_message(#[trigger] e[k].message)
}

/// Characters that start words in evaluated input.
pub open spec fn eval_word_chars() -> Set<char> {
    Set::<char>::empty() + "abcdefghijklmnopqrstuvwxyzABCDEFGHIJKLMNOPQRSTUVWXYZ_"@.to_set()
}

/// The action the evaluator's scanner registers for the bytes `w`: its
/// symbols, then digits that continue words, then letters and `_` that
/// start them.
pub open spec fn eval_lookup(w: Seq<u8>) -> Option<ScanActionView> {
    let wc = eval_word_chars();
    if w == "=".spec_bytes() {
        Some(ScanActionView::Symbol("="@, wc.contains("="@[0])))
    } else if w == "/".spec_bytes() {
        Some(ScanActionView::Symbol("/"@, wc.contains("/"@[0])))
    } else if w == "*".spec_bytes() {
        Some(ScanActionView::Symbol("*"@, wc.contains("*"@[0])))
    } else if w == "-".spec_bytes() {
        Some(ScanActionView::Symbol("-"@, wc.contains("-"@[0])))
    } else if w == "+".spec_bytes() {
        Some(ScanActionView::Symbol("+"@, wc.contains("+"@[0])))
    } else if w == "}".spec_bytes() {
        Some(ScanActionView::Symbol("}"@, wc.contains("}"@[0])))
    } else if w == "{".spec_bytes() {
        Some(ScanActionView::Symbol("{"@, wc.contains("{"@[0])))
    } else if w == "]".spec_bytes() {
        Some(ScanActionView::Symbol("]"@, wc.contains("]"@[0])))
    } else if w == "[".spec_bytes() {
        Some(ScanActionView::Symbol("["@, wc.contains("["@[0])))
    } else if w == ")".spec_bytes() {
        Some(ScanActionView::Symbol(")"@, wc.contains(")"@[0])))
    } else if w == "(".spec_bytes() {
        Some(ScanActionView::Symbol("("@, wc.contains("("@[0])))
    } else if w == ":".spec_bytes() {
        Some(ScanActionView::Symbol(":"@, wc.contains(":"@[0])))
    } else if w == ";".spec_bytes() {
        Some(ScanActionView::Symbol(";"@, wc.contains(";"@[0])))
    } else if w == ",".spec_bytes() {
        Some(ScanActionView::Symbol(","@, wc.contains(","@[0])))
    } else if is_char_key(w, "0123456789"@, "0123456789"@.len() as int) {
        Some(ScanActionView::WordNext)
    } else if is_char_key(w, "abcdefghijklmnopqrstuvwxyzABCDEFGHIJKLMNOPQRSTUVWXYZ_"@, "abcdefghijklmnopqrstuvwxyzABCDEFGHIJKLMNOPQRSTUVWXYZ_"@.len() as int) {
        Some(ScanActionView::Word)
    } else {
        None
    }
}

/// The scanner the evaluator uses: its actions and its matchers.
pub open spec fn eval_config(m: Matcher) -> bool {
    &&& m.wf()
    &&& m.matchers() == eval_kinds()
    &&& forall|w: Seq<u8>| #[trigger] m.lookup(w) == eval_lookup(w)
}

/// The closing bracket of each opening bracket the evaluator knows.
pub open spec fn eval_closing(s: Seq<char>) -> Option<Seq<char>> {
    if s == "{"@ {
        Some("}"@)
    } else if s == "["@ {
        Some("]"@)
    } else if s == "("@ {
        Some(")"@)
    } else {
        None
    }
}

/// The bracket pairs the evaluator parses with.
pub open spec fn eval_brackets(b: BracketPairs) -> bool {
    &&& b.wf()
    &&& forall|s: Seq<char>| #[trigger] b.closing(s) == eval_closing(s)
    &&& b.closers() == Set::<Seq<char>>::empty().insert(")"@).insert("]"@).insert("}"@)
}

/// The span over the whole evaluated input.
pub open spec fn eval_span(input: Seq<char>) -> SpanView {
    let src = SourceView { name: "eval"@, text: input };
    SpanView { source: src, offset: 0, length: src.bytes().len() as int, indent: 0, column: 0, line: 0 }
}

/// The evaluator scans `input` with `m` into the tokens `toks` at `sps`
/// without an error, and parses them with `b` into the segments `nodes`.
pub open spec fn eval_parses(
    m: Matcher,
    b: BracketPairs,
    input: Seq<char>,
    toks: Seq<TokenView>,
    sps: Seq<SpanView>,
    cs: Seq<SpanView>,
    c: SpanView,
    nodes: Seq<Node>,
) -> bool {
    &&& eval_config(m)
    &&& eval_brackets(b)
    &&& scan_stops(m, eval_span(input), toks, sps, cs, c, Seq::empty(), None)
    &&& block_items(b, toks, sps, 0, 0) == Some((views(nodes), toks.len() as int))
}

/// Scanning `input` with `m` stops on the errors `e`.
pub open spec fn eval_scan_fails(
    m: Matcher,
    input: Seq<char>,
    toks: Seq<TokenView>,
    sps: Seq<SpanView>,
    cs: Seq<SpanView>,
    c: SpanView,
    e: Seq<ErrorView>,
    r: Option<(TokenView, SpanView)>,
) -> bool {
    &&& eval_config(m)
    &&& e.len() > 0
    &&& scan_stops(m, eval_span(input), toks, sps, cs, c, e, r)
}

/// Scanning `input` with `m` succeeds, and parsing the tokens with `b`
/// fails: a group does not close, or tokens are left over.
pub open spec fn eval_parse_fails(
    m: Matcher,
    b: BracketPairs,
    input: Seq<char>,
    toks: Seq<TokenView>,
    sps: Seq<SpanView>,
    cs: Seq<SpanView>,
    c: SpanView,
) -> bool {
    &&& eval_config(m)
    &&& eval_brackets(b)
    &&& scan_stops(m, eval_span(input), toks, sps, cs, c, Seq::empty(), None)
    &&& !(block_items(b, toks, sps, 0, 0) matches Some((_, q)) && q == toks.len())
}

/// The evaluator's scanner.
fn eval_matcher() -> (m: Matcher)
    ensures
        eval_config(m),
{
    let mut m = Matcher::new();
    m.add_word_chars("abcdefghijklmnopqrstuvwxyzABCDEFGHIJKLMNOPQRSTUVWXYZ_");
    m.add_word_next_chars("0123456789");
    proof {
        reveal_strlit(",");
        reveal_strlit(";");
        reveal_strlit(":");
        reveal_strlit("(");
        reveal_strlit(")");
        reveal_strlit("[");
        reveal_strlit("]");
        reveal_strlit("{");
        reveal_strlit("}");
        reveal_strlit("+");
        reveal_strlit("-");
        reveal_strlit("*");
        reveal_strlit("/");
        reveal_strlit("=");
    }
    let ghost m0 = m;
    m.add_symbol(",");
    let ghost m1 = m;
    m.add_symbol(";");
    let ghost m2 = m;
    m.add_symbol(":");
    let ghost m3 = m;
    m.add_symbol("(");
    let ghost m4 = m;
    m.add_symbol(")");
    let ghost m5 = m;
    m.add_symbol("[");
    let ghost m6 = m;
    m.add_symbol("]");
    let ghost m7 = m;
    m.add_symbol("{");
    let ghost m8 = m;
    m.add_symbol("}");
    let ghost m9 = m;
    m.add_symbol("+");
    let ghost m10 = m;
    m.add_symbol("-");
    let ghost m11 = m;
    m.add_symbol("*");
    let ghost m12 = m;
    m.add_symbol("/");
    let ghost m13 = m;
    m.add_symbol("=");
    let ghost m14 = m;
    m.add_matcher(MatcherKind::Comment);
    m.add_matcher(MatcherKind::Literal);
    m.add_matcher(MatcherKind::Integer);
    proof {
        assert(m.matchers() =~= eval_kinds());
        assert forall|w: Seq<u8>| #[trigger] m.lookup(w) == eval_lookup(w) by {
            assert(m.lookup(w) == m14.lookup(w));
        }
    }
    m
}

/// The evaluator's bracket pairs.
fn eval_bracket_pairs() -> (b: BracketPairs)
    ensures
        eval_brackets(b),
{
    let mut b = BracketPairs::new();
    b.add("(", ")");
    b.add("[", "]");
    b.add("{", "}");
    proof {
        assert forall|s: Seq<char>| #[trigger] b.closing(s) == eval_closing(s) by {}
    }
    b
}

/// Evaluates `input`: scans it, parses it into segments and runs them.
/// Scanning and parsing errors, and statements that cannot be run, are
/// returned as errors. The output is the one the parsed segments print.
pub fn eval(input: &str) -> (res: Result<Output, Errors>)
    requires
        input.spec_bytes().len() <= MAX_SOURCE_LEN,
    ensures
        res matches Ok(o) ==> exists|
            m: Matcher,
            b: BracketPairs,
            toks: Seq<TokenView>,
            sps: Seq<SpanView>,
            cs: Seq<SpanView>,
            c: SpanView,
            nodes: Seq<Node>,
        |
            #[trigger] eval_parses(m, b, input@, toks, sps, cs, c, nodes) && program_text(nodes) == Some(
                o.text(),
            ) && program_value(nodes) == o.value(),
        res matches Err(e) ==> e@.len() > 0,
        res matches Err(e) ==> {
            ||| exists|
                m: Matcher,
                toks: Seq<TokenView>,
                sps: Seq<SpanView>,
                cs: Seq<SpanView>,
                c: SpanView,
                r: Option<(TokenView, SpanView)>,
            | #[trigger] eval_scan_fails(m, input@, toks, sps, cs, c, e@, r)
            ||| parse_failure(e@) && exists|
                m: Matcher,
                b: BracketPairs,
                toks: Seq<TokenView>,
                sps: Seq<SpanView>,
                cs: Seq<SpanView>,
                c: SpanView,
            | #[trigger] eval_parse_fails(m, b, input@, toks, sps, cs, c)
            ||| e@.len() == 1 && e@[0].message == "unsupported statement"@ && exists|
                m: Matcher,
                b: BracketPairs,
                toks: Seq<TokenView>,
                sps: Seq<SpanView>,
                cs: Seq<SpanView>,
                c: SpanView,
                nodes: Seq<Node>,
            | #[trigger] eval_parses(m, b, input@, toks, sps, cs, c, nodes) && program_text(nodes) is None
        },
{
    let source = Source::new("eval", input);
    let mut matcher = eval_matcher();
    let brackets = eval_bracket_pairs();
    let whole = source.span();
    proof {
        assert(whole@ == eval_span(input@));
    }
    let ghost m0 = matcher;
    let mut stream = match scan(&mut matcher, &whole) {
        Ok(stream) => stream,
        Err(errors) => {
            let ghost ev = errors@;
            let res: Result<Output, Errors> = Err(errors);
            proof {
                let w = choose|
                    toks: Seq<TokenView>,
                    sps: Seq<SpanView>,
                    cs: Seq<SpanView>,
                    c: SpanView,
                    r: Option<(TokenView, SpanView)>,
                | #[trigger] scan_stops(m0, whole@, toks, sps, cs, c, ev, r);
                assert(eval_scan_fails(m0, input@, w.0, w.1, w.2, w.3, ev, w.4));
                assert(res matches Err(e) && e@ == ev);
            }
            return res;
        },
    };
    let ghost s0 = stream;
    let ghost wt = choose|cs: Seq<SpanView>, c: SpanView|
        #[trigger] scan_stops(m0, whole@, s0.tokens(), s0.spans(), cs, c, Seq::empty(), None);
    let mut errors = Errors::new();
    let nodes = parse_segments(&brackets, &mut stream, &mut errors);
    if !errors.empty() {
        let ghost ev = errors@;
        let res: Result<Output, Errors> = Err(errors);
        proof {
            assert(eval_parse_fails(m0, brackets, input@, s0.tokens(), s0.spans(), wt.0, wt.1));
            assert(res matches Err(e) && e@ == ev);
        }
        return res;
    }
    proof {
        assert(eval_parses(m0, brackets, input@, s0.tokens(), s0.spans(), wt.0, wt.1, nodes@));
    }
    run(nodes.as_slice())
}

} // verus!
