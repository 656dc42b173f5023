//! Segment parsing: the token stream of a source is split into lines
//! (segments), indented blocks and bracket groups.

use vstd::prelude::*;

use crate::brackets::{bare_bracket, BracketPairs};
use crate::errors::{ErrorView, Errors};
use crate::matcher::{
    blank_between, continues_at, first_match, is_blank_byte, lemma_blank_join, matcher_error, rest_from,
    scan_post, token_start, Matcher, ScanActionView,
};
use crate::matchers::MatcherKind;
use crate::span::{Span, SpanView};
use crate::text::{chars_to_string, push_str};
use crate::token::{Token, TokenView};

verus! {

/// A node of the segment tree.
#[derive(Debug, PartialEq, Eq)]
pub enum Node {
    /// Placeholder for a missing node.
    Empty,
    Break,
    /// A comment with its text.
    Comment(String),
    Word(String),
    Symbol(String),
    Literal(String),
    Integer(u128),
    Float(String),
    Group(Group),
    Segment(Segment),
}

/// Nodes enclosed by an opening and a closing bracket.
#[derive(Debug, PartialEq, Eq)]
pub struct Group {
    sta: Box<Node>,
    content: Vec<Node>,
    end: Box<Node>,
}

/// A line of nodes, with the indented block that follows it.
#[derive(Debug, PartialEq, Eq)]
pub struct Segment {
    line: Vec<Node>,
    block: Option<Block>,
}

/// A sequence of segments at the same indentation.
#[derive(Debug, PartialEq, Eq)]
pub struct Block {
    items: Vec<Segment>,
}

impl Block {
    /// Segments of the block.
    pub closed spec fn segments(self) -> Seq<Segment> {
        self.items@
    }

    /// A block with the given segments.
    pub fn new(segments: Vec<Segment>) -> (b: Block)
        ensures
            b.segments() == segments@,
    {
        Block { items: segments }
    }
}

impl Segment {
    /// Nodes of the line.
    pub closed spec fn line_nodes(self) -> Seq<Node> {
        self.line@
    }

    /// Indented block under the line.
    pub closed spec fn sub_block(self) -> Option<Block> {
        self.block
    }

    /// A segment of one line without a block.
    pub fn new(line: Vec<Node>) -> (s: Segment)
        ensures
            s.line_nodes() == line@,
            s.sub_block() is None,
    {
        Segment { line, block: None }
    }

    /// A segment of one line with an indented block.
    pub fn new_with_block(line: Vec<Node>, block: Block) -> (s: Segment)
        ensures
            s.line_nodes() == line@,
            s.sub_block() == Some(block),
    {
        Segment { line, block: Some(block) }
    }

    /// Nodes of the line.
    pub fn line(&self) -> (line: &Vec<Node>)
        ensures
            line@ == self.line_nodes(),
    {
        &self.line
    }

    /// Indented block under the line.
    pub fn block(&self) -> (block: Option<&Block>)
        ensures
            match block {
                Some(b) => self.sub_block() == Some(*b),
                None => self.sub_block() is None,
            },
    {
        self.block.as_ref()
    }

    /// True for an empty line without a block.
    pub fn empty(&self) -> (b: bool)
        ensures
            b == (self.line_nodes().len() == 0 && self.sub_block() is None),
    {
        self.line.len() == 0 && self.block.is_none()
    }
}

impl Group {
    pub closed spec fn open_node(self) -> Node {
        *self.sta
    }

    pub closed spec fn close_node(self) -> Node {
        *self.end
    }

    pub closed spec fn content_nodes(self) -> Seq<Node> {
        self.content@
    }

    /// A group from its opening node, content and closing node.
    pub fn new(sta: Node, content: Vec<Node>, end: Node) -> (g: Group)
        ensures
            g.open_node() == sta,
            g.content_nodes() == content@,
            g.close_node() == end,
    {
        Group { sta: Box::new(sta), content, end: Box::new(end) }
    }
}

/// A node as a mathematical tree: a group holds its opening node, its
/// content and its closing node; a segment its line and, when it has
/// one, the segments of its block.
pub enum NodeView {
    Empty,
    Break,
    Comment(Seq<char>),
    Word(Seq<char>),
    Symbol(Seq<char>),
    Literal(Seq<char>),
    Integer(u128),
    Float(Seq<char>),
    Group(Box<NodeView>, Seq<NodeView>, Box<NodeView>),
    Segment(Seq<NodeView>, Option<Seq<NodeView>>),
}

/// The tree of a node.
pub closed spec fn node_view(n: Node) -> NodeView
    decreases n,
{
    match n {
        Node::Empty => NodeView::Empty,
        Node::Break => NodeView::Break,
        Node::Comment(s) => NodeView::Comment(s@),
        Node::Word(s) => NodeView::Word(s@),
        Node::Symbol(s) => NodeView::Symbol(s@),
        Node::Literal(s) => NodeView::Literal(s@),
        Node::Integer(a) => NodeView::Integer(a),
        Node::Float(s) => NodeView::Float(s@),
        Node::Group(g) => {
            proof {
                vstd::std_specs::vec::axiom_vec_decreases_to_view(g.content);
            }
            NodeView::Group(Box::new(node_view(*g.sta)), views(g.content@), Box::new(node_view(*g.end)))
        },
        Node::Segment(seg) => segment_view(seg),
    }
}

/// The tree of a segment.
pub closed spec fn segment_view(seg: Segment) -> NodeView
    decreases seg,
{
    proof {
        vstd::std_specs::vec::axiom_vec_decreases_to_view(seg.line);
    }
    NodeView::Segment(
        views(seg.line@),
        match seg.block {
            Some(bl) => {
                proof {
                    vstd::std_specs::vec::axiom_vec_decreases_to_view(bl.items);
                }
                Some(segment_views(bl.items@))
            },
            None => None,
        },
    )
}

/// The trees of a list of nodes.
pub closed spec fn views(s: Seq<Node>) -> Seq<NodeView>
    decreases s,
{
    if s.len() == 0 {
        Seq::empty()
    } else {
        proof {
            vstd::seq::axiom_seq_subrange_decreases(s, 0, s.len() - 1);
            vstd::seq::axiom_seq_index_decreases(s, s.len() - 1);
        }
        views(s.subrange(0, s.len() - 1)).push(node_view(s[s.len() - 1]))
    }
}

/// The trees of a list of segments.
pub closed spec fn segment_views(ss: Seq<Segment>) -> Seq<NodeView>
    decreases ss,
{
    if ss.len() == 0 {
        Seq::empty()
    } else {
        proof {
            vstd::seq::axiom_seq_subrange_decreases(ss, 0, ss.len() - 1);
            vstd::seq::axiom_seq_index_decreases(ss, ss.len() - 1);
        }
        segment_views(ss.subrange(0, ss.len() - 1)).push(segment_view(ss[ss.len() - 1]))
    }
}

/// How trees are built from nodes, groups, segments and lists.
pub proof fn lemma_views(s: Seq<Node>, n: Node, ss: Seq<Segment>, seg: Segment, g: Group)
    ensures
        views(s.push(n)) == views(s).push(node_view(n)),
        views(Seq::<Node>::empty()) == Seq::<NodeView>::empty(),
        segment_views(ss.push(seg)) == segment_views(ss).push(segment_view(seg)),
        segment_views(Seq::<Segment>::empty()) == Seq::<NodeView>::empty(),
        node_view(Node::Group(g)) == NodeView::Group(
            Box::new(node_view(g.open_node())),
            views(g.content_nodes()),
            Box::new(node_view(g.close_node())),
        ),
        node_view(Node::Segment(seg)) == segment_view(seg),
        segment_view(seg) == NodeView::Segment(
            views(seg.line_nodes()),
            match seg.sub_block() {
                Some(bl) => Some(segment_views(bl.segments())),
                None => None,
            },
        ),
{
    assert(s.push(n).subrange(0, s.len() as int) =~= s);
    assert(ss.push(seg).subrange(0, ss.len() as int) =~= ss);
}

proof fn lemma_segment_views_len(ss: Seq<Segment>)
    ensures
        segment_views(ss).len() == ss.len(),
    decreases ss.len(),
{
    if ss.len() > 0 {
        lemma_segment_views_len(ss.subrange(0, ss.len() - 1));
    }
}

proof fn lemma_views_len(s: Seq<Node>)
    ensures
        views(s).len() == s.len(),
    decreases s.len(),
{
    if s.len() > 0 {
        lemma_views_len(s.subrange(0, s.len() - 1));
    }
}

/// The tree of the node read from the token `t` at `sp`.
pub open spec fn tok_node(t: TokenView, sp: SpanView) -> NodeView {
    match t {
        TokenView::Break(_) => NodeView::Break,
        TokenView::Comment => NodeView::Comment(sp.chars()),
        TokenView::Word(w) => NodeView::Word(w),
        TokenView::Symbol(w) => NodeView::Symbol(w),
        TokenView::Literal(w) => NodeView::Literal(w),
        TokenView::Integer(b) => NodeView::Integer(b),
        TokenView::Float(w) => NodeView::Float(w),
    }
}

/// A node read from a token has the token's tree.
pub proof fn lemma_tok_node(n: Node, t: TokenView, sp: SpanView)
    requires
        node_matches(n, t, sp),
    ensures
        node_view(n) == tok_node(t, sp),
{
}

/// The nodes of a node with its groups and segments opened: the opening
/// node, the content and the closing node of each group, and the line and
/// the block of each segment, in order.
pub closed spec fn flat(n: Node) -> Seq<Node>
    decreases n,
{
    match n {
        Node::Group(g) => {
            proof {
                vstd::std_specs::vec::axiom_vec_decreases_to_view(g.content);
            }
            seq![*g.sta] + flat_seq(g.content@) + seq![*g.end]
        },
        Node::Segment(seg) => flat_segment(seg),
        _ => seq![n],
    }
}

/// The nodes of a segment: its line, then its block, opened.
pub closed spec fn flat_segment(seg: Segment) -> Seq<Node>
    decreases seg,
{
    proof {
        vstd::std_specs::vec::axiom_vec_decreases_to_view(seg.line);
    }
    flat_seq(seg.line@) + match seg.block {
        Some(b) => {
            proof {
                vstd::std_specs::vec::axiom_vec_decreases_to_view(b.items);
            }
            flat_segments(b.items@)
        },
        None => Seq::empty(),
    }
}

/// The nodes of a list of segments, opened.
pub closed spec fn flat_segments(ss: Seq<Segment>) -> Seq<Node>
    decreases ss,
{
    if ss.len() == 0 {
        Seq::empty()
    } else {
        proof {
            vstd::seq::axiom_seq_subrange_decreases(ss, 0, ss.len() - 1);
            vstd::seq::axiom_seq_index_decreases(ss, ss.len() - 1);
        }
        flat_segments(ss.subrange(0, ss.len() - 1)) + flat_segment(ss[ss.len() - 1])
    }
}

/// The nodes of a list with its groups opened.
pub closed spec fn flat_seq(s: Seq<Node>) -> Seq<Node>
    decreases s,
{
    if s.len() == 0 {
        Seq::empty()
    } else {
        proof {
            vstd::seq::axiom_seq_subrange_decreases(s, 0, s.len() - 1);
            vstd::seq::axiom_seq_index_decreases(s, s.len() - 1);
        }
        flat_seq(s.subrange(0, s.len() - 1)) + flat(s[s.len() - 1])
    }
}

/// A line holds no line break, comment or `;` outside its groups.
pub open spec fn line_ok(line: Seq<Node>) -> bool {
    forall|i: int|
        0 <= i < line.len() ==> !(#[trigger] line[i] is Break) && !(line[i] is Comment) && !(
        line[i] matches Node::Symbol(s) && s@ == ";"@)
}

/// Every group of a node is shaped by its brackets (see [`group_shape`])
/// and every line of it holds no line break, comment or `;` outside its
/// groups.
pub closed spec fn node_ok(b: BracketPairs, n: Node) -> bool
    decreases n,
{
    match n {
        Node::Group(g) => {
            proof {
                vstd::std_specs::vec::axiom_vec_decreases_to_view(g.content);
            }
            group_shape(b, g, true) && seq_ok(b, g.content@)
        },
        Node::Segment(seg) => segment_ok(b, seg),
        _ => true,
    }
}

/// [`node_ok`] for each node of a list.
pub closed spec fn seq_ok(b: BracketPairs, s: Seq<Node>) -> bool
    decreases s,
{
    if s.len() == 0 {
        true
    } else {
        proof {
            vstd::seq::axiom_seq_subrange_decreases(s, 0, s.len() - 1);
            vstd::seq::axiom_seq_index_decreases(s, s.len() - 1);
        }
        seq_ok(b, s.subrange(0, s.len() - 1)) && node_ok(b, s[s.len() - 1])
    }
}

/// [`node_ok`] for a segment: its line and its block.
pub closed spec fn segment_ok(b: BracketPairs, seg: Segment) -> bool
    decreases seg,
{
    proof {
        vstd::std_specs::vec::axiom_vec_decreases_to_view(seg.line);
    }
    line_ok(seg.line@) && seq_ok(b, seg.line@) && match seg.block {
        Some(bl) => {
            proof {
                vstd::std_specs::vec::axiom_vec_decreases_to_view(bl.items);
            }
            segments_ok(b, bl.items@)
        },
        None => true,
    }
}

/// [`segment_ok`] for each segment of a list.
pub closed spec fn segments_ok(b: BracketPairs, ss: Seq<Segment>) -> bool
    decreases ss,
{
    if ss.len() == 0 {
        true
    } else {
        proof {
            vstd::seq::axiom_seq_subrange_decreases(ss, 0, ss.len() - 1);
            vstd::seq::axiom_seq_index_decreases(ss, ss.len() - 1);
        }
        segments_ok(b, ss.subrange(0, ss.len() - 1)) && segment_ok(b, ss[ss.len() - 1])
    }
}

/// A node holds no bracket symbol left alone at any depth: it is no bare
/// bracket, and a group is opened by an opening bracket, closed by that
/// bracket's closing symbol, and holds grouped nodes.
pub closed spec fn grouped(b: BracketPairs, n: Node) -> bool
    decreases n,
{
    !bare_bracket(b, n) && match n {
        Node::Group(g) => {
            proof {
                vstd::std_specs::vec::axiom_vec_decreases_to_view(g.content);
            }
            &&& *g.sta matches Node::Symbol(o)
            &&& b.closing(o@) is Some
            &&& *g.end matches Node::Symbol(e)
            &&& Some(e@) == b.closing(o@)
            &&& grouped_seq(b, g.content@)
        },
        _ => true,
    }
}

/// [`grouped`] for each node of a list.
pub closed spec fn grouped_seq(b: BracketPairs, s: Seq<Node>) -> bool
    decreases s,
{
    if s.len() == 0 {
        true
    } else {
        proof {
            vstd::seq::axiom_seq_subrange_decreases(s, 0, s.len() - 1);
            vstd::seq::axiom_seq_index_decreases(s, s.len() - 1);
        }
        grouped_seq(b, s.subrange(0, s.len() - 1)) && grouped(b, s[s.len() - 1])
    }
}

/// What [`grouped`] asks of a node, and lists are grouped node by node.
pub proof fn lemma_grouped(b: BracketPairs, n: Node, s: Seq<Node>)
    ensures
        grouped(b, n) == (!bare_bracket(b, n) && match n {
            Node::Group(g) => {
                &&& g.open_node() matches Node::Symbol(o)
                &&& b.closing(o@) is Some
                &&& g.close_node() matches Node::Symbol(e)
                &&& Some(e@) == b.closing(o@)
                &&& grouped_seq(b, g.content_nodes())
            },
            _ => true,
        }),
        grouped_seq(b, s.push(n)) == (grouped_seq(b, s) && grouped(b, n)),
        grouped_seq(b, Seq::<Node>::empty()),
{
    assert(s.push(n).subrange(0, s.len() as int) =~= s);
}

/// A group is well shaped when it is shaped by its brackets and its
/// content is; a segment when its line and block are; other nodes always.
pub proof fn lemma_node_ok(b: BracketPairs, n: Node)
    ensures
        node_ok(b, n) == match n {
            Node::Group(g) => group_shape(b, g, true) && seq_ok(b, g.content_nodes()),
            Node::Segment(seg) => segment_ok(b, seg),
            _ => true,
        },
        n is Segment ==> (segment_ok(b, n->Segment_0) == (line_ok(n->Segment_0.line_nodes()) && seq_ok(
            b,
            n->Segment_0.line_nodes(),
        ) && match n->Segment_0.sub_block() {
            Some(bl) => segments_ok(b, bl.segments()),
            None => true,
        })),
{
}

/// Lists are well shaped node by node.
pub proof fn lemma_ok_push(b: BracketPairs, s: Seq<Node>, n: Node, ss: Seq<Segment>, seg: Segment)
    ensures
        seq_ok(b, s.push(n)) == (seq_ok(b, s) && node_ok(b, n)),
        seq_ok(b, Seq::<Node>::empty()),
        segments_ok(b, ss.push(seg)) == (segments_ok(b, ss) && segment_ok(b, seg)),
        segments_ok(b, Seq::<Segment>::empty()),
{
    assert(s.push(n).subrange(0, s.len() as int) =~= s);
    assert(ss.push(seg).subrange(0, ss.len() as int) =~= ss);
}

proof fn lemma_segments_ok_front(b: BracketPairs, ss: Seq<Segment>)
    requires
        ss.len() > 0,
    ensures
        segments_ok(b, ss) == (segment_ok(b, ss[0]) && segments_ok(b, ss.drop_first())),
    decreases ss.len(),
{
    let init = ss.subrange(0, ss.len() - 1);
    if ss.len() == 1 {
        assert(init =~= Seq::<Segment>::empty());
        assert(ss.drop_first() =~= Seq::<Segment>::empty());
    } else {
        lemma_segments_ok_front(b, init);
        let rest = ss.drop_first();
        assert(rest.subrange(0, rest.len() - 1) =~= init.drop_first());
        assert(rest[rest.len() - 1] == ss[ss.len() - 1]);
        assert(init[0] == ss[0]);
    }
}

/// Opening a group gives its opening node, its opened content and its
/// closing node; any other node stays as it is.
pub proof fn lemma_flat_node(n: Node)
    ensures
        flat(n) == match n {
            Node::Group(g) => seq![g.open_node()] + flat_seq(g.content_nodes()) + seq![
                g.close_node(),
            ],
            Node::Segment(seg) => flat_segment(seg),
            _ => seq![n],
        },
{
}

/// Opening a segment gives its line, then its block.
pub proof fn lemma_flat_segment(seg: Segment)
    ensures
        flat_segment(seg) == flat_seq(seg.line_nodes()) + match seg.sub_block() {
            Some(b) => flat_segments(b.segments()),
            None => Seq::<Node>::empty(),
        },
{
}

/// Opening a list of segments starts with its first segment.
pub proof fn lemma_flat_segments_front(ss: Seq<Segment>)
    requires
        ss.len() > 0,
    ensures
        flat_segments(ss) == flat_segment(ss[0]) + flat_segments(ss.drop_first()),
    decreases ss.len(),
{
    let init = ss.subrange(0, ss.len() - 1);
    if ss.len() == 1 {
        assert(init =~= Seq::<Segment>::empty());
        assert(ss.drop_first() =~= Seq::<Segment>::empty());
        assert(flat_segment(ss[0]) + Seq::<Node>::empty() =~= flat_segment(ss[0]));
    } else {
        lemma_flat_segments_front(init);
        let rest = ss.drop_first();
        assert(rest.subrange(0, rest.len() - 1) =~= init.drop_first());
        assert(rest[rest.len() - 1] == ss[ss.len() - 1]);
        assert(init[0] == ss[0]);
        assert(flat_segments(ss) =~= flat_segment(ss[0]) + flat_segments(rest));
    }
}

/// Nothing to open in empty lists.
pub proof fn lemma_flat_empty()
    ensures
        flat_seq(Seq::<Node>::empty()) == Seq::<Node>::empty(),
        flat_segments(Seq::<Segment>::empty()) == Seq::<Node>::empty(),
{
}

/// Opening a list of segments goes segment by segment.
pub proof fn lemma_flat_segments_push(ss: Seq<Segment>, seg: Segment)
    ensures
        flat_segments(ss.push(seg)) == flat_segments(ss) + flat_segment(seg),
        flat_segments(Seq::<Segment>::empty()) == Seq::<Node>::empty(),
{
    assert(ss.push(seg).subrange(0, ss.len() as int) =~= ss);
}

/// Opening the groups of a list goes node by node.
pub proof fn lemma_flat_seq_push(s: Seq<Node>, n: Node)
    ensures
        flat_seq(s.push(n)) == flat_seq(s) + flat(n),
        flat_seq(Seq::<Node>::empty()) == Seq::<Node>::empty(),
{
    assert(s.push(n).subrange(0, s.len() as int) =~= s);
}

/// Opening the groups of two lists one after the other.
pub proof fn lemma_flat_seq_concat(a: Seq<Node>, b: Seq<Node>)
    ensures
        flat_seq(a + b) == flat_seq(a) + flat_seq(b),
    decreases b.len(),
{
    if b.len() == 0 {
        assert(a + b =~= a);
        assert(flat_seq(b) == Seq::<Node>::empty());
        assert(flat_seq(a) + flat_seq(b) =~= flat_seq(a));
    } else {
        let b0 = b.subrange(0, b.len() - 1);
        lemma_flat_seq_concat(a, b0);
        assert(a + b =~= (a + b0).push(b.last()));
        assert(b =~= b0.push(b.last()));
        lemma_flat_seq_push(a + b0, b.last());
        lemma_flat_seq_push(b0, b.last());
    }
}

/// A scanned token with its span.
pub struct StreamItem {
    pub token: Token,
    pub span: Span,
}

/// Tokens of a source, read one at a time.
pub struct NodeStream {
    items: Vec<StreamItem>,
    pos: usize,
}

impl NodeStream {
    #[verifier::type_invariant]
    closed spec fn inv(self) -> bool {
        self.pos <= self.items@.len()
    }

    /// All tokens of the stream.
    pub closed spec fn tokens(self) -> Seq<TokenView> {
        self.items@.map_values(|it: StreamItem| it.token@)
    }

    /// Spans of all tokens of the stream.
    pub closed spec fn spans(self) -> Seq<SpanView> {
        self.items@.map_values(|it: StreamItem| it.span@)
    }

    /// Index of the next token.
    pub closed spec fn position(self) -> int {
        self.pos as int
    }

    /// Number of tokens not read yet.
    pub open spec fn remaining(self) -> int {
        self.tokens().len() - self.position()
    }

    /// The next token is `t`.
    pub open spec fn next_is(self, t: TokenView) -> bool {
        self.position() < self.tokens().len() && self.tokens()[self.position()] == t
    }

    /// The next token is a line break.
    pub open spec fn next_is_break(self) -> bool {
        self.position() < self.tokens().len() && self.tokens()[self.position()] is Break
    }

    /// A stream over `items`, at its start.
    pub fn new(items: Vec<StreamItem>) -> (s: NodeStream)
        ensures
            s.tokens() == items@.map_values(|it: StreamItem| it.token@),
            s.spans() == items@.map_values(|it: StreamItem| it.span@),
            s.position() == 0,
    {
        NodeStream { items, pos: 0 }
    }

    /// True when all tokens were read.
    pub fn at_end(&self) -> (b: bool)
        ensures
            0 <= self.position() <= self.tokens().len(),
            b == (self.remaining() == 0),
    {
        proof {
            use_type_invariant(self);
        }
        self.pos >= self.items.len()
    }

    /// Indentation of the line of the next token.
    pub fn peek_indent(&self) -> (res: Option<usize>)
        ensures
            0 <= self.position() <= self.tokens().len(),
            res is Some == (self.remaining() > 0),
            res matches Some(n) ==> n == self.spans()[self.position()].indent,
    {
        proof {
            use_type_invariant(self);
        }
        if self.pos < self.items.len() {
            Some(self.items[self.pos].span.indent())
        } else {
            None
        }
    }

    /// Indentation of the line of the token `n` places after the next one.
    pub fn lookahead_indent(&self, n: usize) -> (res: Option<usize>)
        ensures
            0 <= self.position() <= self.tokens().len(),
            res is Some == (self.position() + n < self.tokens().len()),
            res matches Some(i) ==> i == self.spans()[self.position() + n].indent,
    {
        proof {
            use_type_invariant(self);
        }
        if n < self.items.len() - self.pos {
            Some(self.items[self.pos + n].span.indent())
        } else {
            None
        }
    }

    /// True when the next token is a line break.
    pub fn peek_is_break(&self) -> (b: bool)
        ensures
            0 <= self.position() <= self.tokens().len(),
            b == self.next_is_break(),
    {
        proof {
            use_type_invariant(self);
        }
        self.pos < self.items.len() && self.items[self.pos].token.is_break()
    }

    /// True when the next token is a comment.
    pub fn peek_is_comment(&self) -> (b: bool)
        ensures
            0 <= self.position() <= self.tokens().len(),
            b == self.next_is(TokenView::Comment),
    {
        proof {
            use_type_invariant(self);
        }
        self.pos < self.items.len() && self.items[self.pos].token.is_comment()
    }

    /// True when the next token is the symbol `symbol`.
    pub fn peek_is_symbol(&self, symbol: &str) -> (b: bool)
        ensures
            0 <= self.position() <= self.tokens().len(),
            b == self.next_is(TokenView::Symbol(symbol@)),
    {
        proof {
            use_type_invariant(self);
        }
        self.pos < self.items.len() && self.items[self.pos].token.is_symbol(symbol)
    }

    /// Text of the next token, when it is a symbol.
    pub fn peek_symbol(&self) -> (res: Option<String>)
        ensures
            0 <= self.position() <= self.tokens().len(),
            match res {
                Some(s) => self.next_is(TokenView::Symbol(s@)),
                None => !(self.remaining() > 0 && self.tokens()[self.position()] is Symbol),
            },
    {
        proof {
            use_type_invariant(self);
        }
        if self.pos < self.items.len() {
            match self.items[self.pos].token.symbol() {
                Some(s) => Some(s.to_owned()),
                None => None,
            }
        } else {
            None
        }
    }

    /// Span of the next token; an empty span at the end of the stream.
    pub fn peek_span(&self) -> (span: Span)
        ensures
            0 <= self.position() <= self.tokens().len(),
            self.remaining() > 0 ==> span@ == self.spans()[self.position()],
    {
        proof {
            use_type_invariant(self);
        }
        if self.pos < self.items.len() {
            self.items[self.pos].span.duplicate()
        } else {
            Span::empty()
        }
    }

    /// Reads the next token as a node.
    pub fn read(&mut self) -> (node: Option<Node>)
        ensures
            0 <= final(self).position() <= final(self).tokens().len(),
            final(self).tokens() == old(self).tokens(),
            final(self).spans() == old(self).spans(),
            old(self).remaining() > 0 ==> final(self).position() == old(self).position() + 1
                && node is Some,
            old(self).remaining() > 0 ==> node_matches(
                node.unwrap(),
                old(self).tokens()[old(self).position()],
                old(self).spans()[old(self).position()],
            ),
            old(self).remaining() == 0 ==> final(self).position() == old(self).position()
                && node is None,
    {
        proof {
            use_type_invariant(&*self);
        }
        if self.pos < self.items.len() {
            let item = &self.items[self.pos];
            let node = token_node(&item.token, &item.span);
            self.pos = self.pos + 1;
            Some(node)
        } else {
            None
        }
    }

    /// Reads the next token when it is the symbol `symbol`.
    pub fn read_if_symbol(&mut self, symbol: &str) -> (ok: bool)
        ensures
            0 <= final(self).position() <= final(self).tokens().len(),
            final(self).tokens() == old(self).tokens(),
            final(self).spans() == old(self).spans(),
            ok == old(self).next_is(TokenView::Symbol(symbol@)),
            final(self).position() == old(self).position() + if ok {
                1int
            } else {
                0
            },
    {
        if self.peek_is_symbol(symbol) {
            self.read();
            true
        } else {
            false
        }
    }

    /// Reads the next token when it is a line break.
    pub fn read_if_break(&mut self) -> (ok: bool)
        ensures
            0 <= final(self).position() <= final(self).tokens().len(),
            final(self).tokens() == old(self).tokens(),
            final(self).spans() == old(self).spans(),
            ok == old(self).next_is_break(),
            final(self).position() == old(self).position() + if ok {
                1int
            } else {
                0
            },
    {
        if self.peek_is_break() {
            self.read();
            true
        } else {
            false
        }
    }

    /// Skips comments.
    pub fn skip_comments(&mut self)
        ensures
            0 <= final(self).position() <= final(self).tokens().len(),
            final(self).tokens() == old(self).tokens(),
            final(self).spans() == old(self).spans(),
            final(self).position() >= old(self).position(),
            !final(self).next_is(TokenView::Comment),
            forall|i: int|
                old(self).position() <= i < final(self).position() ==> #[trigger] old(self).tokens()[i] == TokenView::Comment,
    {
        let ghost start = self.position();
        while self.peek_is_comment()
            invariant
                self.tokens() == old(self).tokens(),
                self.spans() == old(self).spans(),
                self.position() >= start,
                start == old(self).position(),
                forall|i: int| start <= i < self.position() ==> #[trigger] self.tokens()[i]
                    == TokenView::Comment,
            decreases self.remaining(),
        {
            self.read();
        }
    }
}

/// `n` is the node read from token `t` with span `sp`: the token's text
/// or value, and for a comment the text of its span.
pub open spec fn node_matches(n: Node, t: TokenView, sp: SpanView) -> bool {
    match (n, t) {
        (Node::Break, TokenView::Break(_)) => true,
        (Node::Comment(s), TokenView::Comment) => s@ == sp.chars(),
        (Node::Word(s), TokenView::Word(w)) => s@ == w,
        (Node::Symbol(s), TokenView::Symbol(w)) => s@ == w,
        (Node::Literal(s), TokenView::Literal(w)) => s@ == w,
        (Node::Integer(a), TokenView::Integer(b)) => a == b,
        (Node::Float(s), TokenView::Float(w)) => s@ == w,
        _ => false,
    }
}

/// The nodes `ns` are those read from the tokens `a..b`.
pub open spec fn read_from(ns: Seq<Node>, tokens: Seq<TokenView>, spans: Seq<SpanView>, a: int, b: int) -> bool {
    &&& 0 <= a <= b <= tokens.len()
    &&& b <= spans.len()
    &&& ns.len() == b - a
    &&& forall|i: int| 0 <= i < ns.len() ==> node_matches(#[trigger] ns[i], tokens[a + i], spans[a + i])
}

proof fn lemma_read_from_concat(
    x: Seq<Node>,
    y: Seq<Node>,
    tokens: Seq<TokenView>,
    spans: Seq<SpanView>,
    a: int,
    b: int,
    c: int,
)
    requires
        read_from(x, tokens, spans, a, b),
        read_from(y, tokens, spans, b, c),
    ensures
        read_from(x + y, tokens, spans, a, c),
{
    let z = x + y;
    assert forall|i: int| 0 <= i < z.len() implies node_matches(#[trigger] z[i], tokens[a + i], spans[a + i]) by {
        if i < x.len() {
            assert(z[i] == x[i]);
        } else {
            assert(z[i] == y[i - x.len()]);
            assert(y[i - x.len()] == y[i - (b - a)]);
            assert(node_matches(y[i - (b - a)], tokens[b + (i - (b - a))], spans[b + (i - (b - a))]));
        }
    }
}

/// An opening bracket token.
pub open spec fn opener(b: BracketPairs, t: TokenView) -> bool {
    t matches TokenView::Symbol(s) && b.closing(s) is Some
}

/// After the opening bracket at `o`, the tokens end at `j`, or the token
/// at `j` is indented less than `level` or than the token at `i`.
pub open spec fn reason_at(
    b: BracketPairs,
    tokens: Seq<TokenView>,
    spans: Seq<SpanView>,
    a: int,
    e: int,
    level: int,
    o: int,
    i: int,
    j: int,
) -> bool {
    &&& a <= o < j
    &&& a <= i < j
    &&& j <= e
    &&& opener(b, tokens[o])
    &&& (j == tokens.len() || spans[j].indent < spans[i].indent || spans[j].indent < level)
}

/// Closing symbol of the opening bracket token `t`.
pub open spec fn closer_of(b: BracketPairs, t: TokenView) -> Seq<char> {
    match t {
        TokenView::Symbol(s) => b.closing(s).unwrap(),
        _ => Seq::empty(),
    }
}

/// Reads a group's content from token `p` up to its closing symbol
/// `close`, reading nested groups the same way at the indentation of their
/// opening bracket. Gives the position after the closing symbol, or `None`
/// when the tokens end first or a token is indented less than `level`.
pub open spec fn group_end(
    b: BracketPairs,
    toks: Seq<TokenView>,
    sps: Seq<SpanView>,
    p: int,
    close: Seq<char>,
    level: int,
) -> Option<int>
    decreases toks.len() - p,
{
    if p < 0 || p >= toks.len() {
        None
    } else if sps[p].indent < level {
        None
    } else if toks[p] == TokenView::Symbol(close) {
        Some(p + 1)
    } else if opener(b, toks[p]) {
        match group_end(b, toks, sps, p + 1, closer_of(b, toks[p]), sps[p].indent) {
            Some(q) => if p < q <= toks.len() {
                group_end(b, toks, sps, q, close, level)
            } else {
                None
            },
            None => None,
        }
    } else {
        group_end(b, toks, sps, p + 1, close, level)
    }
}

/// The tree of the group opened by the token at `p`, with the content
/// `c`, closed by the token before `q`.
pub open spec fn group_tree(toks: Seq<TokenView>, sps: Seq<SpanView>, p: int, c: Seq<NodeView>, q: int) -> NodeView {
    NodeView::Group(Box::new(tok_node(toks[p], sps[p])), c, Box::new(tok_node(toks[q - 1], sps[q - 1])))
}

/// `acc` in front of the trees that `r` gives, if it gives any.
pub open spec fn prepend_to(acc: Seq<NodeView>, r: Option<(Seq<NodeView>, int)>) -> Option<(Seq<NodeView>, int)> {
    match r {
        Some((rest, q)) => Some((acc + rest, q)),
        None => None,
    }
}

proof fn lemma_prepend(acc: Seq<NodeView>, x: NodeView, r: Option<(Seq<NodeView>, int)>, k: int)
    ensures
        prepend_to(acc, prepend_to(seq![x], r)) == prepend_to(acc.push(x), r),
        prepend_to(acc, Some((Seq::empty(), k))) == Some((acc, k)),
        prepend_to(acc, prepend_to(Seq::empty(), r)) == prepend_to(acc, r),
        prepend_to(Seq::empty(), r) == r,
{
    if let Some((rest, q)) = r {
        assert(Seq::<NodeView>::empty() + rest =~= rest);
    }
    if let Some((rest, q)) = r {
        assert(acc + (Seq::<NodeView>::empty() + rest) =~= acc + rest);
    }
    if let Some((rest, q)) = r {
        assert(acc + (seq![x] + rest) =~= acc.push(x) + rest);
    }
    assert(acc + Seq::<NodeView>::empty() =~= acc);
}

/// Reads a group's content from token `p` up to its closing symbol
/// `close`, as [`group_end`] does, giving the trees of the content and the
/// position after the closing symbol: nested groups become group trees and
/// every other token the node it reads as.
pub open spec fn group_items(
    b: BracketPairs,
    toks: Seq<TokenView>,
    sps: Seq<SpanView>,
    p: int,
    close: Seq<char>,
    level: int,
) -> Option<(Seq<NodeView>, int)>
    decreases toks.len() - p,
{
    if p < 0 || p >= toks.len() {
        None
    } else if sps[p].indent < level {
        None
    } else if toks[p] == TokenView::Symbol(close) {
        Some((Seq::empty(), p + 1))
    } else if opener(b, toks[p]) {
        match group_items(b, toks, sps, p + 1, closer_of(b, toks[p]), sps[p].indent) {
            Some((c, q)) => if p < q <= toks.len() {
                prepend_to(seq![group_tree(toks, sps, p, c, q)], group_items(b, toks, sps, q, close, level))
            } else {
                None
            },
            None => None,
        }
    } else {
        prepend_to(seq![tok_node(toks[p], sps[p])], group_items(b, toks, sps, p + 1, close, level))
    }
}

/// The segment trees of a block, if there is one.
pub open spec fn block_view(b: Option<Block>) -> Option<Seq<NodeView>> {
    match b {
        Some(bl) => Some(segment_views(bl.segments())),
        None => None,
    }
}

/// Position after the comments from `p` on.
pub open spec fn skip_comm(toks: Seq<TokenView>, p: int) -> int
    decreases toks.len() - p,
{
    if 0 <= p < toks.len() && toks[p] is Comment {
        skip_comm(toks, p + 1)
    } else {
        p
    }
}

proof fn lemma_skip_comm(toks: Seq<TokenView>, p: int, q: int)
    requires
        0 <= p <= q <= toks.len(),
        forall|i: int| p <= i < q ==> #[trigger] toks[i] == TokenView::Comment,
        !(q < toks.len() && toks[q] is Comment),
    ensures
        skip_comm(toks, p) == q,
    decreases q - p,
{
    if p < q {
        assert(toks[p] == TokenView::Comment);
        lemma_skip_comm(toks, p + 1, q);
    }
}

proof fn lemma_skip_comm_bounds(toks: Seq<TokenView>, p: int)
    requires
        0 <= p <= toks.len(),
    ensures
        p <= skip_comm(toks, p) <= toks.len(),
    decreases toks.len() - p,
{
    if p < toks.len() && toks[p] is Comment {
        lemma_skip_comm_bounds(toks, p + 1);
    }
}

/// `acc` in front of the line trees that `r` gives, if it gives any.
pub open spec fn prepend_line(
    acc: Seq<NodeView>,
    r: Option<(Seq<NodeView>, Option<Seq<NodeView>>, int)>,
) -> Option<(Seq<NodeView>, Option<Seq<NodeView>>, int)> {
    match r {
        Some((rest, blk, q)) => Some((acc + rest, blk, q)),
        None => None,
    }
}

proof fn lemma_prepend_line(
    acc: Seq<NodeView>,
    x: NodeView,
    r: Option<(Seq<NodeView>, Option<Seq<NodeView>>, int)>,
    blk: Option<Seq<NodeView>>,
    k: int,
)
    ensures
        prepend_line(acc, prepend_line(seq![x], r)) == prepend_line(acc.push(x), r),
        prepend_line(acc, Some((Seq::empty(), blk, k))) == Some((acc, blk, k)),
{
    if let Some((rest, b2, q)) = r {
        assert(acc + (seq![x] + rest) =~= acc.push(x) + rest);
    }
    assert(acc + Seq::<NodeView>::empty() =~= acc);
}

/// The position after a segment ending at `q`: past a `;`, the comments
/// after it and a line break.
pub open spec fn after_segment(toks: Seq<TokenView>, q: int) -> int {
    let a = if 0 <= q < toks.len() && toks[q] == TokenView::Symbol(";"@) {
        q + 1
    } else {
        q
    };
    let c = skip_comm(toks, a);
    if 0 <= c < toks.len() && toks[c] is Break {
        c + 1
    } else {
        c
    }
}

/// A segment tree with an empty line and no block.
pub open spec fn empty_segment(v: NodeView) -> bool {
    v matches NodeView::Segment(line, blk) && line.len() == 0 && blk is None
}

/// Reads the rest of a line at indentation `level` from token `p` (after
/// comments): nodes up to the end of the tokens, a `;` or a line break,
/// groups read as by [`group_items`] at `level`, comments after each node
/// passed over. A line break followed by a token indented deeper than
/// `level` is followed by the block of such lines. Gives the line's trees,
/// the block's segments if it has any, and the position after them;
/// `None` when a group does not close.
pub open spec fn line_items(
    b: BracketPairs,
    toks: Seq<TokenView>,
    sps: Seq<SpanView>,
    p: int,
    level: int,
) -> Option<(Seq<NodeView>, Option<Seq<NodeView>>, int)>
    decreases toks.len() - p, 0int,
{
    if p < 0 || p >= toks.len() {
        Some((Seq::empty(), None, p))
    } else if toks[p] == TokenView::Symbol(";"@) {
        Some((Seq::empty(), None, p))
    } else if toks[p] is Break {
        if p + 1 < toks.len() && sps[p + 1].indent > level {
            match block_items(b, toks, sps, p + 1, sps[p + 1].indent) {
                Some((segs, q)) => Some(
                    (
                        Seq::empty(),
                        if segs.len() > 0 {
                            Some(segs)
                        } else {
                            None
                        },
                        q,
                    ),
                ),
                None => None,
            }
        } else {
            Some((Seq::empty(), None, p))
        }
    } else if opener(b, toks[p]) {
        match group_items(b, toks, sps, p + 1, closer_of(b, toks[p]), level) {
            Some((c, q)) => {
                let q2 = skip_comm(toks, q);
                if p < q <= q2 <= toks.len() {
                    prepend_line(seq![group_tree(toks, sps, p, c, q)], line_items(b, toks, sps, q2, level))
                } else {
                    None
                }
            },
            None => None,
        }
    } else {
        let q2 = skip_comm(toks, p + 1);
        if p < q2 <= toks.len() {
            prepend_line(seq![tok_node(toks[p], sps[p])], line_items(b, toks, sps, q2, level))
        } else {
            None
        }
    }
}

/// Reads a segment at indentation `level` from token `p`: none at the end
/// of the tokens, at a line break or at a token indented less than
/// `level`; else the line after the comments, with its block. Gives the
/// segment's tree and the position after it; `None` when a group does not
/// close.
pub open spec fn segment_at(
    b: BracketPairs,
    toks: Seq<TokenView>,
    sps: Seq<SpanView>,
    p: int,
    level: int,
) -> Option<(Option<NodeView>, int)>
    decreases toks.len() - p, 1int,
{
    if p < 0 || p >= toks.len() || sps[p].indent < level || toks[p] is Break {
        Some((None, p))
    } else {
        let q = skip_comm(toks, p);
        if p <= q <= toks.len() {
            match line_items(b, toks, sps, q, level) {
                Some((line, blk, r)) => Some((Some(NodeView::Segment(line, blk)), r)),
                None => None,
            }
        } else {
            None
        }
    }
}

/// Reads the segments of a block at indentation `level` from token `p`,
/// passing over a `;`, comments and a line break after each, and leaving
/// out segments with an empty line and no block. Gives their trees and
/// the position after them; `None` when a group does not close.
pub open spec fn block_items(
    b: BracketPairs,
    toks: Seq<TokenView>,
    sps: Seq<SpanView>,
    p: int,
    level: int,
) -> Option<(Seq<NodeView>, int)>
    decreases toks.len() - p, 2int,
{
    match segment_at(b, toks, sps, p, level) {
        None => None,
        Some((None, q)) => Some((Seq::empty(), q)),
        Some((Some(seg), q)) => {
            let r = after_segment(toks, q);
            if p < r <= toks.len() {
                prepend_to(
                    if empty_segment(seg) {
                        Seq::empty()
                    } else {
                        seq![seg]
                    },
                    block_items(b, toks, sps, r, level),
                )
            } else {
                None
            }
        },
    }
}

/// A group opened by a bracket: no node of its content is its closing
/// bracket or an opening bracket left alone, and without errors it is
/// closed by its closing bracket.
pub open spec fn group_shape(b: BracketPairs, g: Group, closed: bool) -> bool {
    &&& g.open_node() matches Node::Symbol(o) && b.closing(o@) is Some
    &&& forall|k: int|
        0 <= k < g.content_nodes().len() ==> !(#[trigger] g.content_nodes()[k] matches Node::Symbol(
            t,
        ) && (b.closing(t@) is Some || Some(t@) == b.closing(open_text(g))))
    &&& closed ==> (g.close_node() matches Node::Symbol(t) && Some(t@) == b.closing(open_text(g)))
}

/// Text of the opening node of a group.
pub open spec fn open_text(g: Group) -> Seq<char> {
    match g.open_node() {
        Node::Symbol(o) => o@,
        _ => Seq::empty(),
    }
}

/// An error of parsing the tokens `a..e` at indentation `level` has a
/// cause: after an opening bracket, the tokens end, or a token is indented
/// less than the level or than an earlier token of the range.
pub open spec fn group_reason(
    b: BracketPairs,
    tokens: Seq<TokenView>,
    spans: Seq<SpanView>,
    a: int,
    e: int,
    level: int,
) -> bool {
    exists|o: int, i: int, j: int| #[trigger] reason_at(b, tokens, spans, a, e, level, o, i, j)
}

proof fn lemma_reason_widen(
    b: BracketPairs,
    tokens: Seq<TokenView>,
    spans: Seq<SpanView>,
    a: int,
    e: int,
    level: int,
    a2: int,
    e2: int,
    level2: int,
)
    requires
        group_reason(b, tokens, spans, a2, e2, level2),
        a <= a2,
        e2 <= e,
        level2 == level || level2 == spans[a2].indent,
    ensures
        group_reason(b, tokens, spans, a, e, level),
{
    let t = choose|o: int, i: int, j: int| #[trigger] reason_at(b, tokens, spans, a2, e2, level2, o, i, j);
    let o = t.0;
    let i = t.1;
    let j = t.2;
    assert(reason_at(b, tokens, spans, a2, e2, level2, o, i, j));
    if j == tokens.len() || spans[j].indent < spans[i].indent || level2 == level {
        assert(reason_at(b, tokens, spans, a, e, level, o, i, j));
    } else {
        assert(reason_at(b, tokens, spans, a, e, level, o, a2, j));
    }
}

/// A level the parser reads at within the tokens `a..e` read at `level`:
/// `level` itself, or the indentation of the token after a line break of
/// the range, where an indented block starts.
pub open spec fn read_level(toks: Seq<TokenView>, sps: Seq<SpanView>, a: int, e: int, level: int, lv: int) -> bool {
    lv == level || exists|q: int|
        a <= q < e && q + 1 < toks.len() && (#[trigger] toks[q]) is Break && lv == sps[q + 1].indent
}

/// The group opened at `o`, within tokens `a..e` read at `level`, does not
/// close when read at the level `lv`.
pub open spec fn failing_group(
    b: BracketPairs,
    toks: Seq<TokenView>,
    sps: Seq<SpanView>,
    a: int,
    e: int,
    level: int,
    o: int,
    lv: int,
) -> bool {
    &&& a <= o < e
    &&& opener(b, toks[o])
    &&& read_level(toks, sps, a, e, level, lv)
    &&& group_end(b, toks, sps, o + 1, closer_of(b, toks[o]), lv) is None
}

/// Some group opened within tokens `a..e` read at `level` does not close.
pub open spec fn group_fails(b: BracketPairs, toks: Seq<TokenView>, sps: Seq<SpanView>, a: int, e: int, level: int) -> bool {
    exists|o: int, lv: int| #[trigger] failing_group(b, toks, sps, a, e, level, o, lv)
}

proof fn lemma_fails_widen(
    b: BracketPairs,
    toks: Seq<TokenView>,
    sps: Seq<SpanView>,
    a: int,
    e: int,
    level: int,
    a2: int,
    e2: int,
    level2: int,
)
    requires
        group_fails(b, toks, sps, a2, e2, level2),
        a <= a2,
        e2 <= e,
        level2 == level || (a < a2 && a2 < toks.len() && toks[a2 - 1] is Break && level2 == sps[a2].indent),
    ensures
        group_fails(b, toks, sps, a, e, level),
{
    let t = choose|o: int, lv: int| #[trigger] failing_group(b, toks, sps, a2, e2, level2, o, lv);
    let o = t.0;
    let lv = t.1;
    assert(failing_group(b, toks, sps, a2, e2, level2, o, lv));
    if lv == level2 && level2 != level {
        let q = a2 - 1;
        assert(a <= q < e && q + 1 < toks.len() && toks[q] is Break && lv == sps[q + 1].indent);
    } else if lv != level2 {
        let q = choose|q: int|
            a2 <= q < e2 && q + 1 < toks.len() && (#[trigger] toks[q]) is Break && lv == sps[q + 1].indent;
        assert(a <= q < e && q + 1 < toks.len() && toks[q] is Break && lv == sps[q + 1].indent);
    }
    assert(read_level(toks, sps, a, e, level, lv));
    assert(failing_group(b, toks, sps, a, e, level, o, lv));
}

/// Tokens that parsing may leave out of the tree outside of groups:
/// comments, line breaks and `;`.
pub open spec fn droppable(t: TokenView) -> bool {
    t is Comment || t is Break || t == TokenView::Symbol(";"@)
}

/// The nodes `ns` are read, in order, from the tokens `a..b` at the
/// indexes `idx`; every other token of the range is droppable.
pub open spec fn picks(
    ns: Seq<Node>,
    idx: Seq<int>,
    tokens: Seq<TokenView>,
    spans: Seq<SpanView>,
    a: int,
    b: int,
) -> bool {
    &&& 0 <= a <= b <= tokens.len()
    &&& b <= spans.len()
    &&& idx.len() == ns.len()
    &&& forall|i: int| 0 <= i < idx.len() ==> a <= #[trigger] idx[i] < b
    &&& forall|i: int, j: int| 0 <= i < j < idx.len() ==> #[trigger] idx[i] < #[trigger] idx[j]
    &&& forall|i: int| 0 <= i < ns.len() ==> node_matches(#[trigger] ns[i], tokens[idx[i]], spans[idx[i]])
    &&& forall|j: int| a <= j < b && !idx.contains(j) ==> droppable(#[trigger] tokens[j])
}

proof fn lemma_picks_concat(
    x: Seq<Node>,
    ix: Seq<int>,
    y: Seq<Node>,
    iy: Seq<int>,
    tokens: Seq<TokenView>,
    spans: Seq<SpanView>,
    a: int,
    b: int,
    c: int,
)
    requires
        picks(x, ix, tokens, spans, a, b),
        picks(y, iy, tokens, spans, b, c),
    ensures
        picks(x + y, ix + iy, tokens, spans, a, c),
{
    let z = x + y;
    let iz = ix + iy;
    assert forall|i: int| 0 <= i < iz.len() implies a <= #[trigger] iz[i] < c by {
        if i < ix.len() {
            assert(iz[i] == ix[i]);
        } else {
            assert(iz[i] == iy[i - ix.len()]);
        }
    }
    assert forall|i: int, j: int| 0 <= i < j < iz.len() implies #[trigger] iz[i] < #[trigger] iz[j] by {
        if j < ix.len() {
            assert(iz[i] == ix[i] && iz[j] == ix[j]);
        } else if i >= ix.len() {
            assert(iz[i] == iy[i - ix.len()] && iz[j] == iy[j - ix.len()]);
        } else {
            assert(iz[i] == ix[i] && iz[j] == iy[j - ix.len()]);
        }
    }
    assert forall|i: int| 0 <= i < z.len() implies node_matches(#[trigger] z[i], tokens[iz[i]], spans[iz[i]]) by {
        if i < x.len() {
            assert(z[i] == x[i] && iz[i] == ix[i]);
        } else {
            assert(z[i] == y[i - x.len()] && iz[i] == iy[i - x.len()]);
        }
    }
    assert forall|j: int| a <= j < c && !iz.contains(j) implies droppable(#[trigger] tokens[j]) by {
        if j < b {
            if ix.contains(j) {
                let k = choose|k: int| 0 <= k < ix.len() && ix[k] == j;
                assert(iz[k] == j);
            }
        } else {
            if iy.contains(j) {
                let k = choose|k: int| 0 <= k < iy.len() && iy[k] == j;
                assert(iz[k + ix.len()] == j);
            }
        }
    }
}

proof fn lemma_picks_droppable(tokens: Seq<TokenView>, spans: Seq<SpanView>, a: int, b: int)
    requires
        0 <= a <= b <= tokens.len(),
        b <= spans.len(),
        forall|j: int| a <= j < b ==> droppable(#[trigger] tokens[j]),
    ensures
        picks(Seq::<Node>::empty(), Seq::<int>::empty(), tokens, spans, a, b),
{
}

proof fn lemma_picks_read(ns: Seq<Node>, tokens: Seq<TokenView>, spans: Seq<SpanView>, a: int, b: int)
    requires
        read_from(ns, tokens, spans, a, b),
    ensures
        picks(ns, Seq::new((b - a) as nat, |i: int| a + i), tokens, spans, a, b),
{
    let idx = Seq::new((b - a) as nat, |i: int| a + i);
    assert forall|j: int| a <= j < b && !idx.contains(j) implies droppable(#[trigger] tokens[j]) by {
        assert(idx[j - a] == j);
    }
}

/// The nodes of an optional block, opened.
pub open spec fn block_nodes(b: Option<Block>) -> Seq<Node> {
    match b {
        Some(b) => flat_segments(b.segments()),
        None => Seq::empty(),
    }
}

/// The node of a token: comments keep their text.
fn token_node(token: &Token, span: &Span) -> (node: Node)
    ensures
        node_matches(node, token@, span@),
{
    match token {
        Token::Break(..) => Node::Break,
        Token::Comment => Node::Comment(span.text().to_owned()),
        Token::Word(s) => Node::Word(s.clone()),
        Token::Symbol(s) => Node::Symbol(s.clone()),
        Token::Literal(s) => Node::Literal(s.clone()),
        Token::Integer(n) => Node::Integer(*n),
        Token::Float(s) => Node::Float(s.clone()),
    }
}

/// The stream did not change its tokens and only moved forward; errors
/// were only appended.
pub open spec fn parse_post(
    old_stream: NodeStream,
    new_stream: NodeStream,
    old_errors: Seq<ErrorView>,
    new_errors: Seq<ErrorView>,
) -> bool {
    &&& new_stream.tokens() == old_stream.tokens()
    &&& new_stream.spans() == old_stream.spans()
    &&& new_stream.position() >= old_stream.position()
    &&& new_stream.position() <= new_stream.tokens().len()
    &&& new_errors.len() >= old_errors.len()
    &&& new_errors.take(old_errors.len() as int) == old_errors
    &&& forall|k: int|
        old_errors.len() <= k < new_errors.len() ==> parse_message(#[trigger] new_errors[k].message)
}

/// Messages of parsing errors: a dedent inside a group, a group without its
/// closing bracket (which starts with a backtick), or input left over.
pub open spec fn parse_message(m: Seq<char>) -> bool {
    ||| m == "unexpected dedent"@
    ||| m == "unparsed suffix at end of input"@
    ||| (m.len() > 0 && m[0] == '`')
}

proof fn lemma_parse_post_trans(
    a: NodeStream,
    b: NodeStream,
    c: NodeStream,
    ea: Seq<ErrorView>,
    eb: Seq<ErrorView>,
    ec: Seq<ErrorView>,
)
    requires
        parse_post(a, b, ea, eb),
        parse_post(b, c, eb, ec),
    ensures
        parse_post(a, c, ea, ec),
{
    assert(ec.take(ea.len() as int) =~= eb.take(ea.len() as int));
    assert forall|k: int| ea.len() <= k < ec.len() implies parse_message(#[trigger] ec[k].message) by {
        if k < eb.len() {
            assert(ec[k] == ec.take(eb.len() as int)[k]);
        }
    }
}

impl Block {
    /// Parses segments at indentation `level` or deeper.
    fn parse(
        brackets: &BracketPairs,
        stream: &mut NodeStream,
        errors: &mut Errors,
        level: usize,
    ) -> (res: Option<Block>)
        requires
            brackets.wf(),
        ensures
            parse_post(*old(stream), *final(stream), old(errors)@, final(errors)@),
            res matches Some(bl) ==> (final(errors)@.len() == old(errors)@.len() ==> segments_ok(
                *brackets,
                bl.segments(),
            )),
            final(errors)@.len() == 0 ==> final(stream).remaining() == 0 || final(stream).next_is_break()
                || final(stream).spans()[final(stream).position()].indent < level,
            final(errors)@.len() > old(errors)@.len() ==> group_reason(
                *brackets,
                old(stream).tokens(),
                old(stream).spans(),
                old(stream).position(),
                final(stream).position(),
                level as int,
            ),
            final(errors)@.len() > old(errors)@.len() ==> group_fails(
                *brackets,
                old(stream).tokens(),
                old(stream).spans(),
                old(stream).position(),
                final(stream).position(),
                level as int,
            ),
            final(errors)@.len() == old(errors)@.len() ==> exists|idx: Seq<int>|
                #[trigger] picks(
                    block_nodes(res),
                    idx,
                    old(stream).tokens(),
                    old(stream).spans(),
                    old(stream).position(),
                    final(stream).position(),
                ),
            res matches Some(bl) ==> bl.segments().len() > 0,
            old(errors)@.len() == 0 ==> ({
                let bi = block_items(
                    *brackets,
                    old(stream).tokens(),
                    old(stream).spans(),
                    old(stream).position(),
                    level as int,
                );
                &&& (final(errors)@.len() == 0 <==> bi is Some)
                &&& bi is Some ==> bi == Some(
                    (
                        match res {
                            Some(bl) => segment_views(bl.segments()),
                            None => Seq::empty(),
                        },
                        final(stream).position(),
                    ),
                )
            }),
        decreases old(stream).remaining(), 2int,
    {
        let ghost s0 = *stream;
        let ghost e0 = errors@;
        let ghost toks = s0.tokens();
        let ghost sps = s0.spans();
        let ghost p0 = s0.position();
        proof {
            use_type_invariant(&*stream);
            assert(e0.take(e0.len() as int) =~= e0);
        }
        let mut items: Vec<Segment> = Vec::new();
        let ghost mut idx: Seq<int> = Seq::empty();
        proof {
            lemma_flat_empty();
            lemma_picks_droppable(toks, sps, p0, p0);
            lemma_ok_push(*brackets, Seq::<Node>::empty(), Node::Empty, items@, arbitrary());
            lemma_views(Seq::empty(), Node::Empty, Seq::empty(), arbitrary(), arbitrary());
            lemma_prepend(Seq::empty(), NodeView::Empty, block_items(*brackets, toks, sps, p0, level as int), 0);
        }
        loop
            invariant_except_break
                e0.len() == 0 ==> errors@.len() == 0,
            invariant
                brackets.wf(),
                e0.len() == 0 && errors@.len() == 0 ==> block_items(*brackets, toks, sps, p0, level as int)
                    == prepend_to(
                    segment_views(items@),
                    block_items(*brackets, toks, sps, stream.position(), level as int),
                ),
                e0.len() == 0 && errors@.len() > 0 ==> block_items(*brackets, toks, sps, p0, level as int) is None,
                s0 == *old(stream),
                e0 == old(errors)@,
                toks == s0.tokens(),
                sps == s0.spans(),
                p0 == s0.position(),
                parse_post(s0, *stream, e0, errors@),
                errors@.len() == e0.len() ==> segments_ok(*brackets, items@),
                errors@.len() > e0.len() ==> group_reason(
                    *brackets,
                    toks,
                    sps,
                    p0,
                    stream.position(),
                    level as int,
                ),
                errors@.len() > e0.len() ==> group_fails(
                    *brackets,
                    toks,
                    sps,
                    p0,
                    stream.position(),
                    level as int,
                ),
                errors@.len() == e0.len() ==> picks(
                    flat_segments(items@),
                    idx,
                    toks,
                    sps,
                    p0,
                    stream.position(),
                ),
            ensures
                errors@.len() == 0 ==> stream.remaining() == 0 || stream.next_is_break()
                    || sps[stream.position()].indent < level,
            decreases stream.remaining(),
        {
            let ghost before = *stream;
            let ghost eb = errors@;
            let ghost q = stream.position();
            let next = Segment::parse(brackets, stream, errors, level);
            let ghost mut gseg: Segment = arbitrary();
            let ghost items0 = items@;
            proof {
                lemma_parse_post_trans(s0, before, *stream, e0, eb, errors@);
                if eb.len() > e0.len() {
                    lemma_reason_widen(*brackets, toks, sps, p0, stream.position(), level as int, p0, q, level as int);
                    lemma_fails_widen(*brackets, toks, sps, p0, stream.position(), level as int, p0, q, level as int);
                } else if errors@.len() > e0.len() {
                    lemma_reason_widen(*brackets, toks, sps, p0, stream.position(), level as int, q, stream.position(), level as int);
                    lemma_fails_widen(*brackets, toks, sps, p0, stream.position(), level as int, q, stream.position(), level as int);
                }
            }
            match next {
                Some(segment) => {
                    let ghost old_items = items@;
                    proof {
                        gseg = segment;
                    }
                    proof {
                        if errors@.len() == e0.len() {
                            assert(eb.len() == e0.len());
                            let iseg = choose|iseg: Seq<int>|
                                #[trigger] picks(
                                    flat_segment(segment),
                                    iseg,
                                    toks,
                                    sps,
                                    q,
                                    stream.position(),
                                );
                            lemma_picks_concat(
                                flat_segments(old_items),
                                idx,
                                flat_segment(segment),
                                iseg,
                                toks,
                                sps,
                                p0,
                                q,
                                stream.position(),
                            );
                            lemma_flat_segments_push(old_items, segment);
                            lemma_flat_segment(segment);
                            idx = idx + iseg;
                        }
                    }
                    proof {
                        lemma_ok_push(*brackets, Seq::<Node>::empty(), Node::Empty, old_items, segment);
                    }
                    if !segment.empty() {
                        items.push(segment);
                    } else {
                        proof {
                            if errors@.len() == e0.len() {
                                lemma_flat_empty();
                                assert(flat_segments(old_items) + flat_segment(segment) =~= flat_segments(
                                    old_items,
                                ));
                            }
                        }
                    }
                },
                None => {
                    break ;
                },
            }
            let ghost r = stream.position();
            stream.read_if_symbol(";");
            let ghost a = stream.position();
            stream.skip_comments();
            let ghost c = stream.position();
            stream.read_if_break();
            proof {
                if e0.len() == 0 && errors@.len() == 0 {
                    lemma_skip_comm(toks, a, c);
                    assert(stream.position() == after_segment(toks, r));
                    lemma_views_len(gseg.line_nodes());
                    lemma_views(Seq::empty(), Node::Empty, items0, gseg, arbitrary());
                    lemma_prepend(
                        segment_views(items0),
                        segment_view(gseg),
                        block_items(*brackets, toks, sps, stream.position(), level as int),
                        0,
                    );
                }
            }
            proof {
                assert(stream.position() > before.position());
                assert(errors@.take(e0.len() as int) =~= e0);
                if errors@.len() > e0.len() {
                    lemma_reason_widen(*brackets, toks, sps, p0, stream.position(), level as int, p0, r, level as int);
                    lemma_fails_widen(*brackets, toks, sps, p0, stream.position(), level as int, p0, r, level as int);
                }
                if errors@.len() == e0.len() {
                    assert forall|j: int| r <= j < stream.position() implies droppable(#[trigger] toks[j]) by {
                    }
                    lemma_picks_droppable(toks, sps, r, stream.position());
                    lemma_picks_concat(
                        flat_segments(items@),
                        idx,
                        Seq::<Node>::empty(),
                        Seq::<int>::empty(),
                        toks,
                        sps,
                        p0,
                        r,
                        stream.position(),
                    );
                    assert(flat_segments(items@) + Seq::<Node>::empty() =~= flat_segments(items@));
                    assert(idx + Seq::<int>::empty() =~= idx);
                }
            }
            if !errors.empty() {
                break ;
            }
        }
        proof {
            lemma_prepend(segment_views(items@), NodeView::Empty, None, stream.position());
            lemma_views(Seq::empty(), Node::Empty, Seq::empty(), arbitrary(), arbitrary());
            if e0.len() == 0 && errors@.len() == 0 {
                let pos = stream.position();
                assert(segment_at(*brackets, toks, sps, pos, level as int) == Some((None::<NodeView>, pos)));
                assert(block_items(*brackets, toks, sps, pos, level as int) == Some((Seq::<NodeView>::empty(), pos)));
            }
        }
        if items.len() > 0 {
            let b = Block { items };
            proof {
                assert(block_nodes(Some(b)) == flat_segments(b.items@));
                if errors@.len() == e0.len() {
                    assert(picks(block_nodes(Some(b)), idx, toks, sps, p0, stream.position()));
                }
            }
            Some(b)
        } else {
            proof {
                assert(items@ =~= Seq::<Segment>::empty());
                lemma_flat_empty();
                if errors@.len() == e0.len() {
                    assert(picks(block_nodes(None), idx, toks, sps, p0, stream.position()));
                }
            }
            None
        }
    }
}

impl Segment {
    /// Parses one line at indentation `level`, with the block of deeper
    /// indented lines that follows it.
    fn parse(
        brackets: &BracketPairs,
        stream: &mut NodeStream,
        errors: &mut Errors,
        level: usize,
    ) -> (res: Option<Segment>)
        requires
            brackets.wf(),
        ensures
            parse_post(*old(stream), *final(stream), old(errors)@, final(errors)@),
            res is Some ==> final(stream).position() > old(stream).position() || (
            final(stream).position() == old(stream).position() && final(stream).next_is(
                TokenView::Symbol(";"@),
            )),
            res is None ==> *final(stream) == *old(stream) && final(errors)@ == old(errors)@,
            res is None <==> (old(stream).remaining() == 0 || old(stream).next_is_break() || old(
                stream,
            ).spans()[old(stream).position()].indent < level),
            final(errors)@.len() > old(errors)@.len() ==> group_reason(
                *brackets,
                old(stream).tokens(),
                old(stream).spans(),
                old(stream).position(),
                final(stream).position(),
                level as int,
            ),
            final(errors)@.len() > old(errors)@.len() ==> group_fails(
                *brackets,
                old(stream).tokens(),
                old(stream).spans(),
                old(stream).position(),
                final(stream).position(),
                level as int,
            ),
            res matches Some(seg) ==> (final(errors)@.len() == old(errors)@.len() ==> segment_ok(
                *brackets,
                seg,
            )),
            res matches Some(seg) ==> (final(errors)@.len() == old(errors)@.len() ==> exists|
                idx: Seq<int>,
            |
                #[trigger] picks(
                    flat_segment(seg),
                    idx,
                    old(stream).tokens(),
                    old(stream).spans(),
                    old(stream).position(),
                    final(stream).position(),
                )),
            old(errors)@.len() == 0 ==> ({
                let sp = segment_at(
                    *brackets,
                    old(stream).tokens(),
                    old(stream).spans(),
                    old(stream).position(),
                    level as int,
                );
                &&& (final(errors)@.len() == 0 <==> sp is Some)
                &&& sp is Some ==> sp == Some(
                    (
                        match res {
                            Some(seg) => Some(segment_view(seg)),
                            None => None,
                        },
                        final(stream).position(),
                    ),
                )
            }),
        decreases old(stream).remaining(), 1int,
    {
        let ghost s0 = *stream;
        let ghost e0 = errors@;
        let ghost toks = s0.tokens();
        let ghost sps = s0.spans();
        let ghost p0 = s0.position();
        proof {
            use_type_invariant(&*stream);
            assert(e0.take(e0.len() as int) =~= e0);
        }
        match stream.peek_indent() {
            Some(indent) => {
                if indent < level || stream.peek_is_break() {
                    return None;
                }
            },
            None => {
                return None;
            },
        }
        let mut block: Option<Block> = None;
        let mut line: Vec<Node> = Vec::new();
        stream.skip_comments();
        let ghost q0 = stream.position();
        let ghost mut idx: Seq<int> = Seq::empty();
        proof {
            lemma_skip_comm(toks, p0, q0);
            lemma_views(Seq::empty(), Node::Empty, Seq::empty(), arbitrary(), arbitrary());
            lemma_prepend_line(Seq::empty(), NodeView::Empty, None, None, 0);
            assert(Seq::<NodeView>::empty() + Seq::<NodeView>::empty() =~= Seq::<NodeView>::empty());
            lemma_picks_droppable(toks, sps, p0, stream.position());
            lemma_flat_seq_push(line@, Node::Empty);
            lemma_ok_push(*brackets, line@, Node::Empty, Seq::<Segment>::empty(), arbitrary());
        }
        loop
            invariant_except_break
                block is None,
                !stream.next_is(TokenView::Comment),
                e0.len() == 0 && errors@.len() == 0 ==> line_items(*brackets, toks, sps, q0, level as int)
                    == prepend_line(views(line@), line_items(*brackets, toks, sps, stream.position(), level as int)),
                e0.len() == 0 ==> errors@.len() == 0,
            invariant
                brackets.wf(),
                p0 <= q0 <= toks.len(),
                e0.len() == 0 && errors@.len() > 0 ==> line_items(*brackets, toks, sps, q0, level as int) is None,
                s0 == *old(stream),
                e0 == old(errors)@,
                toks == s0.tokens(),
                sps == s0.spans(),
                p0 == s0.position(),
                parse_post(s0, *stream, e0, errors@),
                s0.remaining() > 0,
                !s0.next_is_break(),
                stream.position() == s0.position() ==> !stream.next_is_break()
                    && stream.remaining() > 0,
                line_ok(line@),
                errors@.len() == e0.len() ==> seq_ok(*brackets, line@) && match block {
                    Some(bl) => segments_ok(*brackets, bl.segments()),
                    None => true,
                },
                errors@.len() > e0.len() ==> group_reason(
                    *brackets,
                    toks,
                    sps,
                    p0,
                    stream.position(),
                    level as int,
                ),
                errors@.len() > e0.len() ==> group_fails(
                    *brackets,
                    toks,
                    sps,
                    p0,
                    stream.position(),
                    level as int,
                ),
                errors@.len() == e0.len() ==> picks(
                    flat_seq(line@) + block_nodes(block),
                    idx,
                    toks,
                    sps,
                    p0,
                    stream.position(),
                ),
            ensures
                parse_post(s0, *stream, e0, errors@),
                stream.position() > s0.position() || (stream.position() == s0.position()
                    && stream.next_is(TokenView::Symbol(";"@))),
                e0.len() == 0 && errors@.len() == 0 ==> line_items(*brackets, toks, sps, q0, level as int) == Some(
                    (
                        views(line@),
                        match block {
                            Some(bl) => Some(segment_views(bl.segments())),
                            None => None,
                        },
                        stream.position(),
                    ),
                ),
                e0.len() == 0 && errors@.len() > 0 ==> line_items(*brackets, toks, sps, q0, level as int) is None,
                errors@.len() == e0.len() ==> picks(
                    flat_seq(line@) + block_nodes(block),
                    idx,
                    toks,
                    sps,
                    p0,
                    stream.position(),
                ),
            decreases stream.remaining(),
        {
            if stream.at_end() {
                proof {
                    lemma_prepend_line(views(line@), NodeView::Empty, None, None, stream.position());
                }
                break ;
            }
            if stream.peek_is_symbol(";") {
                proof {
                    lemma_prepend_line(views(line@), NodeView::Empty, None, None, stream.position());
                }
                break ;
            } else if stream.peek_is_break() {
                let ghost qb = stream.position();
                proof {
                    lemma_prepend_line(views(line@), NodeView::Empty, None, None, qb);
                }
                match stream.lookahead_indent(1) {
                    Some(next_level) => {
                        if next_level > level {
                            let ghost q = stream.position();
                            stream.read();
                            let ghost before = *stream;
                            let ghost eb = errors@;
                            proof {
                                assert(errors@.take(e0.len() as int) =~= e0);
                            }
                            block = Block::parse(brackets, stream, errors, next_level);
                            proof {
                                if e0.len() == 0 && errors@.len() == 0 {
                                    if block is Some {
                                        lemma_segment_views_len(block.unwrap().segments());
                                    }
                                    let bv = block_view(block);
                                    assert(line_items(*brackets, toks, sps, q, level as int) == Some(
                                        (Seq::<NodeView>::empty(), bv, stream.position()),
                                    ));
                                    lemma_prepend_line(views(line@), NodeView::Empty, None, bv, stream.position());
                                }
                            }
                            proof {
                                lemma_parse_post_trans(s0, before, *stream, e0, eb, errors@);
                                if eb.len() > e0.len() {
                                    lemma_reason_widen(*brackets, toks, sps, p0, stream.position(), level as int, p0, q, level as int);
                                    lemma_fails_widen(*brackets, toks, sps, p0, stream.position(), level as int, p0, q, level as int);
                                } else if errors@.len() > e0.len() {
                                    assert(sps[q + 1].indent == next_level);
                                    lemma_reason_widen(
                                        *brackets,
                                        toks,
                                        sps,
                                        p0,
                                        stream.position(),
                                        level as int,
                                        q + 1,
                                        stream.position(),
                                        next_level as int,
                                    );
                                    assert(toks[q] is Break);
                                    lemma_fails_widen(
                                        *brackets,
                                        toks,
                                        sps,
                                        p0,
                                        stream.position(),
                                        level as int,
                                        q + 1,
                                        stream.position(),
                                        next_level as int,
                                    );
                                }
                                if errors@.len() == e0.len() {
                                    assert(eb.len() == e0.len());
                                    let ib = choose|ib: Seq<int>|
                                        #[trigger] picks(
                                            block_nodes(block),
                                            ib,
                                            toks,
                                            sps,
                                            q + 1,
                                            stream.position(),
                                        );
                                    assert(flat_seq(line@) + block_nodes(None) =~= flat_seq(line@));
                                    lemma_picks_droppable(toks, sps, q, q + 1);
                                    lemma_picks_concat(
                                        flat_seq(line@),
                                        idx,
                                        Seq::<Node>::empty(),
                                        Seq::<int>::empty(),
                                        toks,
                                        sps,
                                        p0,
                                        q,
                                        q + 1,
                                    );
                                    assert(flat_seq(line@) + Seq::<Node>::empty() =~= flat_seq(line@));
                                    assert(idx + Seq::<int>::empty() =~= idx);
                                    lemma_picks_concat(
                                        flat_seq(line@),
                                        idx,
                                        block_nodes(block),
                                        ib,
                                        toks,
                                        sps,
                                        p0,
                                        q + 1,
                                        stream.position(),
                                    );
                                    idx = idx + ib;
                                }
                            }
                        }
                    },
                    None => {},
                }
                break ;
            } else {
                let ghost before = *stream;
                let ghost eb = errors@;
                let ghost q = stream.position();
                let ghost old_line = line@;
                proof {
                    assert(flat_seq(line@) + block_nodes(block) =~= flat_seq(line@));
                }
                match Group::parse(brackets, stream, errors, level) {
                    Some(group) => {
                        let ghost g = Node::Group(group);
                        proof {
                            if errors@.len() > eb.len() {
                                assert(read_level(toks, sps, q, stream.position(), level as int, level as int));
                                assert(failing_group(
                                    *brackets,
                                    toks,
                                    sps,
                                    q,
                                    stream.position(),
                                    level as int,
                                    q,
                                    level as int,
                                ));
                            }
                            lemma_ok_push(*brackets, old_line, g, Seq::<Segment>::empty(), arbitrary());
                            assert(line_ok(old_line.push(g)));
                            lemma_flat_seq_push(old_line, g);
                            if errors@.len() == e0.len() {
                                assert(eb.len() == e0.len());
                                lemma_picks_read(flat(g), toks, sps, q, stream.position());
                                let ig = Seq::new((stream.position() - q) as nat, |i: int| q + i);
                                lemma_picks_concat(
                                    flat_seq(old_line),
                                    idx,
                                    flat(g),
                                    ig,
                                    toks,
                                    sps,
                                    p0,
                                    q,
                                    stream.position(),
                                );
                                idx = idx + ig;
                            }
                        }
                        line.push(Node::Group(group));
                        proof {
                            if e0.len() == 0 && errors@.len() == 0 {
                                lemma_views(old_line, g, Seq::empty(), arbitrary(), group);
                                let qe = stream.position();
                                lemma_skip_comm_bounds(toks, qe);
                                lemma_prepend_line(
                                    views(old_line),
                                    node_view(g),
                                    line_items(*brackets, toks, sps, skip_comm(toks, qe), level as int),
                                    None,
                                    0,
                                );
                                assert(line_items(*brackets, toks, sps, q0, level as int) == prepend_line(
                                    views(line@),
                                    line_items(*brackets, toks, sps, skip_comm(toks, qe), level as int),
                                ));
                            }
                        }
                    },
                    None => {
                        match stream.read() {
                            Some(node) => {
                                proof {
                                    lemma_ok_push(*brackets, old_line, node, Seq::<Segment>::empty(), arbitrary());
                                    lemma_node_ok(*brackets, node);
                                    assert(line_ok(old_line.push(node)));
                                    lemma_flat_seq_push(old_line, node);
                                    lemma_flat_node(node);
                                    if errors@.len() == e0.len() {
                                        assert(read_from(seq![node], toks, sps, q, q + 1));
                                        lemma_picks_read(seq![node], toks, sps, q, q + 1);
                                        let ig = Seq::new(1, |i: int| q + i);
                                        lemma_picks_concat(
                                            flat_seq(old_line),
                                            idx,
                                            seq![node],
                                            ig,
                                            toks,
                                            sps,
                                            p0,
                                            q,
                                            q + 1,
                                        );
                                        idx = idx + ig;
                                    }
                                }
                                line.push(node);
                                proof {
                                    if e0.len() == 0 && errors@.len() == 0 {
                                        lemma_views(old_line, node, Seq::empty(), arbitrary(), arbitrary());
                                        lemma_tok_node(node, toks[q], sps[q]);
                                        lemma_skip_comm_bounds(toks, q + 1);
                                        lemma_prepend_line(
                                            views(old_line),
                                            node_view(node),
                                            line_items(*brackets, toks, sps, skip_comm(toks, q + 1), level as int),
                                            None,
                                            0,
                                        );
                                        assert(line_items(*brackets, toks, sps, q0, level as int) == prepend_line(
                                            views(line@),
                                            line_items(*brackets, toks, sps, skip_comm(toks, q + 1), level as int),
                                        ));
                                    }
                                }
                            },
                            None => {},
                        }
                    },
                }
                proof {
                    assert(errors@.take(eb.len() as int) =~= eb);
                    lemma_parse_post_trans(s0, before, *stream, e0, eb, errors@);
                    assert(flat_seq(line@) + block_nodes(block) =~= flat_seq(line@));
                    if eb.len() > e0.len() {
                        lemma_reason_widen(*brackets, toks, sps, p0, stream.position(), level as int, p0, q, level as int);
                        lemma_fails_widen(*brackets, toks, sps, p0, stream.position(), level as int, p0, q, level as int);
                    } else if errors@.len() > e0.len() {
                        lemma_reason_widen(*brackets, toks, sps, p0, stream.position(), level as int, q, stream.position(), level as int);
                        lemma_fails_widen(*brackets, toks, sps, p0, stream.position(), level as int, q, stream.position(), level as int);
                    }
                }
                assert(stream.position() > before.position());
            }
            if !errors.empty() {
                break ;
            }
            let ghost q = stream.position();
            stream.skip_comments();
            proof {
                lemma_skip_comm(toks, q, stream.position());
                if errors@.len() > e0.len() {
                    lemma_reason_widen(*brackets, toks, sps, p0, stream.position(), level as int, p0, q, level as int);
                    lemma_fails_widen(*brackets, toks, sps, p0, stream.position(), level as int, p0, q, level as int);
                }
                if errors@.len() == e0.len() {
                    lemma_picks_droppable(toks, sps, q, stream.position());
                    lemma_picks_concat(
                        flat_seq(line@) + block_nodes(block),
                        idx,
                        Seq::<Node>::empty(),
                        Seq::<int>::empty(),
                        toks,
                        sps,
                        p0,
                        q,
                        stream.position(),
                    );
                    assert(flat_seq(line@) + block_nodes(block) + Seq::<Node>::empty() =~= flat_seq(
                        line@,
                    ) + block_nodes(block));
                    assert(idx + Seq::<int>::empty() =~= idx);
                }
            }
        }
        let seg = Segment { line, block };
        proof {
            lemma_flat_segment(seg);
            lemma_node_ok(*brackets, Node::Segment(seg));
        }
        Some(seg)
    }
}

impl Group {
    /// Parses a bracket group when the next token is an opening bracket.
    /// Nodes of the group must be indented at least at `level`.
    fn parse(
        brackets: &BracketPairs,
        stream: &mut NodeStream,
        errors: &mut Errors,
        level: usize,
    ) -> (res: Option<Group>)
        requires
            brackets.wf(),
        ensures
            parse_post(*old(stream), *final(stream), old(errors)@, final(errors)@),
            res is Some ==> final(stream).position() > old(stream).position(),
            res is None ==> *final(stream) == *old(stream) && final(errors)@ == old(errors)@,
            res matches Some(g) ==> (final(errors)@.len() == old(errors)@.len() ==> read_from(
                flat(Node::Group(g)),
                old(stream).tokens(),
                old(stream).spans(),
                old(stream).position(),
                final(stream).position(),
            )),
            res is Some <==> exists|s: Seq<char>|
                old(stream).next_is(TokenView::Symbol(s)) && #[trigger] brackets.closing(s) is Some,
            res is Some && final(errors)@.len() > old(errors)@.len() ==> group_reason(
                *brackets,
                old(stream).tokens(),
                old(stream).spans(),
                old(stream).position(),
                final(stream).position(),
                level as int,
            ),
            res matches Some(g) ==> group_shape(*brackets, g, final(errors)@.len() == old(
                errors,
            )@.len()),
            res matches Some(g) ==> (final(errors)@.len() == old(errors)@.len() ==> node_ok(
                *brackets,
                Node::Group(g),
            )),
            res is Some ==> ({
                let end = group_end(
                    *brackets,
                    old(stream).tokens(),
                    old(stream).spans(),
                    old(stream).position() + 1,
                    closer_of(*brackets, old(stream).tokens()[old(stream).position()]),
                    level as int,
                );
                &&& final(errors)@.len() == old(errors)@.len() <==> end is Some
                &&& end is Some ==> end == Some(final(stream).position())
            }),
            res matches Some(g) ==> ({
                let items = group_items(
                    *brackets,
                    old(stream).tokens(),
                    old(stream).spans(),
                    old(stream).position() + 1,
                    closer_of(*brackets, old(stream).tokens()[old(stream).position()]),
                    level as int,
                );
                &&& final(errors)@.len() == old(errors)@.len() <==> items is Some
                &&& items is Some ==> items.unwrap().1 == final(stream).position() && node_view(Node::Group(g))
                    == group_tree(
                    old(stream).tokens(),
                    old(stream).spans(),
                    old(stream).position(),
                    items.unwrap().0,
                    final(stream).position(),
                )
            }),
        decreases old(stream).remaining(), 0int,
    {
        let ghost s0 = *stream;
        let ghost e0 = errors@;
        proof {
            use_type_invariant(&*stream);
            assert(e0.take(e0.len() as int) =~= e0);
        }
        let ghost mut opn: Seq<char> = Seq::empty();
        let end_symbol = match stream.peek_symbol() {
            Some(symbol) => match brackets.closing_bracket_for(symbol.as_str()) {
                Some(end) => {
                    proof {
                        opn = symbol@;
                    }
                    end
                },
                None => {
                    proof {
                        if exists|s: Seq<char>|
                            stream.next_is(TokenView::Symbol(s)) && #[trigger] brackets.closing(s) is Some {
                            let s = choose|s: Seq<char>|
                                stream.next_is(TokenView::Symbol(s)) && #[trigger] brackets.closing(s) is Some;
                            assert(s == symbol@);
                        }
                    }
                    return None;
                },
            },
            None => {
                return None;
            },
        };
        let sta_span = stream.peek_span();
        let sta = match stream.read() {
            Some(node) => node,
            None => Node::Empty,
        };
        let mut end: Option<Node> = None;
        let mut content: Vec<Node> = Vec::new();
        let ghost toks = s0.tokens();
        let ghost sps = s0.spans();
        let ghost p0 = s0.position();
        proof {
            lemma_flat_seq_push(content@, Node::Empty);
            lemma_ok_push(*brackets, content@, Node::Empty, Seq::<Segment>::empty(), arbitrary());
            assert(seq![sta] + flat_seq(content@) =~= seq![sta]);
            assert(toks[p0] == TokenView::Symbol(opn));
            assert(opener(*brackets, toks[p0]));
            assert(sta matches Node::Symbol(t) && t@ == opn);
        }
        loop
            invariant_except_break
                end is None,
                errors@.len() == e0.len() ==> group_end(*brackets, toks, sps, p0 + 1, end_symbol@, level as int)
                    == group_end(*brackets, toks, sps, stream.position(), end_symbol@, level as int),
                errors@.len() == e0.len() ==> group_items(*brackets, toks, sps, p0 + 1, end_symbol@, level as int)
                    == prepend_to(
                    views(content@),
                    group_items(*brackets, toks, sps, stream.position(), end_symbol@, level as int),
                ),
                errors@.len() == e0.len() ==> read_from(
                    seq![sta] + flat_seq(content@),
                    toks,
                    sps,
                    p0,
                    stream.position(),
                ),
            invariant
                brackets.wf(),
                s0 == *old(stream),
                e0 == old(errors)@,
                toks == s0.tokens(),
                sps == s0.spans(),
                p0 == s0.position(),
                parse_post(s0, *stream, e0, errors@),
                stream.position() > s0.position(),
                p0 < toks.len(),
                opener(*brackets, toks[p0]),
                toks[p0] == TokenView::Symbol(opn),
                brackets.closing(opn) == Some(end_symbol@),
                sta matches Node::Symbol(t) && t@ == opn,
                forall|k: int|
                    0 <= k < content@.len() ==> !(#[trigger] content@[k] matches Node::Symbol(t) && (
                    brackets.closing(t@) is Some || t@ == end_symbol@)),
                errors@.len() == e0.len() ==> seq_ok(*brackets, content@),
                errors@.len() > e0.len() ==> group_reason(
                    *brackets,
                    toks,
                    sps,
                    p0,
                    stream.position(),
                    level as int,
                ),
                errors@.len() > e0.len() ==> group_end(
                    *brackets,
                    toks,
                    sps,
                    p0 + 1,
                    end_symbol@,
                    level as int,
                ) is None,
                errors@.len() > e0.len() ==> group_items(
                    *brackets,
                    toks,
                    sps,
                    p0 + 1,
                    end_symbol@,
                    level as int,
                ) is None,
                node_matches(sta, toks[p0], sps[p0]),
            ensures
                end is None ==> group_items(*brackets, toks, sps, p0 + 1, end_symbol@, level as int) is None,
                end is Some && errors@.len() == e0.len() ==> group_items(
                    *brackets,
                    toks,
                    sps,
                    p0 + 1,
                    end_symbol@,
                    level as int,
                ) == Some((views(content@), stream.position())),
                end matches Some(e) ==> stream.position() >= 1 && node_matches(
                    e,
                    toks[stream.position() - 1],
                    sps[stream.position() - 1],
                ),
                errors@.len() > e0.len() ==> group_items(
                    *brackets,
                    toks,
                    sps,
                    p0 + 1,
                    end_symbol@,
                    level as int,
                ) is None,
                end is None ==> group_end(*brackets, toks, sps, p0 + 1, end_symbol@, level as int) is None,
                end is Some && errors@.len() == e0.len() ==> group_end(
                    *brackets,
                    toks,
                    sps,
                    p0 + 1,
                    end_symbol@,
                    level as int,
                ) == Some(stream.position()),
                errors@.len() > e0.len() ==> group_end(
                    *brackets,
                    toks,
                    sps,
                    p0 + 1,
                    end_symbol@,
                    level as int,
                ) is None,
                end is None ==> stream.remaining() == 0 || errors@.len() > e0.len(),
                end matches Some(e) ==> (e matches Node::Symbol(t) && t@ == end_symbol@),
                errors@.len() == e0.len() ==> match end {
                    Some(e) => read_from(
                        seq![sta] + flat_seq(content@) + seq![e],
                        toks,
                        sps,
                        p0,
                        stream.position(),
                    ),
                    None => read_from(seq![sta] + flat_seq(content@), toks, sps, p0, stream.position()),
                },
            decreases stream.remaining(),
        {
            let indent = match stream.peek_indent() {
                Some(indent) => indent,
                None => break ,
            };
            if indent < level {
                let span = stream.peek_span();
                errors.add("unexpected dedent", span);
                proof {
                    assert(errors@.take(e0.len() as int) =~= e0);
                    let pos = stream.position();
                    assert(reason_at(*brackets, toks, sps, p0, pos, level as int, p0, p0, pos));
                }
                break ;
            }
            if stream.peek_is_symbol(end_symbol.as_str()) {
                let ghost q = stream.position();
                end = stream.read();
                proof {
                    if errors@.len() > e0.len() {
                        lemma_reason_widen(*brackets, toks, sps, p0, stream.position(), level as int, p0, q, level as int);
                    }
                    if errors@.len() == e0.len() {
                        let e = end.unwrap();
                        assert(read_from(seq![e], toks, sps, q, q + 1));
                        lemma_read_from_concat(seq![sta] + flat_seq(content@), seq![e], toks, sps, p0, q, q + 1);
                    }
                    lemma_prepend(views(content@), NodeView::Empty, None, q + 1);
                }
                break ;
            }
            let ghost before = *stream;
            let ghost eb = errors@;
            let ghost old_content = content@;
            match Group::parse(brackets, stream, errors, indent) {
                Some(group) => {
                    let ghost g = Node::Group(group);
                    proof {
                        lemma_ok_push(*brackets, old_content, g, Seq::<Segment>::empty(), arbitrary());
                        lemma_flat_seq_push(old_content, g);
                        if errors@.len() == e0.len() {
                            assert(eb.len() == e0.len());
                            lemma_read_from_concat(
                                seq![sta] + flat_seq(old_content),
                                flat(g),
                                toks,
                                sps,
                                p0,
                                before.position(),
                                stream.position(),
                            );
                            assert(seq![sta] + flat_seq(old_content.push(g)) =~= (seq![sta]
                                + flat_seq(old_content)) + flat(g));
                        }
                    }
                    proof {
                        lemma_views(old_content, g, Seq::empty(), arbitrary(), group);
                        lemma_prepend(
                            views(old_content),
                            node_view(g),
                            group_items(*brackets, toks, sps, stream.position(), end_symbol@, level as int),
                            0,
                        );
                    }
                    content.push(Node::Group(group));
                },
                None => {
                    match stream.read() {
                        Some(node) => {
                            proof {
                                lemma_ok_push(*brackets, old_content, node, Seq::<Segment>::empty(), arbitrary());
                                lemma_node_ok(*brackets, node);
                                lemma_flat_seq_push(old_content, node);
                                lemma_flat_node(node);
                                if errors@.len() == e0.len() {
                                    let q = before.position();
                                    assert(read_from(seq![node], toks, sps, q, q + 1));
                                    lemma_read_from_concat(
                                        seq![sta] + flat_seq(old_content),
                                        seq![node],
                                        toks,
                                        sps,
                                        p0,
                                        q,
                                        q + 1,
                                    );
                                    assert(seq![sta] + flat_seq(old_content.push(node)) =~= (seq![
                                        sta,
                                    ] + flat_seq(old_content)) + seq![node]);
                                }
                            }
                            proof {
                                lemma_views(old_content, node, Seq::empty(), arbitrary(), arbitrary());
                                lemma_tok_node(node, toks[before.position()], sps[before.position()]);
                                lemma_prepend(
                                    views(old_content),
                                    node_view(node),
                                    group_items(*brackets, toks, sps, stream.position(), end_symbol@, level as int),
                                    0,
                                );
                            }
                            content.push(node);
                        },
                        None => {},
                    }
                },
            }
            proof {
                assert(errors@.take(eb.len() as int) =~= eb);
                lemma_parse_post_trans(s0, before, *stream, e0, eb, errors@);
                if eb.len() > e0.len() {
                    lemma_reason_widen(
                        *brackets,
                        toks,
                        sps,
                        p0,
                        stream.position(),
                        level as int,
                        p0,
                        before.position(),
                        level as int,
                    );
                } else if errors@.len() > e0.len() {
                    assert(sps[before.position()].indent == indent);
                    lemma_reason_widen(
                        *brackets,
                        toks,
                        sps,
                        p0,
                        stream.position(),
                        level as int,
                        before.position(),
                        stream.position(),
                        indent as int,
                    );
                }
            }
            assert(stream.position() > before.position());
        }
        let end = match end {
            Some(end) => end,
            None => {
                let message = missing_end_message(&sta, &sta_span, end_symbol.as_str());
                let span = stream.peek_span();
                let ghost eb = errors@;
                errors.add(message.as_str(), span);
                proof {
                    assert(errors@.take(e0.len() as int) =~= e0);
                    if eb.len() == e0.len() {
                        let pos = stream.position();
                        assert(pos == toks.len());
                        assert(reason_at(*brackets, toks, sps, p0, pos, level as int, p0, p0, pos));
                    }
                }
                Node::Empty
            },
        };
        let group = Group { sta: Box::new(sta), content, end: Box::new(end) };
        proof {
            lemma_flat_node(Node::Group(group));
            lemma_node_ok(*brackets, Node::Group(group));
            lemma_views(Seq::empty(), Node::Empty, Seq::empty(), arbitrary(), group);
            lemma_tok_node(sta, toks[p0], sps[p0]);
            if errors@.len() == e0.len() {
                lemma_tok_node(end, toks[stream.position() - 1], sps[stream.position() - 1]);
            }
        }
        Some(group)
    }
}

/// Text of a symbol node, empty for other nodes.
pub open spec fn symbol_text(n: Node) -> Seq<char> {
    match n {
        Node::Symbol(s) => s@,
        _ => Seq::empty(),
    }
}

/// Message for a group whose closing bracket is missing: the opening
/// symbol, its location when its source has a name, and the expected
/// closing symbol.
pub open spec fn missing_end_text(sta: Node, sta_span: SpanView, end: Seq<char>) -> Seq<char> {
    seq!['`'] + symbol_text(sta) + seq!['`'] + (if sta_span.source.name.len() > 0 {
        " from "@ + crate::span::location_text(sta_span)
    } else {
        Seq::empty()
    }) + " expected `"@ + end + seq!['`']
}

/// "`sta` from location expected `end`", the location given when the
/// opening bracket has one.
fn missing_end_message(sta: &Node, sta_span: &Span, end: &str) -> (s: String)
    ensures
        s@ == missing_end_text(*sta, sta_span@, end@),
{
    let mut out: Vec<char> = Vec::new();
    out.push('`');
    match sta {
        Node::Symbol(s) => push_str(&mut out, s.as_str()),
        _ => {},
    }
    out.push('`');
    match sta_span.location() {
        Some(loc) => {
            push_str(&mut out, " from ");
            push_str(&mut out, loc.as_str());
        },
        None => {},
    }
    push_str(&mut out, " expected `");
    push_str(&mut out, end);
    out.push('`');
    assert(out@ =~= missing_end_text(*sta, sta_span@, end@));
    chars_to_string(out.as_slice())
}

/// Parses the whole stream into top level segments, as [`block_items`]
/// reads them at indentation 0. Input left over after the segments is
/// reported as an error. Every other error comes
/// from a bracket group that does not close: its tokens end, or a token is
/// indented less than the level the group is read at.
pub fn parse_segments(brackets: &BracketPairs, stream: &mut NodeStream, errors: &mut Errors) -> (nodes: Vec<Node>)
    requires
        brackets.wf(),
    ensures
        parse_post(*old(stream), *final(stream), old(errors)@, final(errors)@),
        final(errors)@.len() == 0 ==> final(stream).remaining() == 0,
        final(errors)@.len() > old(errors)@.len() ==> group_reason(
            *brackets,
            old(stream).tokens(),
            old(stream).spans(),
            old(stream).position(),
            final(stream).position(),
            0,
        ) || final(stream).next_is_break(),
        final(errors)@.len() > old(errors)@.len() ==> group_fails(
            *brackets,
            old(stream).tokens(),
            old(stream).spans(),
            old(stream).position(),
            final(stream).position(),
            0,
        ) || final(stream).next_is_break(),
        final(errors)@.len() > old(errors)@.len() ==> group_fails(
            *brackets,
            old(stream).tokens(),
            old(stream).spans(),
            old(stream).position(),
            old(stream).tokens().len() as int,
            0,
        ) || final(stream).next_is_break(),
        final(errors)@.len() == old(errors)@.len() ==> seq_ok(*brackets, nodes@),
        forall|i: int| 0 <= i < nodes@.len() ==> (#[trigger] nodes@[i]) is Segment,
        old(errors)@.len() == 0 ==> ({
            let bi = block_items(*brackets, old(stream).tokens(), old(stream).spans(), old(stream).position(), 0);
            &&& (final(errors)@.len() == 0 <==> (bi matches Some((_, q)) && q == old(stream).tokens().len()))
            &&& final(errors)@.len() == 0 ==> bi == Some((views(nodes@), final(stream).position()))
        }),
        final(errors)@.len() == old(errors)@.len() ==> exists|idx: Seq<int>|
            #[trigger] picks(
                flat_seq(nodes@),
                idx,
                old(stream).tokens(),
                old(stream).spans(),
                old(stream).position(),
                final(stream).position(),
            ),
{
    let ghost e0 = errors@;
    let ghost s_start = *stream;
    proof {
        use_type_invariant(&*stream);
        assert(e0.take(e0.len() as int) =~= e0);
    }
    let block = Block::parse(brackets, stream, errors, 0);
    let ghost all = block_nodes(block);
    let mut result: Vec<Node> = Vec::new();
    proof {
        lemma_flat_empty();
    }
    match block {
        Some(block) => {
            let ghost orig = block.segments();
            let mut items = block.items;
            proof {
                assert(orig.skip(0) =~= orig);
                assert(orig.take(0) =~= Seq::<Segment>::empty());
                lemma_views(Seq::empty(), Node::Empty, Seq::empty(), arbitrary(), arbitrary());
                assert(flat_seq(result@) + flat_segments(items@) =~= all);
                lemma_ok_push(*brackets, result@, Node::Empty, items@, arbitrary());
            }
            while items.len() > 0
                invariant
                    flat_seq(result@) + flat_segments(items@) == all,
                    0 <= orig.len() - items@.len() <= orig.len(),
                    items@ == orig.skip(orig.len() - items@.len()),
                    views(result@) == segment_views(orig.take(orig.len() - items@.len())),
                    forall|i: int| 0 <= i < result@.len() ==> (#[trigger] result@[i]) is Segment,
                    segments_ok(*brackets, orig) ==> seq_ok(*brackets, result@) && segments_ok(
                        *brackets,
                        items@,
                    ),
                decreases items.len(),
            {
                let ghost before = items@;
                let segment = items.remove(0);
                proof {
                    lemma_segments_ok_front(*brackets, before);
                    lemma_ok_push(*brackets, result@, Node::Segment(segment), items@, arbitrary());
                    lemma_node_ok(*brackets, Node::Segment(segment));
                    lemma_flat_segments_front(before);
                    assert(items@ =~= before.drop_first());
                    lemma_flat_seq_push(result@, Node::Segment(segment));
                    lemma_flat_node(Node::Segment(segment));
                }
                let ghost old_result = result@;
                let ghost k = orig.len() - before.len();
                result.push(Node::Segment(segment));
                proof {
                    assert(flat_seq(result@) + flat_segments(items@) =~= all);
                    assert(before[0] == orig[k]);
                    assert(items@ =~= orig.skip(k + 1));
                    assert(orig.take(k + 1) =~= orig.take(k).push(segment));
                    lemma_views(old_result, Node::Segment(segment), orig.take(k), segment, arbitrary());
                }
            }
            proof {
                assert(flat_seq(result@) + Seq::<Node>::empty() =~= flat_seq(result@));
                assert(orig.take(orig.len() as int) =~= orig);
            }
        },
        None => {
            proof {
                assert(flat_seq(result@) =~= all);
                lemma_views(Seq::empty(), Node::Empty, Seq::empty(), arbitrary(), arbitrary());
            }
        },
    }
    proof {
        if errors@.len() > e0.len() && group_fails(
            *brackets,
            stream.tokens(),
            stream.spans(),
            s_start.position(),
            stream.position(),
            0int,
        ) {
            lemma_fails_widen(
                *brackets,
                stream.tokens(),
                stream.spans(),
                s_start.position(),
                stream.tokens().len() as int,
                0int,
                s_start.position(),
                stream.position(),
                0int,
            );
        }
    }
    if errors.empty() && !stream.at_end() {
        let span = stream.peek_span();
        proof {
            use_type_invariant(&span);
        }
        errors.add("unparsed suffix at end of input", span);
        proof {
            assert(errors@.take(e0.len() as int) =~= e0);
        }
    }
    result
}

/// Spans of a token list: in the source of `input`, within it, in order
/// and without overlap.
pub open spec fn spans_in_order(spans: Seq<SpanView>, input: SpanView) -> bool {
    &&& forall|i: int| 0 <= i < spans.len() ==> (#[trigger] spans[i]).source == input.source
    &&& forall|i: int| 0 <= i < spans.len() ==> input.offset <= (#[trigger] spans[i]).offset
    &&& forall|i: int| 0 <= i < spans.len() ==> (#[trigger] spans[i]).end() <= input.end()
    &&& forall|i: int| 0 <= i < spans.len() ==> (#[trigger] spans[i]).length > 0
    &&& forall|i: int| 0 <= i < spans.len() - 1 ==> (#[trigger] spans[i]).end() <= spans[i + 1].offset
}

/// A token holds the text of its span: words and symbols their text, line
/// breaks a line feed, a carriage return or both.
pub open spec fn token_fits(t: TokenView, sp: SpanView) -> bool {
    match t {
        TokenView::Word(w) => w == sp.chars(),
        TokenView::Symbol(w) => w == sp.chars(),
        TokenView::Break(_) => crate::matcher::is_line_break(sp.data()),
        _ => true,
    }
}

/// A token read by one of the matchers `kinds` is the one the first of
/// them that applies at the start of its span gives, for as many
/// characters as the span holds.
pub open spec fn matched_token(kinds: Seq<MatcherKind>, t: TokenView, sp: SpanView, end: int) -> bool {
    t is Word || t is Symbol || t is Break || first_match(
        kinds,
        rest_from(sp, end).chars(),
        t,
        sp.chars().len() as int,
    )
}

/// Tokens of scanned items.
pub open spec fn item_tokens(items: Seq<StreamItem>) -> Seq<TokenView> {
    Seq::new(items.len(), |i: int| items[i].token@)
}

/// Spans of scanned items.
pub open spec fn item_spans(items: Seq<StreamItem>) -> Seq<SpanView> {
    Seq::new(items.len(), |i: int| items[i].span@)
}

/// A word token, unless read from a symbol, stops where no word
/// continues.
pub open spec fn word_complete(m: Matcher, t: TokenView, sp: SpanView, end: int) -> bool {
    t is Word && !skips_on(m, t, sp) ==> !continues_at(m, rest_from(sp, end).data().skip(sp.length))
}

/// The tokens `toks` at `sps` are scanned from `input` up to `upto`: in
/// order, with blank text between them, each holding the text its span
/// holds as the scanner reads it.
pub open spec fn scanned_prefix(
    m: Matcher,
    toks: Seq<TokenView>,
    sps: Seq<SpanView>,
    input: SpanView,
    upto: int,
) -> bool {
    &&& spans_in_order(sps, input)
    &&& gaps_blank(m, toks, sps, input, upto)
    &&& forall|i: int|
        0 <= i < toks.len() ==> token_fits(#[trigger] toks[i], sps[i]) && matched_token(
            m.matchers(),
            toks[i],
            sps[i],
            input.end(),
        ) && word_complete(m, toks[i], sps[i], input.end())
    &&& forall|i: int| 0 <= i < sps.len() ==> (#[trigger] sps[i]).end() <= upto
}

/// A word token read from a symbol that can start a word: the scanner
/// passes over the word's continuation, which the token's span does not
/// cover.
pub open spec fn skips_on(m: Matcher, t: TokenView, sp: SpanView) -> bool {
    t is Word && (m.lookup(sp.data()) matches Some(ScanActionView::Symbol(_, w)) && w)
}

/// Only blank text of `input` lies before the first token, between two
/// tokens, and after the last token up to `upto`; after a word read from a
/// symbol, the text passed over as the word's continuation is not said to
/// be blank.
pub open spec fn gaps_blank(
    m: Matcher,
    tokens: Seq<TokenView>,
    spans: Seq<SpanView>,
    input: SpanView,
    upto: int,
) -> bool {
    &&& tokens.len() == spans.len()
    &&& blank_between(
        input,
        input.offset,
        if spans.len() == 0 {
            upto
        } else {
            spans[0].offset
        },
    )
    &&& forall|i: int|
        0 <= i < spans.len() ==> (skips_on(m, #[trigger] tokens[i], spans[i]) || blank_between(
            input,
            spans[i].end(),
            if i + 1 < spans.len() {
                spans[i + 1].offset
            } else {
                upto
            },
        ))
}

proof fn lemma_gaps_extend(
    m: Matcher,
    tokens: Seq<TokenView>,
    spans: Seq<SpanView>,
    input: SpanView,
    q: int,
    r: int,
)
    requires
        gaps_blank(m, tokens, spans, input, q),
        blank_between(input, q, r),
    ensures
        gaps_blank(m, tokens, spans, input, r),
{
    if spans.len() == 0 {
        lemma_blank_join(input, input, input.offset, q, r);
    } else {
        let n = spans.len() - 1;
        assert forall|i: int| 0 <= i < spans.len() implies (skips_on(m, #[trigger] tokens[i], spans[i]) || blank_between(
            input,
            spans[i].end(),
            if i + 1 < spans.len() {
                spans[i + 1].offset
            } else {
                r
            },
        )) by {
            if i == n && !skips_on(m, tokens[i], spans[i]) {
                lemma_blank_join(input, input, spans[i].end(), q, r);
            }
        }
    }
}

proof fn lemma_gaps_push(
    m: Matcher,
    tokens: Seq<TokenView>,
    spans: Seq<SpanView>,
    input: SpanView,
    q: int,
    t: TokenView,
    sp: SpanView,
    r: int,
)
    requires
        gaps_blank(m, tokens, spans, input, q),
        blank_between(input, q, sp.offset),
        skips_on(m, t, sp) || blank_between(input, sp.end(), r),
    ensures
        gaps_blank(m, tokens.push(t), spans.push(sp), input, r),
{
    let t2 = tokens.push(t);
    let s2 = spans.push(sp);
    let n = spans.len();
    if n == 0 {
        lemma_blank_join(input, input, input.offset, q, sp.offset);
    } else {
        assert(s2[0] == spans[0]);
    }
    assert forall|i: int| 0 <= i < s2.len() implies (skips_on(m, #[trigger] t2[i], s2[i]) || blank_between(
        input,
        s2[i].end(),
        if i + 1 < s2.len() {
            s2[i + 1].offset
        } else {
            r
        },
    )) by {
        if i < n {
            assert(t2[i] == tokens[i] && s2[i] == spans[i]);
            if i + 1 < n {
                assert(s2[i + 1] == spans[i + 1]);
            } else if !skips_on(m, tokens[i], spans[i]) {
                assert(s2[i + 1] == sp);
                lemma_blank_join(input, input, spans[i].end(), q, sp.offset);
            }
        } else {
            assert(t2[i] == t && s2[i] == sp);
        }
    }
}

/// An error that stops scanning `input` with `m`, at a non-blank position
/// of the input: a character there starts no token, or the first matcher
/// that applies there reports the error (an unclosed string literal, a
/// number with an exponent without digits).
pub open spec fn scan_error(m: Matcher, input: SpanView, e: ErrorView) -> bool {
    &&& e.span.source == input.source
    &&& input.offset <= e.span.offset < input.end()
    &&& {
        ||| (e.message == "invalid symbol"@ && !is_blank_byte(input.bytes()[e.span.offset]) && !token_start(
            m,
            rest_from(e.span, input.end()),
        ))
        ||| matcher_error(m.matchers(), rest_from(e.span, input.end()).chars(), e.message)
    }
}

/// The tokens `toks` at `sps` are what successive calls of the scanner
/// `m` return from `input` on, each without an error: `cs[i]` is the
/// cursor before the call that returns token `i`.
pub open spec fn scan_chain(
    m: Matcher,
    input: SpanView,
    toks: Seq<TokenView>,
    sps: Seq<SpanView>,
    cs: Seq<SpanView>,
) -> bool {
    &&& cs.len() == toks.len() + 1
    &&& sps.len() == toks.len()
    &&& cs[0] == input
    &&& forall|i: int|
        0 <= i < toks.len() ==> scan_post(
            m,
            cs[i],
            Seq::empty(),
            cs[i + 1],
            Seq::empty(),
            Some((#[trigger] toks[i], sps[i])),
        )
}

proof fn lemma_chain_push(
    m: Matcher,
    input: SpanView,
    toks: Seq<TokenView>,
    sps: Seq<SpanView>,
    cs: Seq<SpanView>,
    t: TokenView,
    sp: SpanView,
    c: SpanView,
)
    requires
        scan_chain(m, input, toks, sps, cs),
        scan_post(m, cs.last(), Seq::empty(), c, Seq::empty(), Some((t, sp))),
    ensures
        scan_chain(m, input, toks.push(t), sps.push(sp), cs.push(c)),
{
    let t2 = toks.push(t);
    let s2 = sps.push(sp);
    let c2 = cs.push(c);
    assert forall|i: int| 0 <= i < t2.len() implies scan_post(
        m,
        c2[i],
        Seq::empty(),
        c2[i + 1],
        Seq::empty(),
        Some((#[trigger] t2[i], s2[i])),
    ) by {
        if i < toks.len() {
            assert(t2[i] == toks[i] && s2[i] == sps[i] && c2[i] == cs[i] && c2[i + 1] == cs[i + 1]);
        } else {
            assert(t2[i] == t && s2[i] == sp && c2[i] == cs.last() && c2[i + 1] == c);
        }
    }
}

/// Scanning `input` with `m` ends at the cursor `c` with the errors `e`:
/// the tokens before come from successive error-free calls, and the last
/// call returns `r` and reports `e`.
pub open spec fn scan_stops(
    m: Matcher,
    input: SpanView,
    toks: Seq<TokenView>,
    sps: Seq<SpanView>,
    cs: Seq<SpanView>,
    c: SpanView,
    e: Seq<ErrorView>,
    r: Option<(TokenView, SpanView)>,
) -> bool {
    scan_chain(m, input, toks, sps, cs) && scan_post(m, cs.last(), Seq::empty(), c, e, r)
}

proof fn lemma_items_prefix(m: Matcher, items: Seq<StreamItem>, input: SpanView, upto: int)
    requires
        spans_in_order(items.map_values(|it: StreamItem| it.span@), input),
        gaps_blank(m, item_tokens(items), item_spans(items), input, upto),
        forall|i: int| 0 <= i < items.len() ==> token_fits((#[trigger] items[i]).token@, items[i].span@),
        forall|i: int|
            0 <= i < items.len() ==> matched_token(
                m.matchers(),
                (#[trigger] items[i]).token@,
                items[i].span@,
                input.end(),
            ),
        forall|i: int|
            0 <= i < items.len() ==> word_complete(m, (#[trigger] items[i]).token@, items[i].span@, input.end()),
        forall|i: int| 0 <= i < items.len() ==> (#[trigger] items[i]).span@.end() <= upto,
    ensures
        scanned_prefix(m, item_tokens(items), item_spans(items), input, upto),
{
    assert(item_spans(items) =~= items.map_values(|it: StreamItem| it.span@));
    let toks = item_tokens(items);
    let sps = item_spans(items);
    assert forall|i: int| 0 <= i < toks.len() implies token_fits(#[trigger] toks[i], sps[i]) && matched_token(
        m.matchers(),
        toks[i],
        sps[i],
        input.end(),
    ) && word_complete(m, toks[i], sps[i], input.end()) by {
        assert(toks[i] == items[i].token@ && sps[i] == items[i].span@);
    }
    assert forall|i: int| 0 <= i < sps.len() implies (#[trigger] sps[i]).end() <= upto by {
        assert(sps[i] == items[i].span@);
    }
}

/// Scans all tokens of `input` into a stream: the tokens are those that
/// successive calls of [`Matcher::scan`] return from the start of the
/// input, up to the call that returns none. Scanning stops at the first
/// error, which that call reports; input left over without an error is
/// reported as one.
pub fn scan(matcher: &mut Matcher, input: &Span) -> (res: Result<NodeStream, Errors>)
    requires
        old(matcher).wf(),
    ensures
        *final(matcher) == *old(matcher),
        res matches Ok(s) ==> s.position() == 0 && spans_in_order(s.spans(), input@),
        res matches Ok(s) ==> forall|i: int|
            0 <= i < s.tokens().len() ==> token_fits(#[trigger] s.tokens()[i], s.spans()[i]),
        res matches Ok(s) ==> gaps_blank(*old(matcher), s.tokens(), s.spans(), input@, input@.end()),
        res matches Ok(s) ==> forall|i: int|
            0 <= i < s.tokens().len() ==> matched_token(
                old(matcher).matchers(),
                #[trigger] s.tokens()[i],
                s.spans()[i],
                input@.end(),
            ),
        res matches Ok(s) ==> scanned_prefix(*old(matcher), s.tokens(), s.spans(), input@, input@.end()),
        res matches Err(e) ==> e@.len() == 1 && scan_error(*old(matcher), input@, e@[0]),
        res matches Err(e) ==> exists|toks: Seq<TokenView>, sps: Seq<SpanView>|
            #[trigger] scanned_prefix(*old(matcher), toks, sps, input@, e@[0].span.offset),
        res matches Ok(s) ==> exists|cs: Seq<SpanView>, c: SpanView|
            #[trigger] scan_stops(*old(matcher), input@, s.tokens(), s.spans(), cs, c, Seq::empty(), None),
        res matches Err(e) ==> exists|
            toks: Seq<TokenView>,
            sps: Seq<SpanView>,
            cs: Seq<SpanView>,
            c: SpanView,
            r: Option<(TokenView, SpanView)>,
        | #[trigger] scan_stops(*old(matcher), input@, toks, sps, cs, c, e@, r),
{
    let mut errors = Errors::new();
    let mut items: Vec<StreamItem> = Vec::new();
    let mut cursor = input.duplicate();
    let ghost mut cs: Seq<SpanView> = seq![input@];
    loop
        invariant_except_break
            errors@.len() == 0,
            scan_chain(*matcher, input@, item_tokens(items@), item_spans(items@), cs),
            cs.last() == cursor@,
            gaps_blank(*matcher, item_tokens(items@), item_spans(items@), input@, cursor@.offset),
        invariant
            errors@.len() <= 1,
            errors@.len() == 1 ==> scan_error(*matcher, input@, errors@[0]),
            matcher.wf(),
            *matcher == *old(matcher),
            cursor@.source == input@.source,
            cursor@.end() == input@.end(),
            cursor@.offset >= input@.offset,
            spans_in_order(items@.map_values(|it: StreamItem| it.span@), input@),
            forall|i: int| 0 <= i < items@.len() ==> (#[trigger] items@[i]).span@.end() <= cursor@.offset,
            forall|i: int|
                0 <= i < items@.len() ==> word_complete(
                    *matcher,
                    (#[trigger] items@[i]).token@,
                    items@[i].span@,
                    input@.end(),
                ),
            errors@.len() == 1 ==> exists|toks: Seq<TokenView>, sps: Seq<SpanView>|
                #[trigger] scanned_prefix(*matcher, toks, sps, input@, errors@[0].span.offset),
            forall|i: int| 0 <= i < items@.len() ==> token_fits((#[trigger] items@[i]).token@, items@[i].span@),
            forall|i: int|
                0 <= i < items@.len() ==> matched_token(
                    matcher.matchers(),
                    (#[trigger] items@[i]).token@,
                    items@[i].span@,
                    input@.end(),
                ),
        ensures
            errors@.len() == 0 ==> gaps_blank(*matcher, item_tokens(items@), item_spans(items@), input@, cursor@.offset)
                && cursor@.length == 0,
            errors@.len() <= 1,
            errors@.len() == 1 ==> scan_error(*matcher, input@, errors@[0]),
            errors@.len() == 1 ==> exists|toks: Seq<TokenView>, sps: Seq<SpanView>|
                #[trigger] scanned_prefix(*matcher, toks, sps, input@, errors@[0].span.offset),
            errors@.len() == 0 ==> exists|c: SpanView|
                #[trigger] scan_stops(
                    *matcher,
                    input@,
                    item_tokens(items@),
                    item_spans(items@),
                    cs,
                    c,
                    Seq::empty(),
                    None,
                ),
            errors@.len() > 0 ==> exists|
                toks: Seq<TokenView>,
                sps: Seq<SpanView>,
                cs2: Seq<SpanView>,
                c: SpanView,
                r: Option<(TokenView, SpanView)>,
            | #[trigger] scan_stops(*matcher, input@, toks, sps, cs2, c, errors@, r),
            *matcher == *old(matcher),
            forall|i: int|
                0 <= i < items@.len() ==> word_complete(
                    *matcher,
                    (#[trigger] items@[i]).token@,
                    items@[i].span@,
                    input@.end(),
                ),
            spans_in_order(items@.map_values(|it: StreamItem| it.span@), input@),
            forall|i: int| 0 <= i < items@.len() ==> (#[trigger] items@[i]).span@.end() <= cursor@.offset,
            forall|i: int| 0 <= i < items@.len() ==> token_fits((#[trigger] items@[i]).token@, items@[i].span@),
            forall|i: int|
                0 <= i < items@.len() ==> matched_token(
                    matcher.matchers(),
                    (#[trigger] items@[i]).token@,
                    items@[i].span@,
                    input@.end(),
                ),
        decreases cursor@.length,
    {
        proof {
            use_type_invariant(&cursor);
        }
        let ghost before = cursor@;
        let ghost eb = errors@;
        proof {
            assert(errors@.len() == 0);
            assert(eb =~= Seq::<ErrorView>::empty());
        }
        match matcher.scan(&mut cursor, &mut errors) {
            Some((token, span)) => {
                proof {
                    use_type_invariant(&cursor);
                }
                let ghost old_items = items@;
                let ghost t = token@;
                let ghost sp = span@;
                items.push(StreamItem { token, span });
                proof {
                    lemma_blank_join(input@, before, before.offset, before.offset, sp.offset);
                    if !(t is Word) && !(t is Break) {
                        assert(sp.end() == cursor@.offset);
                    }
                    if t is Break {
                        lemma_blank_join(input@, before, sp.end(), sp.end(), cursor@.offset);
                    }
                    lemma_gaps_push(
                        *matcher,
                        item_tokens(old_items),
                        item_spans(old_items),
                        input@,
                        before.offset,
                        t,
                        sp,
                        cursor@.offset,
                    );
                    assert(item_tokens(items@) =~= item_tokens(old_items).push(t));
                    assert(item_spans(items@) =~= item_spans(old_items).push(sp));
                }
                proof {
                    let sp = items@.map_values(|it: StreamItem| it.span@);
                    let osp = old_items.map_values(|it: StreamItem| it.span@);
                    assert forall|i: int| 0 <= i < sp.len() - 1 implies (#[trigger] sp[i]).end() <= sp[i + 1].offset by {
                        if i < osp.len() - 1 {
                            assert(sp[i] == osp[i]);
                            assert(sp[i + 1] == osp[i + 1]);
                        } else {
                            assert(sp[i] == old_items[i].span@);
                        }
                    }
                    assert forall|i: int| 0 <= i < items@.len() implies (#[trigger] items@[i]).span@.end() <= cursor@.offset by {
                        if i < old_items.len() {
                            assert(items@[i] == old_items[i]);
                        }
                    }
                    assert forall|i: int| 0 <= i < items@.len() implies token_fits((#[trigger] items@[i]).token@, items@[i].span@) by {
                        if i < old_items.len() {
                            assert(items@[i] == old_items[i]);
                        }
                    }
                    assert forall|i: int| 0 <= i < items@.len() implies matched_token(
                        matcher.matchers(),
                        (#[trigger] items@[i]).token@,
                        items@[i].span@,
                        input@.end(),
                    ) by {
                        if i < old_items.len() {
                            assert(items@[i] == old_items[i]);
                        }
                    }
                    assert forall|i: int| 0 <= i < sp.len() implies (#[trigger] sp[i]).source == input@.source && input@.offset <= sp[i].offset && sp[i].end() <= input@.end() && sp[i].length > 0 by {
                        if i < osp.len() {
                            assert(sp[i] == osp[i]);
                        }
                    }
                }
                proof {
                    if t is Word && !skips_on(*matcher, t, sp) {
                        assert(sp.end() == cursor@.offset);
                        assert(cursor@.data() =~= rest_from(sp, input@.end()).data().skip(sp.length));
                    }
                    assert forall|i: int| 0 <= i < items@.len() implies word_complete(
                        *matcher,
                        (#[trigger] items@[i]).token@,
                        items@[i].span@,
                        input@.end(),
                    ) by {
                        if i < old_items.len() {
                            assert(items@[i] == old_items[i]);
                        }
                    }
                    if errors@.len() == 1 {
                        assert(errors@[0] == errors@.last());
                        assert(errors@[0].span == sp);
                        lemma_gaps_extend(
                            *matcher,
                            item_tokens(old_items),
                            item_spans(old_items),
                            input@,
                            before.offset,
                            sp.offset,
                        );
                        lemma_items_prefix(*matcher, old_items, input@, sp.offset);
                    }
                }
                proof {
                    if errors@.len() == 0 {
                        assert(errors@ =~= Seq::<ErrorView>::empty());
                        lemma_chain_push(
                            *matcher,
                            input@,
                            item_tokens(old_items),
                            item_spans(old_items),
                            cs,
                            t,
                            sp,
                            cursor@,
                        );
                        cs = cs.push(cursor@);
                    } else {
                        assert(scan_stops(
                            *matcher,
                            input@,
                            item_tokens(old_items),
                            item_spans(old_items),
                            cs,
                            cursor@,
                            errors@,
                            Some((t, sp)),
                        ));
                    }
                }
                if !errors.empty() {
                    break ;
                }
            },
            None => {
                proof {
                    if errors@.len() == 1 {
                        assert(errors@[0] == errors@.last());
                        let es = errors@.last().span;
                        assert(rest_from(es, before.end()) == rest_from(es, input@.end()));
                        lemma_blank_join(input@, before, before.offset, before.offset, es.offset);
                        lemma_gaps_extend(
                            *matcher,
                            item_tokens(items@),
                            item_spans(items@),
                            input@,
                            before.offset,
                            es.offset,
                        );
                        lemma_items_prefix(*matcher, items@, input@, es.offset);
                        assert(scan_stops(
                            *matcher,
                            input@,
                            item_tokens(items@),
                            item_spans(items@),
                            cs,
                            cursor@,
                            errors@,
                            None,
                        ));
                    } else {
                        assert(errors@ =~= Seq::<ErrorView>::empty());
                        assert(scan_stops(
                            *matcher,
                            input@,
                            item_tokens(items@),
                            item_spans(items@),
                            cs,
                            cursor@,
                            Seq::empty(),
                            None,
                        ));
                    }
                    if errors@.len() == 0 {
                        lemma_blank_join(input@, before, before.offset, before.offset, cursor@.offset);
                        lemma_gaps_extend(
                            *matcher,
                            item_tokens(items@),
                            item_spans(items@),
                            input@,
                            before.offset,
                            cursor@.offset,
                        );
                    }
                }
                break ;
            },
        }
        proof {
            use_type_invariant(&cursor);
        }
    }
    if !cursor.at_end() && errors.empty() {
        errors.add("failed to parse the entire input", cursor.pos());
        assert(errors@[0] == errors@.last());
    }
    if errors.len() > 0 {
        let ghost ev = errors@;
        let res: Result<NodeStream, Errors> = Err(errors);
        proof {
            assert(res matches Err(e) && e@ == ev);
            assert(exists|toks: Seq<TokenView>, sps: Seq<SpanView>|
                #[trigger] scanned_prefix(*old(matcher), toks, sps, input@, ev[0].span.offset));
            assert(exists|
                toks: Seq<TokenView>,
                sps: Seq<SpanView>,
                cs: Seq<SpanView>,
                c: SpanView,
                r: Option<(TokenView, SpanView)>,
            | #[trigger] scan_stops(*old(matcher), input@, toks, sps, cs, c, ev, r));
        }
        res
    } else {
        proof {
            use_type_invariant(&cursor);
        }
        let stream = NodeStream::new(items);
        proof {
            assert(stream.tokens() =~= item_tokens(items@));
            assert(stream.spans() =~= item_spans(items@));
            assert forall|i: int| 0 <= i < stream.tokens().len() implies token_fits(
                #[trigger] stream.tokens()[i],
                stream.spans()[i],
            ) && matched_token(matcher.matchers(), stream.tokens()[i], stream.spans()[i], input@.end()) by {
                assert(stream.tokens()[i] == items@[i].token@);
                assert(stream.spans()[i] == items@[i].span@);
            }
            lemma_items_prefix(*matcher, items@, input@, input@.end());
            let c = choose|c: SpanView|
                #[trigger] scan_stops(
                    *matcher,
                    input@,
                    item_tokens(items@),
                    item_spans(items@),
                    cs,
                    c,
                    Seq::empty(),
                    None,
                );
            assert(scan_stops(*old(matcher), input@, stream.tokens(), stream.spans(), cs, c, Seq::empty(), None));
        }
        let ghost sv = stream;
        let res: Result<NodeStream, Errors> = Ok(stream);
        proof {
            assert(res matches Ok(s) && s == sv);
            assert(exists|cs: Seq<SpanView>, c: SpanView|
                #[trigger] scan_stops(*old(matcher), input@, sv.tokens(), sv.spans(), cs, c, Seq::empty(), None));
        }
        res
    }
}

} // verus!
