//! Pairs of opening and closing bracket symbols.

use vstd::prelude::*;

use crate::errors::Errors;
use crate::segments::{
    flat, flat_seq, grouped, grouped_seq, lemma_flat_node, lemma_flat_seq_concat, lemma_flat_seq_push, lemma_grouped,
    Group, Node,
};
use crate::text::{chars_to_string, push_str};
use crate::token::str_eq;

verus! {

/// Opening symbols mapped to their closing symbols.
pub struct BracketPairs {
    pairs: Vec<(String, String)>,
    reverse: Vec<String>,
}

impl BracketPairs {
    /// No opening symbol is registered twice.
    pub closed spec fn wf(self) -> bool {
        forall|i: int, j: int|
            0 <= i < j < self.pairs@.len() ==> #[trigger] self.pairs@[i].0@ != #[trigger] self.pairs@[j].0@
    }

    /// Closing symbol registered for the opening symbol `open`.
    pub closed spec fn closing(self, open: Seq<char>) -> Option<Seq<char>> {
        if exists|i: int| 0 <= i < self.pairs@.len() && #[trigger] self.pairs@[i].0@ == open {
            let i = choose|i: int| 0 <= i < self.pairs@.len() && #[trigger] self.pairs@[i].0@ == open;
            Some(self.pairs@[i].1@)
        } else {
            None
        }
    }

    /// Symbols registered as closing brackets.
    pub closed spec fn closers(self) -> Set<Seq<char>> {
        Set::new(|s: Seq<char>| exists|i: int| 0 <= i < self.reverse@.len() && #[trigger] self.reverse@[i]@ == s)
    }

    /// No bracket pairs.
    pub fn new() -> (b: BracketPairs)
        ensures
            b.wf(),
            forall|s: Seq<char>| #[trigger] b.closing(s) is None,
            b.closers() == Set::<Seq<char>>::empty(),
    {
        let b = BracketPairs { pairs: Vec::new(), reverse: Vec::new() };
        assert(b.closers() =~= Set::<Seq<char>>::empty());
        b
    }

    /// Registers `right` as the closing symbol of `left`, replacing an
    /// earlier pair for `left`.
    pub fn add(&mut self, left: &str, right: &str)
        requires
            old(self).wf(),
        ensures
            final(self).wf(),
            final(self).closing(left@) == Some(right@),
            forall|s: Seq<char>| s != left@ ==> #[trigger] final(self).closing(s) == old(self).closing(s),
            final(self).closers() == old(self).closers().insert(right@),
    {
        let ghost before = *self;
        let ghost old_reverse = self.reverse@;
        self.reverse.push(right.to_owned());
        proof {
            assert forall|s: Seq<char>| #[trigger] self.closers().contains(s) == before.closers().insert(right@).contains(s) by {
                if before.closers().contains(s) {
                    let k = choose|k: int| 0 <= k < old_reverse.len() && #[trigger] old_reverse[k]@ == s;
                    assert(self.reverse@[k]@ == s);
                }
                if s == right@ {
                    assert(self.reverse@[old_reverse.len() as int]@ == s);
                }
                if self.closers().contains(s) && s != right@ {
                    let k = choose|k: int| 0 <= k < self.reverse@.len() && #[trigger] self.reverse@[k]@ == s;
                    assert(k < old_reverse.len());
                    assert(old_reverse[k]@ == s);
                }
            }
            assert(self.closers() =~= before.closers().insert(right@));
        }
        let ghost mid = *self;
        let ghost old_pairs = self.pairs@;
        let mut i: usize = 0;
        let mut found = false;
        while i < self.pairs.len()
            invariant_except_break
                !found,
            invariant
                0 <= i <= self.pairs@.len(),
                self.pairs@ == old_pairs,
                forall|j: int| 0 <= j < i ==> #[trigger] self.pairs@[j].0@ != left@,
            ensures
                0 <= i <= self.pairs@.len(),
                self.pairs@ == old_pairs,
                forall|j: int| 0 <= j < i ==> #[trigger] self.pairs@[j].0@ != left@,
                found ==> i < self.pairs@.len() && self.pairs@[i as int].0@ == left@,
                !found ==> i == self.pairs@.len(),
            decreases self.pairs@.len() - i,
        {
            if str_eq(self.pairs[i].0.as_str(), left) {
                found = true;
                break ;
            }
            i = i + 1;
        }
        if found {
            let key = self.pairs[i].0.clone();
            self.pairs.set(i, (key, right.to_owned()));
            proof {
                assert(self.pairs@[i as int].0@ == left@);
                assert forall|s: Seq<char>| s != left@ implies #[trigger] self.closing(s) == before.closing(s) by {
                    if exists|k: int| 0 <= k < self.pairs@.len() && #[trigger] self.pairs@[k].0@ == s {
                        let k = choose|k: int| 0 <= k < self.pairs@.len() && #[trigger] self.pairs@[k].0@ == s;
                        assert(before.pairs@[k].0@ == s);
                    }
                    if exists|k: int| 0 <= k < before.pairs@.len() && #[trigger] before.pairs@[k].0@ == s {
                        let k = choose|k: int| 0 <= k < before.pairs@.len() && #[trigger] before.pairs@[k].0@ == s;
                        assert(self.pairs@[k].0@ == s);
                    }
                }
                assert(self.closing(left@) == Some(right@)) by {
                    let k = choose|k: int| 0 <= k < self.pairs@.len() && #[trigger] self.pairs@[k].0@ == left@;
                    if k != i {
                        if k < i {
                            assert(self.pairs@[k].0@ != self.pairs@[i as int].0@);
                        } else {
                            assert(self.pairs@[i as int].0@ != self.pairs@[k].0@);
                        }
                    }
                }
            }
        } else {
            self.pairs.push((left.to_owned(), right.to_owned()));
            proof {
                let n = old_pairs.len() as int;
                assert(self.pairs@[n].0@ == left@);
                assert forall|s: Seq<char>| s != left@ implies #[trigger] self.closing(s) == before.closing(s) by {
                    if exists|k: int| 0 <= k < self.pairs@.len() && #[trigger] self.pairs@[k].0@ == s {
                        let k = choose|k: int| 0 <= k < self.pairs@.len() && #[trigger] self.pairs@[k].0@ == s;
                        assert(before.pairs@[k].0@ == s);
                    }
                    if exists|k: int| 0 <= k < before.pairs@.len() && #[trigger] before.pairs@[k].0@ == s {
                        let k = choose|k: int| 0 <= k < before.pairs@.len() && #[trigger] before.pairs@[k].0@ == s;
                        assert(self.pairs@[k].0@ == s);
                    }
                }
                assert(self.closing(left@) == Some(right@)) by {
                    let k = choose|k: int| 0 <= k < self.pairs@.len() && #[trigger] self.pairs@[k].0@ == left@;
                    if k != n {
                        assert(old_pairs[k].0@ != left@);
                    }
                }
            }
        }
        assert(self.closers() =~= mid.closers());
    }

    /// Closing symbol of the opening symbol `open`, if it is one.
    pub fn closing_bracket_for(&self, open: &str) -> (res: Option<String>)
        requires
            self.wf(),
        ensures
            match res {
                Some(s) => self.closing(open@) == Some(s@),
                None => self.closing(open@) is None,
            },
    {
        let mut i: usize = 0;
        while i < self.pairs.len()
            invariant
                self.wf(),
                0 <= i <= self.pairs@.len(),
                forall|j: int| 0 <= j < i ==> #[trigger] self.pairs@[j].0@ != open@,
            decreases self.pairs@.len() - i,
        {
            if str_eq(self.pairs[i].0.as_str(), open) {
                proof {
                    let k = choose|k: int| 0 <= k < self.pairs@.len() && #[trigger] self.pairs@[k].0@ == open@;
                    if k != i {
                        if k < i {
                            assert(self.pairs@[k].0@ != self.pairs@[i as int].0@);
                        } else {
                            assert(0 <= i < k < self.pairs@.len());
                            assert(self.wf());
                            assert(self.pairs@[i as int].0@ != self.pairs@[k].0@);
                        }
                    }
                }
                return Some(self.pairs[i].1.clone());
            }
            i = i + 1;
        }
        None
    }

    /// True when `symbol` is registered as a closing bracket.
    pub fn is_closing(&self, symbol: &str) -> (b: bool)
        ensures
            b == self.closers().contains(symbol@),
    {
        let mut i: usize = 0;
        while i < self.reverse.len()
            invariant
                0 <= i <= self.reverse@.len(),
                forall|j: int| 0 <= j < i ==> #[trigger] self.reverse@[j]@ != symbol@,
            decreases self.reverse@.len() - i,
        {
            if str_eq(self.reverse[i].as_str(), symbol) {
                assert(self.closers().contains(symbol@));
                return true;
            }
            i = i + 1;
        }
        false
    }
}

/// Message for a closing bracket without its opening bracket.
pub open spec fn unpaired_msg(r: Seq<char>) -> Seq<char> {
    "unpaired right bracket `"@ + r + "`"@
}

/// Message for an opening bracket `l` without its closing bracket `r`.
pub open spec fn missing_msg(l: Seq<char>, r: Seq<char>) -> Seq<char> {
    "bracket `"@ + l + "` is missing `"@ + r + "`"@
}

/// `msg` reports a bracket symbol of `nodes`: a closing bracket found
/// without its opening one, or an opening bracket whose closing bracket
/// is missing.
pub open spec fn bracket_error(b: BracketPairs, nodes: Seq<Node>, msg: Seq<char>) -> bool {
    ||| exists|i: int|
        0 <= i < nodes.len() && (#[trigger] nodes[i] matches Node::Symbol(t) && b.closers().contains(
            t@,
        ) && b.closing(t@) is None && msg == unpaired_msg(t@))
    ||| exists|i: int|
        0 <= i < nodes.len() && (#[trigger] nodes[i] matches Node::Symbol(t) && b.closing(t@) is Some
            && msg == missing_msg(t@, b.closing(t@).unwrap()))
}

/// Walks `nodes` left to right with a stack of open brackets (each with
/// its closing symbol): the closing symbol of the innermost open bracket
/// closes it, an opening bracket opens a new one, and any other closing
/// bracket is unpaired. Gives `None` when every bracket is closed, else
/// the error: the first unpaired closing bracket, or the innermost
/// bracket still open at the end.
pub open spec fn bracket_walk(b: BracketPairs, nodes: Seq<Node>, stack: Seq<(Seq<char>, Seq<char>)>) -> Option<
    Seq<char>,
>
    decreases nodes.len(),
{
    if nodes.len() == 0 {
        if stack.len() == 0 {
            None
        } else {
            Some(missing_msg(stack.last().0, stack.last().1))
        }
    } else {
        let rest = nodes.drop_first();
        match nodes[0] {
            Node::Symbol(t) => if stack.len() > 0 && t@ == stack.last().1 {
                bracket_walk(b, rest, stack.drop_last())
            } else if b.closing(t@) is Some {
                bracket_walk(b, rest, stack.push((t@, b.closing(t@).unwrap())))
            } else if b.closers().contains(t@) {
                Some(unpaired_msg(t@))
            } else {
                bracket_walk(b, rest, stack)
            },
            _ => bracket_walk(b, rest, stack),
        }
    }
}

/// The walk's stack inside `pair`: `st` with the pair's brackets on top.
pub open spec fn pair_stack(pair: Option<(String, String)>, st: Seq<(Seq<char>, Seq<char>)>) -> Seq<
    (Seq<char>, Seq<char>),
> {
    match pair {
        Some((l, r)) => st.push((l@, r@)),
        None => st,
    }
}

/// A symbol node that opens or closes a bracket pair.
pub open spec fn bare_bracket(b: BracketPairs, n: Node) -> bool {
    n matches Node::Symbol(s) && (b.closing(s@) is Some || b.closers().contains(s@))
}

impl BracketPairs {
    /// Groups the nodes by their brackets: an opening bracket, the nodes up
    /// to its closing bracket and the closing bracket become one group node.
    /// A closing bracket without its opening one, and an opening bracket
    /// without its closing one, are errors.
    pub fn parse_nodes(&self, nodes: Vec<Node>) -> (res: Result<Vec<Node>, Errors>)
        requires
            self.wf(),
        ensures
            res matches Ok(out) ==> flat_seq(out@) == flat_seq(nodes@),
            res matches Ok(out) ==> forall|i: int| 0 <= i < out@.len() ==> !bare_bracket(*self, #[trigger] out@[i]),
            res matches Err(e) ==> e@.len() == 1 && bracket_error(*self, nodes@, e@[0].message),
            match res {
                Ok(_) => bracket_walk(*self, nodes@, seq![]) is None,
                Err(e) => bracket_walk(*self, nodes@, seq![]) == Some(e@[0].message),
            },
            res matches Ok(out) ==> ((forall|i: int|
                0 <= i < nodes@.len() ==> (#[trigger] nodes@[i] is Group ==> grouped(*self, nodes@[i])))
                ==> grouped_seq(*self, out@)),
    {
        let mut items = nodes;
        let ghost empty: Seq<(Seq<char>, Seq<char>)> = seq![];
        proof {
            assert(empty + Seq::<(Seq<char>, Seq<char>)>::empty() =~= empty);
        }
        match self.parse_bracket(&mut items, None) {
            Ok((out, _)) => Ok(out),
            Err(e) => Err(e),
        }
    }

    /// Reads nodes up to the closing bracket of `pair`, or to the end
    /// without a pair, grouping nested brackets.
    fn parse_bracket(&self, nodes: &mut Vec<Node>, pair: Option<(String, String)>) -> (res: Result<
        (Vec<Node>, Option<Node>),
        Errors,
    >)
        requires
            self.wf(),
            pair matches Some((l, r)) ==> self.closing(l@) == Some(r@),
        ensures
            res matches Err(e) ==> e@.len() == 1 && (bracket_error(*self, old(nodes)@, e@[0].message)
                || (pair matches Some((l, r)) && e@[0].message == missing_msg(l@, r@))),
            res matches Ok((out, _)) ==> forall|i: int| 0 <= i < out@.len() ==> !bare_bracket(*self, #[trigger] out@[i]),
            res matches Ok((out, _)) ==> ((forall|i: int|
                0 <= i < old(nodes)@.len() ==> (#[trigger] old(nodes)@[i] is Group ==> grouped(
                    *self,
                    old(nodes)@[i],
                ))) ==> grouped_seq(*self, out@)),
            res matches Ok((out, end)) ==> {
                let n = old(nodes)@.len() - final(nodes)@.len();
                &&& 0 <= n <= old(nodes)@.len()
                &&& final(nodes)@ == old(nodes)@.skip(n)
                &&& match pair {
                    Some((_, close)) => end is Some && (end.unwrap() matches Node::Symbol(t) && t@
                        == close@) && flat_seq(old(nodes)@.take(n)) == flat_seq(out@) + seq![
                        end.unwrap(),
                    ],
                    None => end is None && n == old(nodes)@.len() && flat_seq(old(nodes)@) == flat_seq(
                        out@,
                    ),
                }
            },
            res matches Ok((_, _)) ==> {
                let n = old(nodes)@.len() - final(nodes)@.len();
                match pair {
                    Some((l, r)) => forall|st: Seq<(Seq<char>, Seq<char>)>|
                        #[trigger] bracket_walk(*self, old(nodes)@, st.push((l@, r@))) == bracket_walk(
                            *self,
                            old(nodes)@.skip(n),
                            st,
                        ),
                    None => bracket_walk(*self, old(nodes)@, seq![]) is None,
                }
            },
            res matches Err(e) ==> match pair {
                Some((l, r)) => forall|st: Seq<(Seq<char>, Seq<char>)>|
                    #[trigger] bracket_walk(*self, old(nodes)@, st.push((l@, r@))) == Some(e@[0].message),
                None => bracket_walk(*self, old(nodes)@, seq![]) == Some(e@[0].message),
            },
        decreases old(nodes)@.len(),
    {
        let ghost start = nodes@;
        let ghost hyp = forall|i: int|
            0 <= i < start.len() ==> (#[trigger] start[i] is Group ==> grouped(*self, start[i]));
        let mut output: Vec<Node> = Vec::new();
        proof {
            lemma_grouped(*self, Node::Empty, output@);
            assert(start.take(0) =~= Seq::<Node>::empty());
            assert(start.skip(0) =~= start);
            lemma_flat_seq_push(output@, Node::Empty);
        }
        while nodes.len() > 0
            invariant
                self.wf(),
                start == old(nodes)@,
                nodes@.len() <= start.len(),
                nodes@ == start.skip(start.len() - nodes@.len()),
                flat_seq(start.take(start.len() - nodes@.len())) == flat_seq(output@),
                forall|i: int| 0 <= i < output@.len() ==> !bare_bracket(*self, #[trigger] output@[i]),
                hyp == forall|i: int|
                    0 <= i < start.len() ==> (#[trigger] start[i] is Group ==> grouped(*self, start[i])),
                hyp ==> grouped_seq(*self, output@),
                forall|st: Seq<(Seq<char>, Seq<char>)>|
                    (pair is None ==> st.len() == 0) ==> #[trigger] bracket_walk(*self, start, pair_stack(pair, st))
                        == bracket_walk(*self, nodes@, pair_stack(pair, st)),
            decreases nodes@.len(),
        {
            let ghost taken = start.len() - nodes@.len();
            let ghost nb = nodes@;
            let next = nodes.remove(0);
            proof {
                assert(nb[0] == next);
                assert(nb.drop_first() =~= nodes@);
                assert(next == start[taken]);
                assert(nodes@ =~= start.skip(taken + 1));
                assert(start.take(taken + 1) =~= start.take(taken).push(next));
                lemma_flat_seq_push(start.take(taken), next);
            }
            let symbol: Option<String> = match &next {
                Node::Symbol(s) => Some(s.clone()),
                _ => None,
            };
            match symbol {
                Some(sym) => {
                    let is_end = match &pair {
                        Some((_, close)) => str_eq(sym.as_str(), close.as_str()),
                        None => false,
                    };
                    if is_end {
                        proof {
                            lemma_flat_node(next);
                            assert forall|st: Seq<(Seq<char>, Seq<char>)>|
                                (pair is None ==> st.len() == 0) implies #[trigger] bracket_walk(
                                *self,
                                start,
                                pair_stack(pair, st),
                            ) == bracket_walk(*self, nodes@, st) by {
                                let x = pair_stack(pair, st);
                                assert(bracket_walk(*self, start, x) == bracket_walk(*self, nb, x));
                                assert(x.drop_last() =~= st);
                            }
                            if let Some((l, r)) = pair {
                                assert forall|st: Seq<(Seq<char>, Seq<char>)>| #[trigger] bracket_walk(
                                    *self,
                                    start,
                                    st.push((l@, r@)),
                                ) == bracket_walk(*self, nodes@, st) by {
                                    assert(pair_stack(pair, st) == st.push((l@, r@)));
                                }
                            }
                        }
                        return Ok((output, Some(next)));
                    }
                    match self.closing_bracket_for(sym.as_str()) {
                        Some(close) => {
                            let ghost before = nodes@;
                            let ghost close_v = close@;
                            let (list, end) = match self.parse_bracket(
                                nodes,
                                Some((sym.clone(), close)),
                            ) {
                                Ok(r) => r,
                                Err(e) => {
                                    proof {
                                        let k = before.len() - nodes@.len();
                                        let msg = e@[0].message;
                                        assert(start[taken] == next);
                                        if bracket_error(*self, before, msg) {
                                            if exists|i: int|
                                                0 <= i < before.len() && (#[trigger] before[i] matches Node::Symbol(t)
                                                    && self.closers().contains(t@) && self.closing(t@) is None
                                                    && msg == unpaired_msg(t@)) {
                                                let i = choose|i: int|
                                                    0 <= i < before.len() && (#[trigger] before[i] matches Node::Symbol(t)
                                                        && self.closers().contains(t@) && self.closing(t@) is None
                                                        && msg == unpaired_msg(t@));
                                                assert(start[taken + 1 + i] == before[i]);
                                            } else {
                                                let i = choose|i: int|
                                                    0 <= i < before.len() && (#[trigger] before[i] matches Node::Symbol(t)
                                                        && self.closing(t@) is Some && msg == missing_msg(
                                                        t@,
                                                        self.closing(t@).unwrap(),
                                                    ));
                                                assert(start[taken + 1 + i] == before[i]);
                                            }
                                        } else {
                                            assert(msg == missing_msg(sym@, close_v));
                                            assert(start[taken] matches Node::Symbol(t) && t@ == sym@);
                                        }
                                        assert forall|st: Seq<(Seq<char>, Seq<char>)>|
                                            (pair is None ==> st.len() == 0) implies #[trigger] bracket_walk(
                                            *self,
                                            start,
                                            pair_stack(pair, st),
                                        ) == Some(msg) by {
                                            let x = pair_stack(pair, st);
                                            assert(bracket_walk(*self, start, x) == bracket_walk(*self, nb, x));
                                            assert(bracket_walk(*self, nb, x) == bracket_walk(
                                                *self,
                                                before,
                                                x.push((sym@, close_v)),
                                            ));
                                        }
                                        if let Some((l, r)) = pair {
                                            assert forall|st: Seq<(Seq<char>, Seq<char>)>| #[trigger] bracket_walk(
                                                *self,
                                                start,
                                                st.push((l@, r@)),
                                            ) == Some(msg) by {
                                                assert(pair_stack(pair, st) == st.push((l@, r@)));
                                            }
                                        } else {
                                            assert(pair_stack(pair, seq![]) == Seq::<(Seq<char>, Seq<char>)>::empty());
                                        }
                                    }
                                    return Err(e);
                                },
                            };
                            let end_node = match end {
                                Some(e) => e,
                                None => Node::Empty,
                            };
                            let group = Group::new(next, list, end_node);
                            let ghost g = Node::Group(group);
                            proof {
                                lemma_flat_node(g);
                                let k = before.len() - nodes@.len();
                                lemma_flat_node(next);
                                assert(before == start.skip(taken + 1));
                                assert(flat_seq(before.take(k)) == flat_seq(list@) + seq![end_node]);
                                assert(flat(g) == seq![next] + flat_seq(list@) + seq![end_node]);
                                assert(start.take(taken + 1 + k) =~= start.take(taken + 1) + before.take(k));
                                lemma_flat_seq_concat(start.take(taken + 1), before.take(k));
                                assert(nodes@ =~= start.skip(taken + 1 + k));
                                lemma_flat_seq_push(output@, g);
                                assert(flat_seq(start.take(taken + 1 + k)) =~= flat_seq(output@) + flat(g));
                            }
                            proof {
                                lemma_grouped(*self, g, output@);
                                if hyp {
                                    assert forall|i: int|
                                        0 <= i < before.len() implies (#[trigger] before[i] is Group ==> grouped(
                                            *self,
                                            before[i],
                                        )) by {
                                        assert(before[i] == start[taken + 1 + i]);
                                    }
                                }
                            }
                            output.push(Node::Group(group));
                            proof {
                                let k = before.len() - nodes@.len();
                                assert forall|st: Seq<(Seq<char>, Seq<char>)>|
                                    (pair is None ==> st.len() == 0) implies #[trigger] bracket_walk(
                                    *self,
                                    start,
                                    pair_stack(pair, st),
                                ) == bracket_walk(*self, nodes@, pair_stack(pair, st)) by {
                                    let x = pair_stack(pair, st);
                                    assert(bracket_walk(*self, start, x) == bracket_walk(*self, nb, x));
                                    assert(bracket_walk(*self, nb, x) == bracket_walk(
                                        *self,
                                        before,
                                        x.push((sym@, close_v)),
                                    ));
                                    assert(bracket_walk(*self, before, x.push((sym@, close_v))) == bracket_walk(
                                        *self,
                                        before.skip(k),
                                        x,
                                    ));
                                }
                            }
                        },
                        None => {
                            if self.is_closing(sym.as_str()) {
                                let mut msg: Vec<char> = Vec::new();
                                push_str(&mut msg, "unpaired right bracket `");
                                push_str(&mut msg, sym.as_str());
                                push_str(&mut msg, "`");
                                let text = chars_to_string(msg.as_slice());
                                let e = Errors::from(text.as_str());
                                proof {
                                    assert(msg@ =~= unpaired_msg(sym@));
                                    assert(start[taken] == next);
                                    assert(start[taken] matches Node::Symbol(t) && t@ == sym@);
                                    assert forall|st: Seq<(Seq<char>, Seq<char>)>|
                                        (pair is None ==> st.len() == 0) implies #[trigger] bracket_walk(
                                        *self,
                                        start,
                                        pair_stack(pair, st),
                                    ) == Some(unpaired_msg(sym@)) by {
                                        let x = pair_stack(pair, st);
                                        assert(bracket_walk(*self, start, x) == bracket_walk(*self, nb, x));
                                    }
                                    if let Some((l, r)) = pair {
                                        assert forall|st: Seq<(Seq<char>, Seq<char>)>| #[trigger] bracket_walk(
                                            *self,
                                            start,
                                            st.push((l@, r@)),
                                        ) == Some(unpaired_msg(sym@)) by {
                                            assert(pair_stack(pair, st) == st.push((l@, r@)));
                                        }
                                    } else {
                                        assert(pair_stack(pair, seq![]) == Seq::<(Seq<char>, Seq<char>)>::empty());
                                    }
                                }
                                return Err(e);
                            }
                            proof {
                                lemma_flat_seq_push(output@, next);
                                lemma_flat_node(next);
                            }
                            proof {
                                lemma_grouped(*self, next, output@);
                                if hyp {
                                    assert(start[taken] == next);
                                }
                            }
                            output.push(next);
                            proof {
                                assert forall|st: Seq<(Seq<char>, Seq<char>)>|
                                    (pair is None ==> st.len() == 0) implies #[trigger] bracket_walk(
                                    *self,
                                    start,
                                    pair_stack(pair, st),
                                ) == bracket_walk(*self, nodes@, pair_stack(pair, st)) by {
                                    let x = pair_stack(pair, st);
                                    assert(bracket_walk(*self, start, x) == bracket_walk(*self, nb, x));
                                }
                            }
                        },
                    }
                },
                None => {
                    proof {
                        lemma_flat_seq_push(output@, next);
                        lemma_flat_node(next);
                    }
                    proof {
                        lemma_grouped(*self, next, output@);
                        if hyp {
                            assert(start[taken] == next);
                        }
                    }
                    output.push(next);
                    proof {
                        assert forall|st: Seq<(Seq<char>, Seq<char>)>|
                            (pair is None ==> st.len() == 0) implies #[trigger] bracket_walk(
                            *self,
                            start,
                            pair_stack(pair, st),
                        ) == bracket_walk(*self, nodes@, pair_stack(pair, st)) by {
                            let x = pair_stack(pair, st);
                            assert(bracket_walk(*self, start, x) == bracket_walk(*self, nb, x));
                        }
                    }
                },
            }
        }
        match pair {
            Some((sta, close)) => {
                let mut msg: Vec<char> = Vec::new();
                push_str(&mut msg, "bracket `");
                push_str(&mut msg, sta.as_str());
                push_str(&mut msg, "` is missing `");
                push_str(&mut msg, close.as_str());
                push_str(&mut msg, "`");
                let text = chars_to_string(msg.as_slice());
                assert(msg@ =~= missing_msg(sta@, close@));
                proof {
                    assert forall|st: Seq<(Seq<char>, Seq<char>)>| #[trigger] bracket_walk(
                        *self,
                        start,
                        st.push((sta@, close@)),
                    ) == Some(missing_msg(sta@, close@)) by {
                        assert(pair_stack(pair, st) == st.push((sta@, close@)));
                        assert(bracket_walk(*self, start, pair_stack(pair, st)) == bracket_walk(
                            *self,
                            nodes@,
                            pair_stack(pair, st),
                        ));
                    }
                }
                Err(Errors::from(text.as_str()))
            },
            None => {
                proof {
                    assert(start.take(start.len() as int) =~= start);
                    assert(pair_stack(pair, seq![]) == Seq::<(Seq<char>, Seq<char>)>::empty());
                    assert(bracket_walk(*self, start, pair_stack(pair, seq![])) == bracket_walk(
                        *self,
                        nodes@,
                        pair_stack(pair, seq![]),
                    ));
                }
                Ok((output, None))
            },
        }
    }
}

} // verus!
