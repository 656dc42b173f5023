//! Evaluation precedence, operator tables and range helpers.

use vstd::prelude::*;

use crate::segments::Node;
use crate::token::str_eq;

verus! {

/// Global evaluation precedence for language nodes, from first to last.
#[derive(Clone, Copy, Debug, PartialEq, Eq, Structural, Hash)]
pub enum Precedence {
    First,
    RawText,
    Comments,
    Parenthesis,
    Indentation,
    LineBreaks,
    Values,
    Last,
}

impl Precedence {
    /// Position in the evaluation order.
    pub open spec fn rank(self) -> int {
        match self {
            Precedence::First => 0,
            Precedence::RawText => 1,
            Precedence::Comments => 2,
            Precedence::Parenthesis => 3,
            Precedence::Indentation => 4,
            Precedence::LineBreaks => 5,
            Precedence::Values => 6,
            Precedence::Last => 7,
        }
    }

    /// Position in the evaluation order.
    pub fn order(&self) -> (n: u8)
        ensures
            n == self.rank(),
    {
        match self {
            Precedence::First => 0,
            Precedence::RawText => 1,
            Precedence::Comments => 2,
            Precedence::Parenthesis => 3,
            Precedence::Indentation => 4,
            Precedence::LineBreaks => 5,
            Precedence::Values => 6,
            Precedence::Last => 7,
        }
    }
}

/// Order in which an operator visits the nodes.
#[derive(Clone, Copy, Debug, PartialEq, Eq, Structural)]
pub enum Sequence {
    Ordered,
    Reverse,
    SingleStep,
}

/// Associativity of a binary operator.
#[derive(Clone, Copy, Debug, PartialEq, Eq, Structural, Hash)]
pub enum Grouping {
    Left,
    Right,
}

/// Position of the nodes an operator applies to.
#[derive(Clone, Copy, Debug, PartialEq, Eq, Structural)]
pub enum NodeRange {
    At(usize),
    List { at: usize, len: usize },
}

/// One end of a range.
#[derive(Clone, Copy, Debug, PartialEq, Eq, Structural)]
pub enum Bound {
    Included(usize),
    Excluded(usize),
    Unbounded,
}

/// Start index of a range given by its lower bound.
pub open spec fn range_start(b: Bound) -> int {
    match b {
        Bound::Included(n) => n as int,
        Bound::Excluded(n) => n + 1,
        Bound::Unbounded => 0,
    }
}

/// End index (exclusive) of a range given by its upper bound, in a list
/// of `len` items.
pub open spec fn range_end(b: Bound, len: int) -> int {
    match b {
        Bound::Included(n) => n + 1,
        Bound::Excluded(n) => n as int,
        Bound::Unbounded => len,
    }
}

/// The index range `start..end` of a range given by its bounds, in a list
/// of `len` items. The range must lie within the list.
pub fn compute_range(start: Bound, end: Bound, len: usize) -> (r: (usize, usize))
    requires
        range_start(start) <= range_end(end, len as int) <= len,
    ensures
        r.0 == range_start(start),
        r.1 == range_end(end, len as int),
{
    let sta = match start {
        Bound::Included(n) => n,
        Bound::Excluded(n) => n + 1,
        Bound::Unbounded => 0,
    };
    let end = match end {
        Bound::Included(n) => n + 1,
        Bound::Excluded(n) => n,
        Bound::Unbounded => len,
    };
    (sta, end)
}

/// Operators by the symbol that introduces them.
pub struct OpMap<T: Copy> {
    map: Vec<(String, T)>,
}

impl<T: Copy> OpMap<T> {
    /// No symbol is registered twice.
    pub closed spec fn wf(self) -> bool {
        forall|i: int, j: int|
            0 <= i < j < self.map@.len() ==> #[trigger] self.map@[i].0@ != #[trigger] self.map@[j].0@
    }

    /// Operator registered for `symbol`.
    pub closed spec fn get(self, symbol: Seq<char>) -> Option<T> {
        if exists|i: int| 0 <= i < self.map@.len() && #[trigger] self.map@[i].0@ == symbol {
            let i = choose|i: int| 0 <= i < self.map@.len() && #[trigger] self.map@[i].0@ == symbol;
            Some(self.map@[i].1)
        } else {
            None
        }
    }

    /// An empty table.
    pub fn new() -> (m: OpMap<T>)
        ensures
            m.wf(),
            forall|s: Seq<char>| #[trigger] m.get(s) is None,
    {
        OpMap { map: Vec::new() }
    }

    fn find(&self, symbol: &str) -> (res: Option<usize>)
        requires
            self.wf(),
        ensures
            match res {
                Some(i) => i < self.map@.len() && self.map@[i as int].0@ == symbol@ && self.get(
                    symbol@,
                ) == Some(self.map@[i as int].1),
                None => self.get(symbol@) is None && forall|j: int|
                    0 <= j < self.map@.len() ==> #[trigger] self.map@[j].0@ != symbol@,
            },
    {
        let mut i: usize = 0;
        while i < self.map.len()
            invariant
                self.wf(),
                0 <= i <= self.map@.len(),
                forall|j: int| 0 <= j < i ==> #[trigger] self.map@[j].0@ != symbol@,
            decreases self.map@.len() - i,
        {
            if str_eq(self.map[i].0.as_str(), symbol) {
                proof {
                    let k = choose|k: int| 0 <= k < self.map@.len() && #[trigger] self.map@[k].0@ == symbol@;
                    if k != i {
                        if k < i {
                            assert(self.map@[k].0@ != self.map@[i as int].0@);
                        } else {
                            assert(0 <= i < k < self.map@.len());
                            assert(self.map@[i as int].0@ != self.map@[k].0@);
                        }
                    }
                }
                return Some(i);
            }
            i = i + 1;
        }
        None
    }

    /// Registers `op` for `symbol`, replacing an earlier one.
    pub fn add(&mut self, symbol: &str, op: T)
        requires
            old(self).wf(),
        ensures
            final(self).wf(),
            final(self).get(symbol@) == Some(op),
            forall|s: Seq<char>| s != symbol@ ==> #[trigger] final(self).get(s) == old(self).get(s),
    {
        let ghost before = *self;
        match self.find(symbol) {
            Some(i) => {
                let key = self.map[i].0.clone();
                self.map.set(i, (key, op));
                proof {
                    assert forall|s: Seq<char>| s != symbol@ implies #[trigger] self.get(s) == before.get(s) by {
                        if exists|k: int| 0 <= k < self.map@.len() && #[trigger] self.map@[k].0@ == s {
                            let k = choose|k: int| 0 <= k < self.map@.len() && #[trigger] self.map@[k].0@ == s;
                            assert(before.map@[k].0@ == s);
                        }
                        if exists|k: int| 0 <= k < before.map@.len() && #[trigger] before.map@[k].0@ == s {
                            let k = choose|k: int| 0 <= k < before.map@.len() && #[trigger] before.map@[k].0@ == s;
                            assert(self.map@[k].0@ == s);
                        }
                    }
                    assert(self.get(symbol@) == Some(op)) by {
                        assert(self.map@[i as int].0@ == symbol@);
                        let k = choose|k: int| 0 <= k < self.map@.len() && #[trigger] self.map@[k].0@ == symbol@;
                        if k != i {
                            if k < i {
                                assert(self.map@[k].0@ != self.map@[i as int].0@);
                            } else {
                                assert(0 <= i < k < self.map@.len());
                                assert(self.map@[i as int].0@ != self.map@[k].0@);
                            }
                        }
                    }
                }
            },
            None => {
                self.map.push((symbol.to_owned(), op));
                proof {
                    let n = before.map@.len() as int;
                    assert(self.map@[n].0@ == symbol@);
                    assert forall|s: Seq<char>| s != symbol@ implies #[trigger] self.get(s) == before.get(s) by {
                        if exists|k: int| 0 <= k < self.map@.len() && #[trigger] self.map@[k].0@ == s {
                            let k = choose|k: int| 0 <= k < self.map@.len() && #[trigger] self.map@[k].0@ == s;
                            assert(before.map@[k].0@ == s);
                        }
                        if exists|k: int| 0 <= k < before.map@.len() && #[trigger] before.map@[k].0@ == s {
                            let k = choose|k: int| 0 <= k < before.map@.len() && #[trigger] before.map@[k].0@ == s;
                            assert(self.map@[k].0@ == s);
                        }
                    }
                    assert(self.get(symbol@) == Some(op)) by {
                        let k = choose|k: int| 0 <= k < self.map@.len() && #[trigger] self.map@[k].0@ == symbol@;
                        if k != n {
                            assert(before.map@[k].0@ != symbol@);
                        }
                    }
                }
            },
        }
    }

    /// True when an operator is registered for `symbol`.
    pub fn contains(&self, symbol: &str) -> (b: bool)
        requires
            self.wf(),
        ensures
            b == self.get(symbol@) is Some,
    {
        self.find(symbol).is_some()
    }

    /// Operator for a symbol or word node.
    pub fn op_for_node(&self, node: &Node) -> (res: Option<T>)
        requires
            self.wf(),
        ensures
            res == match *node {
                Node::Symbol(s) => self.get(s@),
                Node::Word(s) => self.get(s@),
                _ => None,
            },
    {
        let symbol = match node {
            Node::Symbol(s) => s.as_str(),
            Node::Word(s) => s.as_str(),
            _ => {
                return None;
            },
        };
        match self.find(symbol) {
            Some(i) => Some(self.map[i].1),
            None => None,
        }
    }
}

} // verus!
