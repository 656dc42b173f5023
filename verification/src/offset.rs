//! Code offsets used for name binding, and the list of bindings of a name.

use vstd::prelude::*;

use crate::errors::{ErrorView, Errors};
use crate::span::Span;
use crate::text::{chars_to_string, decimal, push_decimal, push_str};

verus! {

/// Position of a declaration in a scope. A name declared `At` an offset is
/// visible from that offset forward; a `Static` one anywhere in its scope.
#[derive(Clone, Copy, Debug, PartialEq, Eq, Structural, Hash)]
pub enum CodeOffset {
    Static,
    At(usize),
}

impl CodeOffset {
    /// The offset, zero for a static declaration.
    pub fn value(&self) -> (v: usize)
        ensures
            v == match *self {
                CodeOffset::Static => 0,
                CodeOffset::At(n) => n,
            },
    {
        match self {
            CodeOffset::Static => 0,
            CodeOffset::At(offset) => *offset,
        }
    }

    /// Text of the offset as used in messages.
    pub fn to_text(&self) -> (s: String)
        ensures
            s@ == self.describe(),
    {
        let mut out: Vec<char> = Vec::new();
        match self {
            CodeOffset::Static => push_str(&mut out, "static scope"),
            CodeOffset::At(n) => {
                push_str(&mut out, "offset ");
                push_decimal(&mut out, *n);
            },
        }
        chars_to_string(out.as_slice())
    }

    /// Text of the offset as used in messages.
    pub open spec fn describe(self) -> Seq<char> {
        match self {
            CodeOffset::Static => "static scope"@,
            CodeOffset::At(n) => "offset "@ + decimal(n as nat),
        }
    }
}

/// Values bound to one name, each at its own offset.
pub struct BindingList<V> {
    name: String,
    values: Vec<(CodeOffset, V)>,
}

/// The offset of the binding visible at `offset` among `keys`: for a
/// position, the latest binding at or before it, else the static one; for
/// the static scope, the static binding.
pub open spec fn visible(keys: Set<CodeOffset>, offset: CodeOffset) -> Option<CodeOffset> {
    let static_offset = if keys.contains(CodeOffset::Static) {
        Some(CodeOffset::Static)
    } else {
        None
    };
    match offset {
        CodeOffset::Static => static_offset,
        CodeOffset::At(n) => if exists|b: usize|
            b <= n && #[trigger] keys.contains(CodeOffset::At(b)) && forall|c: usize|
                c <= n && #[trigger] keys.contains(CodeOffset::At(c)) ==> c <= b {
            let b = choose|b: usize|
                b <= n && #[trigger] keys.contains(CodeOffset::At(b)) && forall|c: usize|
                    c <= n && #[trigger] keys.contains(CodeOffset::At(c)) ==> c <= b;
            Some(CodeOffset::At(b))
        } else {
            static_offset
        },
    }
}

impl<V> BindingList<V> {
    /// No offset is bound twice.
    pub closed spec fn wf(self) -> bool {
        forall|i: int, j: int|
            0 <= i < j < self.values@.len() ==> #[trigger] self.values@[i].0 != #[trigger] self.values@[j].0
    }

    /// The bound name.
    pub closed spec fn name_view(self) -> Seq<char> {
        self.name@
    }

    /// The bindings, by offset.
    pub closed spec fn bindings(self) -> Map<CodeOffset, V> {
        Map::new(
            |k: CodeOffset| exists|i: int| 0 <= i < self.values@.len() && self.values@[i].0 == k,
            |k: CodeOffset|
                self.values@[choose|i: int| 0 <= i < self.values@.len() && self.values@[i].0 == k].1,
        )
    }

    /// No bindings for `name`.
    pub fn new(name: &str) -> (b: BindingList<V>)
        ensures
            b.wf(),
            b.name_view() == name@,
            b.bindings() == Map::<CodeOffset, V>::empty(),
    {
        let b = BindingList { name: name.to_owned(), values: Vec::new() };
        assert(b.bindings() =~= Map::<CodeOffset, V>::empty());
        b
    }

    /// The bound name.
    pub fn name(&self) -> (s: &str)
        ensures
            s@ == self.name_view(),
    {
        self.name.as_str()
    }

    /// Index of the binding at `offset`.
    fn find(&self, offset: CodeOffset) -> (res: Option<usize>)
        requires
            self.wf(),
        ensures
            match res {
                Some(i) => i < self.values@.len() && self.values@[i as int].0 == offset,
                None => forall|i: int| 0 <= i < self.values@.len() ==> self.values@[i].0 != offset,
            },
    {
        let mut i: usize = 0;
        while i < self.values.len()
            invariant
                0 <= i <= self.values@.len(),
                forall|j: int| 0 <= j < i ==> self.values@[j].0 != offset,
            decreases self.values@.len() - i,
        {
            if self.values[i].0 == offset {
                return Some(i);
            }
            i = i + 1;
        }
        None
    }

    proof fn lemma_binding_at(self, i: int)
        requires
            self.wf(),
            0 <= i < self.values@.len(),
        ensures
            self.bindings().contains_key(self.values@[i].0),
            self.bindings()[self.values@[i].0] == self.values@[i].1,
    {
        let k = self.values@[i].0;
        assert(exists|j: int| 0 <= j < self.values@.len() && self.values@[j].0 == k);
        let j = choose|j: int| 0 <= j < self.values@.len() && self.values@[j].0 == k;
        if j != i {
            if j < i {
                assert(self.values@[j].0 != self.values@[i].0);
            } else {
                assert(self.values@[i].0 != self.values@[j].0);
            }
        }
    }

    /// The value visible at `offset`.
    pub fn get(&self, offset: &CodeOffset) -> (res: Option<&V>)
        requires
            self.wf(),
        ensures
            match visible(self.bindings().dom(), *offset) {
                Some(k) => res is Some && *res.unwrap() == self.bindings()[k],
                None => res is None,
            },
    {
        let index = self.lookup_index(offset);
        proof {
            if let Some(k) = index {
                assert(self.bindings().dom().contains(k));
            }
        }
        match index {
            Some(k) => match self.find(k) {
                Some(i) => {
                    proof {
                        self.lemma_binding_at(i as int);
                    }
                    Some(&self.values[i].1)
                },
                None => None,
            },
            None => None,
        }
    }

    /// Binds `value` at `offset`. An offset already bound is an error at
    /// `span`, the location of the value.
    pub fn set(&mut self, offset: CodeOffset, value: V, span: Span) -> (res: Result<(), Errors>)
        requires
            old(self).wf(),
        ensures
            final(self).wf(),
            final(self).name_view() == old(self).name_view(),
            res is Ok <==> !old(self).bindings().contains_key(offset),
            res is Ok ==> final(self).bindings() == old(self).bindings().insert(offset, value),
            res is Err ==> final(self).bindings() == old(self).bindings(),
            res matches Err(e) ==> e@ == seq![
                ErrorView {
                    message: "`"@ + old(self).name_view() + "` already bound at "@ + offset.describe(),
                    span: span@,
                },
            ],
    {
        match self.find(offset) {
            Some(i) => {
                proof {
                    self.lemma_binding_at(i as int);
                }
                let mut out: Vec<char> = Vec::new();
                push_str(&mut out, "`");
                push_str(&mut out, self.name.as_str());
                push_str(&mut out, "` already bound at ");
                match offset {
                    CodeOffset::Static => push_str(&mut out, "static scope"),
                    CodeOffset::At(n) => {
                        push_str(&mut out, "offset ");
                        push_decimal(&mut out, n);
                    },
                }
                proof {
                    assert(out@ =~= "`"@ + self.name@ + "` already bound at "@ + offset.describe());
                }
                let message = chars_to_string(out.as_slice());
                Err(Errors::from_at(message.as_str(), span))
            },
            None => {
                let ghost before = *self;
                self.values.push((offset, value));
                proof {
                    let n = before.values@.len() as int;
                    assert forall|i: int, j: int|
                        0 <= i < j < self.values@.len() implies #[trigger] self.values@[i].0
                        != #[trigger] self.values@[j].0 by {
                        if j < n {
                            assert(before.values@[i].0 != before.values@[j].0);
                        }
                    }
                    assert forall|k: CodeOffset| #[trigger] self.bindings().contains_key(k)
                        == before.bindings().insert(offset, value).contains_key(k) by {
                        if before.bindings().contains_key(k) {
                            let j = choose|j: int| 0 <= j < before.values@.len() && before.values@[j].0 == k;
                            assert(self.values@[j].0 == k);
                        }
                        if k == offset {
                            assert(self.values@[n].0 == k);
                        }
                        if self.bindings().contains_key(k) && k != offset {
                            let j = choose|j: int| 0 <= j < self.values@.len() && self.values@[j].0 == k;
                            assert(j < n);
                            assert(before.values@[j].0 == k);
                        }
                    }
                    assert forall|k: CodeOffset| #[trigger] self.bindings().contains_key(k) implies
                        self.bindings()[k] == before.bindings().insert(offset, value)[k] by {
                        let j = choose|j: int| 0 <= j < self.values@.len() && self.values@[j].0 == k;
                        self.lemma_binding_at(j);
                        if j < n {
                            before.lemma_binding_at(j);
                        }
                    }
                    assert(self.bindings() =~= before.bindings().insert(offset, value));
                }
                Ok(())
            },
        }
    }

    /// Offset of the binding visible at `offset`.
    pub fn lookup_index(&self, offset: &CodeOffset) -> (res: Option<CodeOffset>)
        requires
            self.wf(),
        ensures
            res == visible(self.bindings().dom(), *offset),
    {
        let ghost keys = self.bindings().dom();
        proof {
            assert forall|k: CodeOffset| keys.contains(k) <==> exists|i: int|
                0 <= i < self.values@.len() && self.values@[i].0 == k by {}
        }
        let has_static = match self.find(CodeOffset::Static) {
            Some(i) => {
                assert(keys.contains(self.values@[i as int].0));
                true
            },
            None => false,
        };
        let static_offset = if has_static {
            Some(CodeOffset::Static)
        } else {
            None
        };
        match offset {
            CodeOffset::Static => static_offset,
            CodeOffset::At(n) => {
                let n = *n;
                let mut best: Option<usize> = None;
                let mut i: usize = 0;
                while i < self.values.len()
                    invariant
                        0 <= i <= self.values@.len(),
                        keys == self.bindings().dom(),
                        forall|k: CodeOffset| keys.contains(k) <==> exists|j: int|
                            0 <= j < self.values@.len() && self.values@[j].0 == k,
                        match best {
                            Some(b) => b <= n && keys.contains(CodeOffset::At(b)) && forall|j: int|
                                0 <= j < i ==> match #[trigger] self.values@[j].0 {
                                    CodeOffset::At(c) => c <= n ==> c <= b,
                                    CodeOffset::Static => true,
                                },
                            None => forall|j: int|
                                0 <= j < i ==> match #[trigger] self.values@[j].0 {
                                    CodeOffset::At(c) => c > n,
                                    CodeOffset::Static => true,
                                },
                        },
                    decreases self.values@.len() - i,
                {
                    match self.values[i].0 {
                        CodeOffset::At(c) => {
                            if c <= n {
                                let better = match best {
                                    Some(b) => c > b,
                                    None => true,
                                };
                                if better {
                                    assert(keys.contains(self.values@[i as int].0));
                                    best = Some(c);
                                }
                            }
                        },
                        CodeOffset::Static => {},
                    }
                    i = i + 1;
                }
                match best {
                    Some(b) => {
                        proof {
                            assert forall|c: usize| c <= n && #[trigger] keys.contains(CodeOffset::At(c)) implies c <= b by {
                                let j = choose|j: int| 0 <= j < self.values@.len() && self.values@[j].0 == CodeOffset::At(c);
                            }
                            let w = choose|w: usize|
                                w <= n && #[trigger] keys.contains(CodeOffset::At(w)) && forall|c: usize|
                                    c <= n && #[trigger] keys.contains(CodeOffset::At(c)) ==> c <= w;
                            assert(w <= b && b <= w);
                        }
                        Some(CodeOffset::At(b))
                    },
                    None => {
                        proof {
                            assert forall|c: usize| c <= n implies !#[trigger] keys.contains(CodeOffset::At(c)) by {
                                if keys.contains(CodeOffset::At(c)) {
                                    let j = choose|j: int| 0 <= j < self.values@.len() && self.values@[j].0 == CodeOffset::At(c);
                                }
                            }
                        }
                        static_offset
                    },
                }
            },
        }
    }
}


/// A binding at a position is the one visible at that position.
pub proof fn lemma_visible_own(keys: Set<CodeOffset>, n: usize)
    requires
        keys.contains(CodeOffset::At(n)),
    ensures
        visible(keys, CodeOffset::At(n)) == Some(CodeOffset::At(n)),
{
    let k = CodeOffset::At(n);
    assert(n <= n && keys.contains(CodeOffset::At(n)) && forall|c: usize|
        c <= n && #[trigger] keys.contains(CodeOffset::At(c)) ==> c <= n);
}

/// A static binding is visible from every position that sees no binding
/// declared at or before it.
pub proof fn lemma_visible_static(keys: Set<CodeOffset>, n: usize)
    requires
        keys.contains(CodeOffset::Static),
        forall|c: usize| c <= n ==> !#[trigger] keys.contains(CodeOffset::At(c)),
    ensures
        visible(keys, CodeOffset::At(n)) == Some(CodeOffset::Static),
{
}

} // verus!
