//! Scopes: a tree of binding tables with a scanner configuration. A child
//! scope sees the bindings and the scanner of its ancestors unless it
//! overrides them.

use vstd::prelude::*;

use crate::errors::Errors;
use crate::matcher::Matcher;
use crate::offset::{visible, BindingList, CodeOffset};
use crate::span::Span;
use crate::token::str_eq;

verus! {

/// Handle to a scope of a [`ScopeList`].
#[derive(Clone, Copy, Debug, PartialEq, Eq, Structural)]
pub struct ScopeHandle {
    index: usize,
}

struct ScopeData<V> {
    parent: Option<usize>,
    matcher: Option<Matcher>,
    bindings: Vec<BindingList<V>>,
}

/// All scopes of a program, starting with the root scope.
pub struct ScopeList<V> {
    scopes: Vec<ScopeData<V>>,
}

/// Read access to a scope.
#[derive(Clone, Copy)]
pub struct Scope {
    handle: ScopeHandle,
}

/// Write access to a scope.
pub struct ScopeWriter {
    handle: ScopeHandle,
}

impl ScopeHandle {
    pub closed spec fn id(self) -> int {
        self.index as int
    }

    /// Read access to the scope.
    pub fn get(&self) -> (s: Scope)
        ensures
            s.handle_of() == *self,
    {
        Scope { handle: *self }
    }
}

impl Scope {
    pub closed spec fn handle_of(self) -> ScopeHandle {
        self.handle
    }

    /// Handle to the scope.
    pub fn handle(&self) -> (h: ScopeHandle)
        ensures
            h == self.handle_of(),
    {
        self.handle
    }
}

impl ScopeWriter {
    pub closed spec fn handle_of(self) -> ScopeHandle {
        self.handle
    }
}

/// Bindings of `name` in a scope: the values of its binding list, if it
/// has one.
pub open spec fn bindings_of<V>(lists: Seq<BindingList<V>>, name: Seq<char>) -> Map<CodeOffset, V> {
    if exists|i: int| 0 <= i < lists.len() && #[trigger] lists[i].name_view() == name {
        let i = choose|i: int| 0 <= i < lists.len() && #[trigger] lists[i].name_view() == name;
        lists[i].bindings()
    } else {
        Map::empty()
    }
}

impl<V> ScopeList<V> {
    /// Parents come before their children, binding lists are well formed
    /// and each name has at most one.
    pub closed spec fn wf(self) -> bool {
        &&& self.scopes@.len() > 0
        &&& self.scopes@[0].parent is None
        &&& forall|s: int|
            0 <= s < self.scopes@.len() ==> match #[trigger] self.scopes@[s].parent {
                Some(p) => p < s,
                None => true,
            }
        &&& forall|s: int, i: int|
            0 <= s < self.scopes@.len() && 0 <= i < self.scopes@[s].bindings@.len()
                ==> #[trigger] self.scopes@[s].bindings@[i].wf()
        &&& forall|s: int, i: int, j: int|
            0 <= s < self.scopes@.len() && 0 <= i < j < self.scopes@[s].bindings@.len()
                ==> #[trigger] self.scopes@[s].bindings@[i].name_view()
                != #[trigger] self.scopes@[s].bindings@[j].name_view()
    }

    /// Number of scopes.
    pub closed spec fn len(self) -> int {
        self.scopes@.len() as int
    }

    /// The handle names a scope of the list.
    pub open spec fn contains(self, h: ScopeHandle) -> bool {
        0 <= h.id() < self.len()
    }

    /// Parent of scope `s`.
    pub closed spec fn parent_of(self, s: int) -> Option<int> {
        match self.scopes@[s].parent {
            Some(p) => Some(p as int),
            None => None,
        }
    }

    /// Bindings of `name` declared in scope `s` itself.
    pub closed spec fn local(self, s: int, name: Seq<char>) -> Map<CodeOffset, V> {
        bindings_of(self.scopes@[s].bindings@, name)
    }

    /// Scanner set in scope `s` itself.
    pub closed spec fn local_matcher(self, s: int) -> Option<Matcher> {
        self.scopes@[s].matcher
    }

    /// The binding of `name` visible at `offset` from scope `s`: the one of
    /// the scope itself, else the one seen from its parent.
    pub open spec fn lookup_from(self, s: int, name: Seq<char>, offset: CodeOffset) -> Option<(int, CodeOffset)>
        decreases s,
    {
        if s < 0 || s >= self.len() {
            None
        } else {
            match visible(self.local(s, name).dom(), offset) {
                Some(k) => Some((s, k)),
                None => match self.parent_of(s) {
                    Some(p) => if p < s {
                        self.lookup_from(p, name, offset)
                    } else {
                        None
                    },
                    None => None,
                },
            }
        }
    }

    /// The scanner seen from scope `s`: its own, else its parent's.
    pub open spec fn matcher_from(self, s: int) -> Option<Matcher>
        decreases s,
    {
        if s < 0 || s >= self.len() {
            None
        } else {
            match self.local_matcher(s) {
                Some(m) => Some(m),
                None => match self.parent_of(s) {
                    Some(p) => if p < s {
                        self.matcher_from(p)
                    } else {
                        None
                    },
                    None => None,
                },
            }
        }
    }

    /// A list with only an empty root scope.
    pub fn new() -> (l: ScopeList<V>)
        ensures
            l.wf(),
            l.len() == 1,
            l.parent_of(0) is None,
            l.local_matcher(0) is None,
            forall|name: Seq<char>| #[trigger] l.local(0, name) == Map::<CodeOffset, V>::empty(),
    {
        let mut scopes: Vec<ScopeData<V>> = Vec::new();
        scopes.push(ScopeData { parent: None, matcher: None, bindings: Vec::new() });
        ScopeList { scopes }
    }

    /// The root scope.
    pub fn get_root(&self) -> (s: Scope)
        ensures
            s.handle_of().id() == 0,
    {
        Scope { handle: ScopeHandle { index: 0 } }
    }

    /// Write access to the root scope.
    pub fn get_root_writer(&self) -> (w: ScopeWriter)
        ensures
            w.handle_of().id() == 0,
    {
        self.get_writer(self.get_root())
    }

    /// Write access to `scope`, which must belong to this list.
    pub fn get_writer(&self, scope: Scope) -> (w: ScopeWriter)
        ensures
            w.handle_of() == scope.handle_of(),
    {
        ScopeWriter { handle: scope.handle }
    }

    /// Parent of `scope`.
    pub fn parent(&self, scope: &Scope) -> (p: Option<Scope>)
        requires
            self.wf(),
            self.contains(scope.handle_of()),
        ensures
            match p {
                Some(p) => self.parent_of(scope.handle_of().id()) == Some(p.handle_of().id()),
                None => self.parent_of(scope.handle_of().id()) is None,
            },
    {
        match self.scopes[scope.handle.index].parent {
            Some(p) => Some(Scope { handle: ScopeHandle { index: p } }),
            None => None,
        }
    }

    /// Adds an empty child of `scope`.
    pub fn new_child(&mut self, scope: &Scope) -> (child: ScopeHandle)
        requires
            old(self).wf(),
            old(self).contains(scope.handle_of()),
            old(self).len() < usize::MAX,
        ensures
            final(self).wf(),
            final(self).len() == old(self).len() + 1,
            child.id() == old(self).len(),
            final(self).parent_of(child.id()) == Some(scope.handle_of().id()),
            final(self).local_matcher(child.id()) is None,
            forall|name: Seq<char>| #[trigger] final(self).local(child.id(), name) == Map::<
                CodeOffset,
                V,
            >::empty(),
            forall|s: int, name: Seq<char>|
                0 <= s < old(self).len() ==> #[trigger] final(self).local(s, name) == old(self).local(
                    s,
                    name,
                ),
            forall|s: int|
                0 <= s < old(self).len() ==> #[trigger] final(self).parent_of(s) == old(self).parent_of(s) && final(self).local_matcher(s) == old(self).local_matcher(s),
    {
        let index = self.scopes.len();
        self.scopes.push(
            ScopeData { parent: Some(scope.handle.index), matcher: None, bindings: Vec::new() },
        );
        proof {
            assert forall|s: int, name: Seq<char>|
                0 <= s < old(self).len() implies #[trigger] self.local(s, name) == old(self).local(
                    s,
                    name,
                ) by {
                assert(self.scopes@[s] == old(self).scopes@[s]);
            }
        }
        ScopeHandle { index }
    }

    /// The scanner of `scope`: its own, else the nearest ancestor's.
    pub fn matcher(&self, scope: &Scope) -> (m: Option<&Matcher>)
        requires
            self.wf(),
            self.contains(scope.handle_of()),
        ensures
            match m {
                Some(m) => self.matcher_from(scope.handle_of().id()) == Some(*m),
                None => self.matcher_from(scope.handle_of().id()) is None,
            },
    {
        let mut s = scope.handle.index;
        loop
            invariant
                self.wf(),
                0 <= s < self.len(),
                self.matcher_from(s as int) == self.matcher_from(scope.handle_of().id()),
            decreases s,
        {
            match &self.scopes[s].matcher {
                Some(m) => {
                    return Some(m);
                },
                None => match self.scopes[s].parent {
                    Some(p) => {
                        s = p;
                    },
                    None => {
                        return None;
                    },
                },
            }
        }
    }

    fn find_list(&self, s: usize, name: &str) -> (res: Option<usize>)
        requires
            self.wf(),
            s < self.len(),
        ensures
            match res {
                Some(i) => i < self.scopes@[s as int].bindings@.len()
                    && self.scopes@[s as int].bindings@[i as int].name_view() == name@
                    && self.local(s as int, name@) == self.scopes@[s as int].bindings@[i as int].bindings(),
                None => self.local(s as int, name@) == Map::<CodeOffset, V>::empty() && forall|j: int|
                    0 <= j < self.scopes@[s as int].bindings@.len()
                        ==> #[trigger] self.scopes@[s as int].bindings@[j].name_view() != name@,
            },
    {
        let lists = &self.scopes[s].bindings;
        let mut i: usize = 0;
        while i < lists.len()
            invariant
                self.wf(),
                s < self.len(),
                *lists == self.scopes@[s as int].bindings,
                0 <= i <= lists@.len(),
                forall|j: int| 0 <= j < i ==> #[trigger] lists@[j].name_view() != name@,
            decreases lists@.len() - i,
        {
            if str_eq(lists[i].name(), name) {
                proof {
                    let k = choose|k: int| 0 <= k < lists@.len() && #[trigger] lists@[k].name_view() == name@;
                    if k != i {
                        if k < i {
                        } else {
                            assert(lists@[i as int].name_view() != lists@[k].name_view());
                        }
                    }
                }
                return Some(i);
            }
            i = i + 1;
        }
        None
    }

    /// The binding of `name` visible at `offset` from `scope`.
    pub fn lookup(&self, scope: &Scope, name: &str, offset: &CodeOffset) -> (res: Option<CodeOffset>)
        requires
            self.wf(),
            self.contains(scope.handle_of()),
        ensures
            match self.lookup_from(scope.handle_of().id(), name@, *offset) {
                Some((_, k)) => res == Some(k),
                None => res is None,
            },
    {
        let mut s = scope.handle.index;
        loop
            invariant
                self.wf(),
                0 <= s < self.len(),
                self.lookup_from(s as int, name@, *offset) == self.lookup_from(
                    scope.handle_of().id(),
                    name@,
                    *offset,
                ),
            decreases s,
        {
            let found = match self.find_list(s, name) {
                Some(i) => {
                    proof {
                        assert(self.scopes@[s as int].bindings@[i as int].wf());
                    }
                    self.scopes[s].bindings[i].lookup_index(offset)
                },
                None => {
                    proof {
                        assert(Map::<CodeOffset, V>::empty().dom() =~= Set::<CodeOffset>::empty());
                        lemma_visible_empty(*offset);
                    }
                    None
                },
            };
            match found {
                Some(k) => {
                    return Some(k);
                },
                None => match self.scopes[s].parent {
                    Some(p) => {
                        s = p;
                    },
                    None => {
                        return None;
                    },
                },
            }
        }
    }

    /// The value bound to `name` visible at `offset` from `scope`.
    pub fn get(&self, scope: &Scope, name: &str, offset: &CodeOffset) -> (res: Option<&V>)
        requires
            self.wf(),
            self.contains(scope.handle_of()),
        ensures
            match self.lookup_from(scope.handle_of().id(), name@, *offset) {
                Some((s, k)) => res is Some && *res.unwrap() == self.local(s, name@)[k],
                None => res is None,
            },
    {
        let mut s = scope.handle.index;
        loop
            invariant
                self.wf(),
                0 <= s < self.len(),
                self.lookup_from(s as int, name@, *offset) == self.lookup_from(
                    scope.handle_of().id(),
                    name@,
                    *offset,
                ),
            decreases s,
        {
            match self.find_list(s, name) {
                Some(i) => {
                    proof {
                        assert(self.scopes@[s as int].bindings@[i as int].wf());
                    }
                    let list = &self.scopes[s].bindings[i];
                    match list.get(offset) {
                        Some(v) => {
                            return Some(v);
                        },
                        None => {},
                    }
                },
                None => {
                    proof {
                        assert(Map::<CodeOffset, V>::empty().dom() =~= Set::<CodeOffset>::empty());
                        lemma_visible_empty(*offset);
                    }
                },
            }
            match self.scopes[s].parent {
                Some(p) => {
                    s = p;
                },
                None => {
                    return None;
                },
            }
        }
    }

    /// Sets the scanner of the writer's scope.
    pub fn set_matcher(&mut self, writer: &ScopeWriter, matcher: Matcher)
        requires
            old(self).wf(),
            old(self).contains(writer.handle_of()),
        ensures
            final(self).wf(),
            final(self).len() == old(self).len(),
            final(self).local_matcher(writer.handle_of().id()) == Some(matcher),
            forall|s: int|
                0 <= s < old(self).len() && s != writer.handle_of().id() ==> #[trigger] final(self).local_matcher(s) == old(self).local_matcher(s),
            forall|s: int, name: Seq<char>|
                0 <= s < old(self).len() ==> #[trigger] final(self).local(s, name) == old(self).local(
                    s,
                    name,
                ),
            forall|s: int|
                0 <= s < old(self).len() ==> #[trigger] final(self).parent_of(s) == old(self).parent_of(s),
    {
        let s = writer.handle.index;
        let mut data = ScopeData { parent: None, matcher: None, bindings: Vec::new() };
        self.scopes.set_and_swap(s, &mut data);
        data.matcher = Some(matcher);
        self.scopes.set_and_swap(s, &mut data);
        proof {
            assert forall|t: int, name: Seq<char>|
                0 <= t < old(self).len() implies #[trigger] self.local(t, name) == old(self).local(
                    t,
                    name,
                ) by {
                assert(self.scopes@[t].bindings == old(self).scopes@[t].bindings);
            }
        }
    }

    /// Binds `value` to `name` at `offset` in the writer's scope. An offset
    /// already bound for the name is an error at `span`.
    pub fn set(
        &mut self,
        writer: &ScopeWriter,
        name: &str,
        offset: CodeOffset,
        value: V,
        span: Span,
    ) -> (res: Result<(), Errors>)
        requires
            old(self).wf(),
            old(self).contains(writer.handle_of()),
        ensures
            final(self).wf(),
            final(self).len() == old(self).len(),
            res is Ok <==> !old(self).local(writer.handle_of().id(), name@).contains_key(offset),
            res is Ok ==> final(self).local(writer.handle_of().id(), name@) == old(self).local(
                writer.handle_of().id(),
                name@,
            ).insert(offset, value),
            res is Err ==> final(self).local(writer.handle_of().id(), name@) == old(self).local(
                writer.handle_of().id(),
                name@,
            ),
            forall|s: int, n: Seq<char>|
                0 <= s < old(self).len() && (s != writer.handle_of().id() || n != name@)
                    ==> #[trigger] final(self).local(s, n) == old(self).local(s, n),
            forall|s: int|
                0 <= s < old(self).len() ==> #[trigger] final(self).parent_of(s) == old(self).parent_of(s) && final(self).local_matcher(s) == old(self).local_matcher(s),
    {
        let s = writer.handle.index;
        let found = self.find_list(s, name);
        let ghost before = self.scopes@;
        let mut data = ScopeData { parent: None, matcher: None, bindings: Vec::new() };
        self.scopes.set_and_swap(s, &mut data);
        let ghost old_lists = data.bindings@;
        proof {
            assert(distinct_names(old_lists)) by {
                assert forall|i: int, j: int| 0 <= i < j < old_lists.len() implies #[trigger] old_lists[i].name_view()
                    != #[trigger] old_lists[j].name_view() by {
                    assert(before[s as int].bindings@ == old_lists);
                }
            }
        }
        let res = match found {
            Some(i) => {
                let mut list = BindingList::new("");
                data.bindings.set_and_swap(i, &mut list);
                proof {
                    assert(before[s as int].bindings@[i as int].wf());
                }
                let res = list.set(offset, value, span);
                data.bindings.set_and_swap(i, &mut list);
                res
            },
            None => {
                let mut list = BindingList::new(name);
                let res = list.set(offset, value, span);
                data.bindings.push(list);
                res
            },
        };
        let ghost new_lists = data.bindings@;
        proof {
            match found {
                Some(i) => {
                    assert(new_lists =~= old_lists.update(i as int, new_lists[i as int]));
                },
                None => {
                    assert(new_lists.drop_last() =~= old_lists);
                },
            }
            assert(distinct_names(new_lists)) by {
                assert forall|a: int, b: int| 0 <= a < b < new_lists.len() implies #[trigger] new_lists[a].name_view()
                    != #[trigger] new_lists[b].name_view() by {
                    match found {
                        Some(i) => {
                            if a != i && b != i {
                                assert(old_lists[a].name_view() != old_lists[b].name_view());
                            }
                        },
                        None => {
                            if b < old_lists.len() {
                                assert(old_lists[a].name_view() != old_lists[b].name_view());
                            }
                        },
                    }
                }
            }
            match found {
                Some(i) => {
                    lemma_bindings_of_at(old_lists, i as int, name@);
                    lemma_bindings_of_at(new_lists, i as int, name@);
                },
                None => {
                    lemma_bindings_of_none(old_lists, name@);
                    lemma_bindings_of_at(new_lists, old_lists.len() as int, name@);
                },
            }
            assert forall|n: Seq<char>| n != name@ implies #[trigger] bindings_of(new_lists, n)
                == bindings_of(old_lists, n) by {
                if exists|j: int| 0 <= j < old_lists.len() && #[trigger] old_lists[j].name_view() == n {
                    let j = choose|j: int| 0 <= j < old_lists.len() && #[trigger] old_lists[j].name_view() == n;
                    lemma_bindings_of_at(old_lists, j, n);
                    assert(new_lists[j] == old_lists[j]);
                    lemma_bindings_of_at(new_lists, j, n);
                } else {
                    assert forall|j: int| 0 <= j < new_lists.len() implies #[trigger] new_lists[j].name_view() != n by {
                        if j < old_lists.len() {
                            assert(old_lists[j].name_view() != n);
                        }
                    }
                }
            }
        }
        self.scopes.set_and_swap(s, &mut data);
        proof {
            assert forall|t: int, i: int|
                0 <= t < self.scopes@.len() && 0 <= i < self.scopes@[t].bindings@.len()
                    implies #[trigger] self.scopes@[t].bindings@[i].wf() by {
                if t != s {
                    assert(self.scopes@[t] == before[t]);
                } else {
                    assert(self.scopes@[t].bindings@ == new_lists);
                }
            }
            assert forall|t: int, i: int, j: int|
                0 <= t < self.scopes@.len() && 0 <= i < j < self.scopes@[t].bindings@.len()
                    implies #[trigger] self.scopes@[t].bindings@[i].name_view()
                    != #[trigger] self.scopes@[t].bindings@[j].name_view() by {
                if t != s {
                    assert(self.scopes@[t] == before[t]);
                } else {
                    assert(self.scopes@[t].bindings@ == new_lists);
                }
            }
            assert forall|t: int, n: Seq<char>|
                0 <= t < old(self).len() && (t != s || n != name@)
                    implies #[trigger] self.local(t, n) == old(self).local(t, n) by {
                if t != s {
                    assert(self.scopes@[t] == before[t]);
                }
            }
        }
        res
    }
}

/// Binding lists with distinct names.
pub open spec fn distinct_names<V>(lists: Seq<BindingList<V>>) -> bool {
    forall|i: int, j: int|
        0 <= i < j < lists.len() ==> #[trigger] lists[i].name_view() != #[trigger] lists[j].name_view()
}

proof fn lemma_bindings_of_at<V>(lists: Seq<BindingList<V>>, j: int, name: Seq<char>)
    requires
        distinct_names(lists),
        0 <= j < lists.len(),
        lists[j].name_view() == name,
    ensures
        bindings_of(lists, name) == lists[j].bindings(),
{
    let k = choose|k: int| 0 <= k < lists.len() && #[trigger] lists[k].name_view() == name;
    if k != j {
        if k < j {
            assert(lists[k].name_view() != lists[j].name_view());
        } else {
            assert(lists[j].name_view() != lists[k].name_view());
        }
    }
}

proof fn lemma_bindings_of_none<V>(lists: Seq<BindingList<V>>, name: Seq<char>)
    requires
        forall|j: int| 0 <= j < lists.len() ==> #[trigger] lists[j].name_view() != name,
    ensures
        bindings_of(lists, name) == Map::<CodeOffset, V>::empty(),
{
}

proof fn lemma_visible_empty(offset: CodeOffset)
    ensures
        visible(Set::<CodeOffset>::empty(), offset) is None,
{
}

/// A name bound at a position in a scope is found there from that scope.
pub proof fn lemma_lookup_own<V>(l: ScopeList<V>, s: int, name: Seq<char>, n: usize)
    requires
        l.wf(),
        0 <= s < l.len(),
        l.local(s, name).contains_key(CodeOffset::At(n)),
    ensures
        l.lookup_from(s, name, CodeOffset::At(n)) == Some((s, CodeOffset::At(n))),
{
    crate::offset::lemma_visible_own(l.local(s, name).dom(), n);
}

/// A scope that has no visible binding of a name sees the binding its
/// parent sees.
pub proof fn lemma_lookup_inherits<V>(l: ScopeList<V>, s: int, name: Seq<char>, offset: CodeOffset)
    requires
        l.wf(),
        0 <= s < l.len(),
        visible(l.local(s, name).dom(), offset) is None,
        l.parent_of(s) is Some,
    ensures
        l.lookup_from(s, name, offset) == l.lookup_from(l.parent_of(s).unwrap(), name, offset),
{
    assert(l.scopes@[s].parent.unwrap() < s);
}

} // verus!
