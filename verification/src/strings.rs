//! Strings of the compiler core: static, shared, taken from an input, or
//! interned in a [`StrStore`].

use std::sync::Arc;
use vstd::prelude::*;
use vstd::string::StringSliceAdditionalSpecFns;

use crate::input::Span;
use crate::token::str_eq;

verus! {

/// Identifier of an interned string.
#[derive(Clone, Copy, Debug, PartialEq, Eq, Structural)]
pub struct StrId(pub usize);

/// Interned strings, each stored once.
pub struct StrStore {
    entries: Vec<String>,
}

impl StrStore {
    /// No string is stored twice.
    pub closed spec fn wf(self) -> bool {
        forall|i: int, j: int|
            0 <= i < j < self.entries@.len() ==> #[trigger] self.entries@[i]@ != #[trigger] self.entries@[j]@
    }

    /// The stored strings, by identifier.
    pub closed spec fn strings(self) -> Seq<Seq<char>> {
        self.entries@.map_values(|s: String| s@)
    }

    /// An empty store.
    pub fn new() -> (s: StrStore)
        ensures
            s.wf(),
            s.strings().len() == 0,
    {
        StrStore { entries: Vec::new() }
    }

    /// Number of stored strings.
    pub fn len(&self) -> (n: usize)
        ensures
            n == self.strings().len(),
    {
        self.entries.len()
    }

    /// The string with identifier `id`.
    pub fn get(&self, id: &StrId) -> (s: &str)
        requires
            id.0 < self.strings().len(),
        ensures
            s@ == self.strings()[id.0 as int],
    {
        self.entries[id.0].as_str()
    }

    /// Identifier of `text`, added to the store when it is new.
    pub fn add(&mut self, text: &str) -> (id: StrId)
        requires
            old(self).wf(),
        ensures
            final(self).wf(),
            id.0 < final(self).strings().len(),
            final(self).strings()[id.0 as int] == text@,
            old(self).strings().contains(text@) ==> final(self).strings() == old(self).strings(),
            !old(self).strings().contains(text@) ==> final(self).strings() == old(self).strings().push(text@),
    {
        let mut i: usize = 0;
        while i < self.entries.len()
            invariant
                0 <= i <= self.entries@.len(),
                self.wf(),
                *self == *old(self),
                forall|j: int| 0 <= j < i ==> #[trigger] self.entries@[j]@ != text@,
            decreases self.entries@.len() - i,
        {
            if str_eq(self.entries[i].as_str(), text) {
                return StrId(i);
            }
            i = i + 1;
        }
        let ghost before = self.strings();
        proof {
            if before.contains(text@) {
                let k = choose|k: int| 0 <= k < before.len() && before[k] == text@;
                assert(self.entries@[k]@ == text@);
            }
        }
        self.entries.push(text.to_owned());
        proof {
            assert(self.strings() =~= before.push(text@));
            assert forall|a: int, b: int|
                0 <= a < b < self.entries@.len() implies #[trigger] self.entries@[a]@
                != #[trigger] self.entries@[b]@ by {
                if b < before.len() {
                    assert(old(self).entries@[a]@ != old(self).entries@[b]@);
                }
            }
        }
        StrId(i)
    }
}

/// A string of the compiler core.
pub enum Str {
    Empty,
    Static(&'static str),
    Shared(Arc<String>),
    FromInput(Span),
    Interned(StrId),
}

impl Str {
    /// The string can be read with a store of `n` interned strings: an
    /// input span is ordered and within one input, an identifier is known.
    pub open spec fn valid(self, n: int) -> bool {
        match self {
            Str::FromInput(span) => span.sta@.src == span.end@.src && span.sta@.offset
                <= span.end@.offset,
            Str::Interned(id) => id.0 < n,
            _ => true,
        }
    }

    /// Text of the string, given the interned strings.
    pub open spec fn text(self, strings: Seq<Seq<char>>) -> Seq<char> {
        match self {
            Str::Empty => Seq::empty(),
            Str::Static(s) => s@,
            Str::Shared(s) => s@,
            Str::FromInput(span) => vstd::utf8::decode_utf8(
                span.sta@.src.bytes().subrange(span.sta@.offset, span.end@.offset),
            ),
            Str::Interned(id) => strings[id.0 as int],
        }
    }

    /// True when the string can be read with `store`.
    pub fn is_valid(&self, store: &StrStore) -> (b: bool)
        ensures
            b == self.valid(store.strings().len() as int),
    {
        match self {
            Str::FromInput(span) => span.sta.src().same_as(&span.end.src()) && span.sta.offset()
                <= span.end.offset(),
            Str::Interned(id) => id.0 < store.len(),
            _ => true,
        }
    }

    /// `text` interned in `store`.
    pub fn intern(store: &mut StrStore, text: &str) -> (s: Str)
        requires
            old(store).wf(),
        ensures
            final(store).wf(),
            s.valid(final(store).strings().len() as int),
            s.text(final(store).strings()) == text@,
            s is Interned,
            final(store).strings().len() >= old(store).strings().len(),
            final(store).strings().take(old(store).strings().len() as int) == old(store).strings(),
    {
        let ghost before = store.strings();
        let id = store.add(text);
        proof {
            assert(before.take(before.len() as int) =~= before);
            assert(before.push(text@).take(before.len() as int) =~= before);
        }
        Str::Interned(id)
    }

    /// The string interned in `store`: itself when it already is.
    pub fn interned(&self, store: &mut StrStore) -> (s: Str)
        requires
            old(store).wf(),
            self.valid(old(store).strings().len() as int),
        ensures
            final(store).wf(),
            s is Interned,
            s.valid(final(store).strings().len() as int),
            s.text(final(store).strings()) == self.text(old(store).strings()),
            final(store).strings().len() >= old(store).strings().len(),
            final(store).strings().take(old(store).strings().len() as int) == old(store).strings(),
    {
        match self {
            Str::Interned(id) => {
                proof {
                    assert(store.strings().take(store.strings().len() as int) =~= store.strings());
                }
                Str::Interned(*id)
            },
            _ => {
                let text = self.as_str(&*store).to_owned();
                Str::intern(store, text.as_str())
            },
        }
    }

    /// Text of the string.
    pub fn as_str<'a>(&'a self, store: &'a StrStore) -> (s: &'a str)
        requires
            self.valid(store.strings().len() as int),
        ensures
            s@ == self.text(store.strings()),
    {
        match self {
            Str::Empty => {
                proof {
                    reveal_strlit("");
                }
                ""
            },
            Str::Static(s) => s,
            Str::Shared(s) => s.as_str(),
            Str::FromInput(span) => {
                let t = span.text();
                proof {
                    vstd::utf8::encode_utf8_decode_utf8(t@);
                }
                t
            },
            Str::Interned(id) => store.get(id),
        }
    }

    /// Equality by text.
    pub fn equals(&self, other: &Str, store: &StrStore) -> (b: bool)
        requires
            self.valid(store.strings().len() as int),
            other.valid(store.strings().len() as int),
        ensures
            b == (self.text(store.strings()) == other.text(store.strings())),
    {
        match (self, other) {
            (Str::Interned(a), Str::Interned(b)) => {
                if a.0 == b.0 {
                    return true;
                }
            },
            _ => {},
        }
        str_eq(self.as_str(store), other.as_str(store))
    }

    /// Equality with a plain string.
    pub fn equals_str(&self, other: &str, store: &StrStore) -> (b: bool)
        requires
            self.valid(store.strings().len() as int),
        ensures
            b == (self.text(store.strings()) == other@),
    {
        str_eq(self.as_str(store), other)
    }
}


/// A store gives each string one identifier: interning equal strings gives
/// equal identifiers.
pub proof fn lemma_interned_unique(store: StrStore, a: StrId, b: StrId)
    requires
        store.wf(),
        a.0 < store.strings().len(),
        b.0 < store.strings().len(),
        store.strings()[a.0 as int] == store.strings()[b.0 as int],
    ensures
        a == b,
{
    if a.0 < b.0 {
        assert(store.entries@[a.0 as int]@ != store.entries@[b.0 as int]@);
    } else if b.0 < a.0 {
        assert(store.entries@[b.0 as int]@ != store.entries@[a.0 as int]@);
    }
}

} // verus!
