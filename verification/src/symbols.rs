//! Symbol table: a byte trie mapping strings to values, used by the scanner
//! to recognize the longest registered symbol at the input position.

use vstd::prelude::*;
use vstd::string::StringSliceAdditionalSpecFns;

verus! {

/// Transition from a trie state on a given input byte.
pub struct StateNext {
    pub byte: u8,
    pub state: usize,
}

/// A trie state: the value stored for the path reaching it, if any, and the
/// outgoing transitions sorted by byte.
pub struct State<T> {
    pub done: Option<T>,
    pub next: Vec<StateNext>,
}

/// Maps strings to values and recognizes the longest registered prefix of
/// an input.
pub struct SymbolTable<T> {
    states: Vec<State<T>>,
    parents: Ghost<Seq<(int, u8)>>,
}

/// Transitions are strictly sorted by byte.
pub open spec fn sorted_next(nexts: Seq<StateNext>) -> bool {
    forall|i: int, j: int| 0 <= i < j < nexts.len() ==> nexts[i].byte < nexts[j].byte
}

/// Target of the transition on byte `b`, if there is one.
pub open spec fn next_of(nexts: Seq<StateNext>, b: u8) -> Option<int> {
    if exists|i: int| 0 <= i < nexts.len() && nexts[i].byte == b {
        let i = choose|i: int| 0 <= i < nexts.len() && nexts[i].byte == b;
        Some(nexts[i].state as int)
    } else {
        None
    }
}

/// State reached from the root by reading all of `w`.
pub open spec fn reach<T>(states: Seq<State<T>>, w: Seq<u8>) -> Option<int>
    decreases w.len(),
{
    if w.len() == 0 {
        Some(0)
    } else {
        match reach(states, w.drop_last()) {
            Some(s) => if 0 <= s < states.len() {
                next_of(states[s].next@, w.last())
            } else {
                None
            },
            None => None,
        }
    }
}

/// Value stored for `w`.
pub open spec fn lookup_in<T>(states: Seq<State<T>>, w: Seq<u8>) -> Option<T> {
    match reach(states, w) {
        Some(s) => if 0 <= s < states.len() {
            states[s].done
        } else {
            None
        },
        None => None,
    }
}

/// Word spelled by the unique path from the root to state `s`.
pub open spec fn path_of(parents: Seq<(int, u8)>, s: int) -> Seq<u8>
    decreases s,
{
    if s <= 0 || s >= parents.len() || parents[s].0 >= s || parents[s].0 < 0 {
        Seq::empty()
    } else {
        path_of(parents, parents[s].0).push(parents[s].1)
    }
}

/// Well-formed trie: every state other than the root has a single incoming
/// transition, recorded in `parents`, from a state with a smaller index.
pub open spec fn trie_wf<T>(states: Seq<State<T>>, parents: Seq<(int, u8)>) -> bool {
    &&& states.len() > 0
    &&& parents.len() == states.len()
    &&& forall|s: int| 0 <= s < states.len() ==> sorted_next(#[trigger] states[s].next@)
    &&& forall|s: int, i: int|
        0 <= s < states.len() && 0 <= i < states[s].next@.len() ==> {
            let e = #[trigger] states[s].next@[i];
            &&& 0 < e.state < states.len()
            &&& parents[e.state as int] == (s, e.byte)
        }
    &&& forall|s: int|
        0 < s < states.len() ==> {
            let p = #[trigger] parents[s];
            &&& 0 <= p.0 < s
            &&& next_of(states[p.0].next@, p.1) == Some(s)
        }
}

proof fn lemma_next_of_index(nexts: Seq<StateNext>, i: int)
    requires
        sorted_next(nexts),
        0 <= i < nexts.len(),
    ensures
        next_of(nexts, nexts[i].byte) == Some(nexts[i].state as int),
{
    let b = nexts[i].byte;
    assert(exists|k: int| 0 <= k < nexts.len() && nexts[k].byte == b);
    let k = choose|k: int| 0 <= k < nexts.len() && nexts[k].byte == b;
    if k < i {
        assert(nexts[k].byte < nexts[i].byte);
    } else if k > i {
        assert(nexts[i].byte < nexts[k].byte);
    }
}

proof fn lemma_next_of_some(nexts: Seq<StateNext>, b: u8)
    requires
        sorted_next(nexts),
        next_of(nexts, b) is Some,
    ensures
        exists|i: int|
            0 <= i < nexts.len() && nexts[i].byte == b && next_of(nexts, b) == Some(
                nexts[i].state as int,
            ),
{
    let i = choose|i: int| 0 <= i < nexts.len() && nexts[i].byte == b;
    lemma_next_of_index(nexts, i);
}

proof fn lemma_path_of_reach<T>(states: Seq<State<T>>, parents: Seq<(int, u8)>, w: Seq<u8>)
    requires
        trie_wf(states, parents),
        reach(states, w) is Some,
    ensures
        0 <= reach(states, w).unwrap() < states.len(),
        w == path_of(parents, reach(states, w).unwrap()),
    decreases w.len(),
{
    if w.len() > 0 {
        lemma_path_of_reach(states, parents, w.drop_last());
        let p = reach(states, w.drop_last()).unwrap();
        let nexts = states[p].next@;
        lemma_next_of_some(nexts, w.last());
        let i = choose|i: int|
            0 <= i < nexts.len() && nexts[i].byte == w.last() && next_of(nexts, w.last()) == Some(
                nexts[i].state as int,
            );
        let e = nexts[i];
        assert(states[p].next@[i] == e);
        assert(parents[e.state as int] == (p, e.byte));
        assert(w == w.drop_last().push(w.last()));
    }
}

proof fn lemma_reach_path_of<T>(states: Seq<State<T>>, parents: Seq<(int, u8)>, s: int)
    requires
        trie_wf(states, parents),
        0 <= s < states.len(),
    ensures
        reach(states, path_of(parents, s)) == Some(s),
    decreases s,
{
    if s > 0 {
        let p = parents[s];
        lemma_reach_path_of(states, parents, p.0);
        let w = path_of(parents, s);
        assert(w.drop_last() == path_of(parents, p.0));
    }
}

proof fn lemma_reach_none_extends<T>(states: Seq<State<T>>, w: Seq<u8>, k: int)
    requires
        0 <= k <= w.len(),
        reach(states, w.take(k)) is None,
    ensures
        reach(states, w) is None,
    decreases w.len() - k,
{
    if k < w.len() {
        assert(w.take(k + 1).drop_last() == w.take(k));
        lemma_reach_none_extends(states, w, k + 1);
    } else {
        assert(w.take(k) == w);
    }
}

proof fn lemma_path_prefix(parents: Seq<(int, u8)>, extra: (int, u8), s: int)
    requires
        0 <= s < parents.len(),
    ensures
        path_of(parents.push(extra), s) == path_of(parents, s),
    decreases s,
{
    let np = parents.push(extra);
    assert(np[s] == parents[s]);
    if !(s <= 0 || s >= parents.len() || parents[s].0 >= s || parents[s].0 < 0) {
        lemma_path_prefix(parents, extra, parents[s].0);
    }
}

/// Inserting a transition on a byte that has none keeps all other targets.
proof fn lemma_insert_next(nexts: Seq<StateNext>, k: int, e: StateNext)
    requires
        sorted_next(nexts),
        0 <= k <= nexts.len(),
        forall|i: int| 0 <= i < k ==> nexts[i].byte < e.byte,
        forall|i: int| k <= i < nexts.len() ==> nexts[i].byte > e.byte,
    ensures
        sorted_next(nexts.insert(k, e)),
        next_of(nexts.insert(k, e), e.byte) == Some(e.state as int),
        forall|b: u8| b != e.byte ==> next_of(nexts.insert(k, e), b) == next_of(nexts, b),
{
    let n = nexts.insert(k, e);
    assert(sorted_next(n)) by {
        assert forall|i: int, j: int| 0 <= i < j < n.len() implies n[i].byte < n[j].byte by {
            if j < k {
            } else if i < k && j == k {
            } else if i < k {
                assert(n[j] == nexts[j - 1]);
            } else if i == k {
                assert(n[j] == nexts[j - 1]);
            } else {
                assert(n[i] == nexts[i - 1]);
                assert(n[j] == nexts[j - 1]);
            }
        }
    }
    assert(n[k] == e);
    lemma_next_of_index(n, k);
    assert forall|b: u8| b != e.byte implies next_of(n, b) == next_of(nexts, b) by {
        if exists|i: int| 0 <= i < nexts.len() && nexts[i].byte == b {
            let i = choose|i: int| 0 <= i < nexts.len() && nexts[i].byte == b;
            lemma_next_of_index(nexts, i);
            let j = if i < k { i } else { i + 1 };
            assert(n[j] == nexts[i]);
            lemma_next_of_index(n, j);
        } else {
            if exists|j: int| 0 <= j < n.len() && n[j].byte == b {
                let j = choose|j: int| 0 <= j < n.len() && n[j].byte == b;
                if j < k {
                    assert(n[j] == nexts[j]);
                } else if j > k {
                    assert(n[j] == nexts[j - 1]);
                }
            }
        }
    }
}

impl<T> SymbolTable<T> {
    #[verifier::type_invariant]
    spec fn inv(self) -> bool {
        trie_wf(self.states@, self.parents@)
    }

    /// Value registered for the byte string `w`.
    pub closed spec fn lookup(self, w: Seq<u8>) -> Option<T> {
        lookup_in(self.states@, w)
    }

    /// Creates an empty table: no string has a value.
    pub fn new() -> (table: Self)
        ensures
            forall|w: Seq<u8>| table.lookup(w) is None,
    {
        let mut states: Vec<State<T>> = Vec::new();
        states.push(State { done: None, next: Vec::new() });
        let ghost parents: Seq<(int, u8)> = seq![(0int, 0u8)];
        let table = SymbolTable { states, parents: Ghost(parents) };
        assert forall|w: Seq<u8>| table.lookup(w) is None by {
            if reach(table.states@, w) is Some {
                lemma_path_of_reach(table.states@, table.parents@, w);
            }
        }
        table
    }

    /// Target of the transition from `state` on `byte`.
    pub fn get_next(&self, state: usize, byte: u8) -> (res: Option<usize>)
        requires
            state < self.states_len(),
        ensures
            match res {
                Some(n) => self.next_spec(state as int, byte) == Some(n as int),
                None => self.next_spec(state as int, byte) is None,
            },
    {
        proof {
            use_type_invariant(self);
        }
        match search_next(&self.states[state].next, byte) {
            Ok(k) => Some(self.states[state].next[k].state),
            Err(_) => None,
        }
    }

    /// Number of trie states.
    pub closed spec fn states_len(self) -> int {
        self.states@.len() as int
    }

    /// Transition target from `state` on `byte`.
    pub closed spec fn next_spec(self, state: int, byte: u8) -> Option<int> {
        next_of(self.states@[state].next@, byte)
    }

    /// Registers `input` with value `result`, returning the value it had.
    pub fn add(&mut self, input: &str, result: T) -> (prev: Option<T>)
        ensures
            final(self).lookup(input.spec_bytes()) == Some(result),
            forall|w: Seq<u8>|
                w != input.spec_bytes() ==> #[trigger] final(self).lookup(w) == old(self).lookup(w),
            prev == old(self).lookup(input.spec_bytes()),
    {
        let bytes = input.as_bytes();
        self.add_bytes(bytes, result)
    }

    /// Registers the byte string `input` with value `result`, returning the
    /// value it had.
    pub fn add_bytes(&mut self, input: &[u8], result: T) -> (prev: Option<T>)
        ensures
            final(self).lookup(input@) == Some(result),
            forall|w: Seq<u8>| w != input@ ==> #[trigger] final(self).lookup(w) == old(self).lookup(w),
            prev == old(self).lookup(input@),
    {
        let mut tmp = SymbolTable::new();
        std::mem::swap(self, &mut tmp);
        proof {
            use_type_invariant(&tmp);
        }
        let ghost old_states = tmp.states@;
        let SymbolTable { mut states, parents } = tmp;
        let ghost mut par = parents@;
        let mut state: usize = 0;
        let n = input.len();
        let mut i: usize = 0;
        assert(input@.take(0) == Seq::<u8>::empty());
        while i < n
            invariant
                trie_wf(states@, par),
                0 <= i <= n,
                n == input@.len(),
                state < states@.len(),
                reach(states@, input@.take(i as int)) == Some(state as int),
                forall|w: Seq<u8>| #[trigger] lookup_in(states@, w) == lookup_in(old_states, w),
            decreases n - i,
        {
            let byte = input[i];
            proof {
                assert(input@.take(i + 1).drop_last() == input@.take(i as int));
                assert(input@.take(i + 1).last() == byte);
            }
            assert(sorted_next(states@[state as int].next@));
            match search_next(&states[state].next, byte) {
                Ok(k) => {
                    proof {
                        assert(input@.take(i + 1) == input@.take(i as int).push(byte));
                    }
                    state = states[state].next[k].state;
                },
                Err(k) => {
                    let fresh = states.len();
                    let ghost before = states@;
                    states.push(State { done: None, next: Vec::new() });
                    let total = states.len();
                    assert(total == before.len() + 1);
                    states[state].next.insert(k, StateNext { byte, state: fresh });
                    proof {
                        assert(input@.take(i + 1) == input@.take(i as int).push(byte));
                        lemma_add_edge(before, states@, par, state as int, byte, k as int);
                        par = par.push((state as int, byte));
                    }
                    state = fresh;
                },
            }
            i = i + 1;
        }
        assert(input@.take(n as int) == input@);
        proof {
            lemma_path_of_reach(states@, par, input@);
        }
        let ghost before = states@;
        let prev = states[state].done.take();
        states[state].done = Some(result);
        proof {
            assert(prev == before[state as int].done);
            assert(lookup_in(before, input@) == before[state as int].done);
            lemma_reach_same_next(before, states@);
            assert forall|w: Seq<u8>| w != input@ implies #[trigger] lookup_in(states@, w)
                == lookup_in(before, w) by {
                lemma_reach_same_next_w(before, states@, w);
                if reach(states@, w) is Some {
                    lemma_path_of_reach(before, par, w);
                }
            }
            lemma_reach_same_next_w(before, states@, input@);
        }
        *self = SymbolTable { states, parents: Ghost(par) };
        prev
    }

    /// Value registered for the empty string.
    pub fn get_default(&self) -> (res: Option<&T>)
        ensures
            match res {
                Some(v) => self.lookup(Seq::empty()) == Some(*v),
                None => self.lookup(Seq::empty()) is None,
            },
    {
        proof {
            use_type_invariant(self);
        }
        self.states[0].done.as_ref()
    }

    /// Registers the value for the empty string, returning the previous one.
    pub fn set_default(&mut self, value: T) -> (prev: Option<T>)
        ensures
            final(self).lookup(Seq::empty()) == Some(value),
            forall|w: Seq<u8>|
                w != Seq::<u8>::empty() ==> #[trigger] final(self).lookup(w) == old(self).lookup(w),
            prev == old(self).lookup(Seq::empty()),
    {
        let empty: Vec<u8> = Vec::new();
        assert(empty@ == Seq::<u8>::empty());
        self.add_bytes(empty.as_slice(), value)
    }

    /// Longest prefix of `input` with a registered value, as its length and
    /// value. Without any match, returns zero and no value.
    pub fn recognize(&self, input: &[u8]) -> (res: (usize, Option<&T>))
        ensures
            res.0 <= input@.len(),
            match res.1 {
                Some(v) => self.lookup(input@.take(res.0 as int)) == Some(*v),
                None => res.0 == 0 && forall|k: int|
                    0 <= k <= input@.len() ==> #[trigger] self.lookup(input@.take(k)) is None,
            },
            forall|k: int|
                res.0 < k <= input@.len() ==> #[trigger] self.lookup(input@.take(k)) is None,
    {
        proof {
            use_type_invariant(self);
        }
        let mut valid_state = self.states[0].done.as_ref();
        let mut valid_index: usize = 0;
        let mut state: usize = 0;
        let mut index: usize = 0;
        assert(input@.take(0) == Seq::<u8>::empty());
        while index < input.len()
            invariant_except_break
                trie_wf(self.states@, self.parents@),
                0 <= valid_index <= index <= input@.len(),
                state < self.states@.len(),
                reach(self.states@, input@.take(index as int)) == Some(state as int),
                match valid_state {
                    Some(v) => lookup_in(self.states@, input@.take(valid_index as int)) == Some(*v),
                    None => valid_index == 0 && lookup_in(self.states@, input@.take(0)) is None,
                },
                forall|k: int|
                    valid_index < k <= index ==> #[trigger] lookup_in(self.states@, input@.take(k))
                        is None,
            ensures
                0 <= valid_index <= index <= input@.len(),
                match valid_state {
                    Some(v) => lookup_in(self.states@, input@.take(valid_index as int)) == Some(*v),
                    None => valid_index == 0 && lookup_in(self.states@, input@.take(0)) is None,
                },
                forall|k: int|
                    valid_index < k <= index ==> #[trigger] lookup_in(self.states@, input@.take(k))
                        is None,
                forall|k: int|
                    index < k <= input@.len() ==> #[trigger] reach(self.states@, input@.take(k))
                        is None,
            decreases input@.len() - index,
        {
            let byte = input[index];
            proof {
                assert(input@.take(index + 1).drop_last() == input@.take(index as int));
                assert(input@.take(index + 1).last() == byte);
            }
            match self.get_next(state, byte) {
                Some(next) => {
                    state = next;
                    index = index + 1;
                    proof {
                        lemma_path_of_reach(self.states@, self.parents@, input@.take(index as int));
                    }
                    match &self.states[state].done {
                        Some(done) => {
                            valid_state = Some(done);
                            valid_index = index;
                        },
                        None => {},
                    }
                },
                None => {
                    proof {
                        assert forall|k: int| index < k <= input@.len() implies #[trigger] reach(
                            self.states@,
                            input@.take(k),
                        ) is None by {
                            assert(input@.take(k).take(index + 1) == input@.take(index + 1));
                            lemma_reach_none_extends(self.states@, input@.take(k), index + 1);
                        }
                    }
                    break ;
                },
            }
        }
        proof {
            assert forall|k: int| index < k <= input@.len() implies #[trigger] lookup_in(
                self.states@,
                input@.take(k),
            ) is None by {
                assert(reach(self.states@, input@.take(k)) is None);
            }
            if valid_state is None {
                assert forall|k: int| 0 <= k <= input@.len() implies #[trigger] lookup_in(
                    self.states@,
                    input@.take(k),
                ) is None by {
                    if k == 0 {
                    } else if k <= index {
                    } else {
                        assert(reach(self.states@, input@.take(k)) is None);
                    }
                }
            }
        }
        (valid_index, valid_state)
    }
}

impl<T> Default for SymbolTable<T> {
    fn default() -> (table: Self)
        ensures
            forall|w: Seq<u8>| table.lookup(w) is None,
    {
        Self::new()
    }
}

/// Binary search for `byte` in sorted transitions: `Ok` with its index, or
/// `Err` with the position where it would be inserted.
fn search_next(nexts: &Vec<StateNext>, byte: u8) -> (res: Result<usize, usize>)
    requires
        sorted_next(nexts@),
    ensures
        match res {
            Ok(k) => k < nexts@.len() && nexts@[k as int].byte == byte && next_of(nexts@, byte)
                == Some(nexts@[k as int].state as int),
            Err(k) => k <= nexts@.len() && next_of(nexts@, byte) is None && (forall|i: int|
                0 <= i < k ==> nexts@[i].byte < byte) && (forall|i: int|
                k <= i < nexts@.len() ==> nexts@[i].byte > byte),
        },
{
    let mut lo: usize = 0;
    let mut hi: usize = nexts.len();
    while lo < hi
        invariant
            0 <= lo <= hi <= nexts@.len(),
            sorted_next(nexts@),
            forall|i: int| 0 <= i < lo ==> nexts@[i].byte < byte,
            forall|i: int| hi <= i < nexts@.len() ==> nexts@[i].byte > byte,
        decreases hi - lo,
    {
        let mid = lo + (hi - lo) / 2;
        let b = nexts[mid].byte;
        if b == byte {
            proof {
                lemma_next_of_index(nexts@, mid as int);
            }
            return Ok(mid);
        } else if b < byte {
            lo = mid + 1;
        } else {
            hi = mid;
        }
    }
    assert(!exists|i: int| 0 <= i < nexts@.len() && nexts@[i].byte == byte);
    Err(lo)
}

proof fn lemma_reach_same_next_w<T>(a: Seq<State<T>>, b: Seq<State<T>>, w: Seq<u8>)
    requires
        a.len() == b.len(),
        forall|s: int| 0 <= s < a.len() ==> #[trigger] a[s].next@ == b[s].next@,
    ensures
        reach(a, w) == reach(b, w),
    decreases w.len(),
{
    if w.len() > 0 {
        lemma_reach_same_next_w(a, b, w.drop_last());
    }
}

proof fn lemma_reach_same_next<T>(a: Seq<State<T>>, b: Seq<State<T>>)
    requires
        a.len() == b.len(),
        forall|s: int| 0 <= s < a.len() ==> #[trigger] a[s].next@ == b[s].next@,
    ensures
        forall|w: Seq<u8>| #[trigger] reach(a, w) == reach(b, w),
{
    assert forall|w: Seq<u8>| #[trigger] reach(a, w) == reach(b, w) by {
        lemma_reach_same_next_w(a, b, w);
    }
}

/// Adding a fresh state and a transition to it from `p` on a byte without a
/// transition keeps the trie well formed and every stored value, and the
/// fresh state is reached by the path of `p` followed by the byte.
proof fn lemma_add_edge<T>(
    old_states: Seq<State<T>>,
    new_states: Seq<State<T>>,
    par: Seq<(int, u8)>,
    p: int,
    byte: u8,
    k: int,
)
    requires
        trie_wf(old_states, par),
        0 <= p < old_states.len(),
        next_of(old_states[p].next@, byte) is None,
        0 <= k <= old_states[p].next@.len(),
        forall|i: int| 0 <= i < k ==> old_states[p].next@[i].byte < byte,
        forall|i: int| k <= i < old_states[p].next@.len() ==> old_states[p].next@[i].byte > byte,
        new_states.len() == old_states.len() + 1,
        new_states[old_states.len() as int].done is None,
        new_states[old_states.len() as int].next@.len() == 0,
        new_states[p].done == old_states[p].done,
        new_states[p].next@ == old_states[p].next@.insert(
            k,
            StateNext { byte, state: old_states.len() as usize },
        ),
        old_states.len() < usize::MAX,
        forall|s: int|
            0 <= s < old_states.len() && s != p ==> #[trigger] new_states[s].next@
                == old_states[s].next@,
        forall|s: int|
            0 <= s < old_states.len() && s != p ==> #[trigger] new_states[s].done
                == old_states[s].done,
    ensures
        trie_wf(new_states, par.push((p, byte))),
        forall|w: Seq<u8>| #[trigger] lookup_in(new_states, w) == lookup_in(old_states, w),
        forall|w: Seq<u8>|
            reach(old_states, w) == Some(p) ==> #[trigger] reach(new_states, w.push(byte)) == Some(
                old_states.len() as int,
            ),
{
    let f = old_states.len() as int;
    let np = par.push((p, byte));
    let e = StateNext { byte, state: f as usize };
    lemma_insert_next(old_states[p].next@, k, e);
    assert(np[f] == (p, byte));
    assert forall|s: int| 0 <= s < new_states.len() implies sorted_next(
        #[trigger] new_states[s].next@,
    ) by {
        if s < f && s != p {
            assert(sorted_next(old_states[s].next@));
        }
    }
    assert forall|s: int, i: int|
        0 <= s < new_states.len() && 0 <= i < new_states[s].next@.len() implies {
        let e2 = #[trigger] new_states[s].next@[i];
        &&& 0 < e2.state < new_states.len()
        &&& np[e2.state as int] == (s, e2.byte)
    } by {
        if s == p {
            let ol = old_states[p].next@;
            assert(new_states[p].next@ == ol.insert(k, e));
            if i == k {
                assert(new_states[s].next@[i] == e);
            } else if i < k {
                assert(new_states[s].next@[i] == ol[i]);
            } else if i > k {
                assert(new_states[s].next@[i] == ol[i - 1]);
            }
        } else if s < f {
            assert(new_states[s].next@[i] == old_states[s].next@[i]);
        }
    }
    assert forall|s: int| 0 < s < new_states.len() implies {
        let pp = #[trigger] np[s];
        &&& 0 <= pp.0 < s
        &&& next_of(new_states[pp.0].next@, pp.1) == Some(s)
    } by {
        if s < f {
            let pp = par[s];
            assert(np[s] == pp);
            if pp.0 == p {
                if pp.1 == byte {
                    assert(next_of(old_states[p].next@, byte) == Some(s));
                }
            }
        }
    }
    assert(trie_wf(new_states, np));
    assert forall|w: Seq<u8>| #[trigger] lookup_in(new_states, w) == lookup_in(old_states, w) by {
        if reach(new_states, w) is Some {
            lemma_path_of_reach(new_states, np, w);
            let s = reach(new_states, w).unwrap();
            if s < f {
                lemma_path_prefix(par, (p, byte), s);
                lemma_reach_path_of(old_states, par, s);
                assert(reach(old_states, w) == Some(s));
                if s == p {
                    assert(new_states[s].done == old_states[s].done);
                } else {
                    assert(new_states[s].done == old_states[s].done);
                }
            } else {
                lemma_path_prefix(par, (p, byte), p);
                lemma_reach_path_of(old_states, par, p);
                assert(path_of(np, f) == path_of(np, p).push(byte));
                assert(w == path_of(par, p).push(byte));
                assert(w.drop_last() == path_of(par, p));
                assert(w.last() == byte);
                assert(reach(old_states, w) is None);
                assert(lookup_in(new_states, w) is None);
            }
        } else if reach(old_states, w) is Some {
            lemma_path_of_reach(old_states, par, w);
            let s = reach(old_states, w).unwrap();
            lemma_path_prefix(par, (p, byte), s);
            lemma_reach_path_of(new_states, np, s);
        }
    }
    assert forall|w: Seq<u8>| reach(old_states, w) == Some(p) implies #[trigger] reach(
        new_states,
        w.push(byte),
    ) == Some(f) by {
        lemma_path_of_reach(old_states, par, w);
        lemma_path_prefix(par, (p, byte), p);
        lemma_reach_path_of(new_states, np, p);
        assert(w.push(byte).drop_last() == w);
    }
}

} // verus!
