//! Node replacements requested by operators, and how they are merged into
//! a node list.

use vstd::prelude::*;

use crate::errors::Errors;
use crate::operators::{compute_range, range_end, range_start, Bound};
use crate::text::{chars_to_string, decimal, push_decimal, push_str};

verus! {

broadcast use vstd::seq_lib::to_multiset_insert;

/// Replaces `count` nodes at `index` by `nodes`. A zero count inserts.
pub struct NodeReplace<T> {
    pub index: usize,
    pub count: usize,
    pub nodes: Vec<T>,
}

/// End of the replaced range.
pub open spec fn end_of<T>(r: NodeReplace<T>) -> int {
    r.index + r.count
}

/// Insertions come before replacements at the same index.
pub open spec fn kind_of<T>(r: NodeReplace<T>) -> int {
    if r.count == 0 {
        0
    } else {
        1
    }
}

/// Order in which changes are applied: by index, insertions first, then
/// the longest replacement first.
pub open spec fn change_le<T>(a: NodeReplace<T>, b: NodeReplace<T>) -> bool {
    a.index < b.index || (a.index == b.index && (kind_of(a) < kind_of(b) || (kind_of(a) == kind_of(
        b,
    ) && a.count >= b.count)))
}

/// Neither change comes before the other: they apply at the same place.
pub open spec fn same_place<T>(a: NodeReplace<T>, b: NodeReplace<T>) -> bool {
    change_le(a, b) && change_le(b, a)
}

/// Holds of the changes that apply at the same place as `r`.
pub open spec fn at_place<T>(r: NodeReplace<T>) -> spec_fn(NodeReplace<T>) -> bool {
    |x: NodeReplace<T>| same_place(x, r)
}

/// The changes are in application order.
pub open spec fn changes_sorted<T>(s: Seq<NodeReplace<T>>) -> bool {
    forall|i: int, j: int| 0 <= i < j < s.len() ==> change_le(#[trigger] s[i], #[trigger] s[j])
}

/// Position reached after applying the first `k` changes without error.
pub open spec fn cursor_at<T>(s: Seq<NodeReplace<T>>, k: int) -> int {
    if k <= 0 {
        0
    } else {
        end_of(s[k - 1])
    }
}

/// The last of the first `k` changes that added nodes was an insertion.
pub open spec fn inserted_at<T>(s: Seq<NodeReplace<T>>, k: int) -> bool
    decreases k,
{
    if k <= 0 {
        false
    } else if s[k - 1].nodes@.len() > 0 {
        s[k - 1].count == 0
    } else {
        inserted_at(s, k - 1)
    }
}

/// Change `k` neither overlaps the ones before it nor inserts a second
/// time at the position of the previous insertion.
pub open spec fn step_ok<T>(s: Seq<NodeReplace<T>>, k: int) -> bool {
    let r = s[k];
    let cursor = cursor_at(s, k);
    &&& r.index >= cursor
    &&& !(r.index == cursor && r.count == 0 && r.nodes@.len() > 0 && inserted_at(s, k))
}

/// Message of the change `k` that cannot be applied: it overlaps the
/// changes before it, or it is a second insertion at one position.
pub open spec fn step_msg<T>(s: Seq<NodeReplace<T>>, k: int) -> Seq<char> {
    if s[k].index < cursor_at(s, k) {
        "operators replace overlapping ranges #"@ + decimal(s[k].index as nat) + seq!['…'] + decimal(
            cursor_at(s, k) as nat,
        )
    } else {
        "multiple node insertions at same position #"@ + decimal(s[k].index as nat)
    }
}

/// Change `k` is the first that cannot be applied, and `msg` reports it.
pub open spec fn first_failure<T>(s: Seq<NodeReplace<T>>, k: int, msg: Seq<char>) -> bool {
    &&& 0 <= k < s.len()
    &&& !step_ok(s, k)
    &&& forall|j: int| 0 <= j < k ==> #[trigger] step_ok(s, j)
    &&& msg == step_msg(s, k)
}

/// All changes can be applied.
pub open spec fn all_steps_ok<T>(s: Seq<NodeReplace<T>>) -> bool {
    forall|k: int| 0 <= k < s.len() ==> #[trigger] step_ok(s, k)
}

/// The nodes with changes `k..` applied from position `cursor` on.
pub open spec fn spliced<T>(nodes: Seq<T>, s: Seq<NodeReplace<T>>, k: int, cursor: int) -> Seq<T>
    decreases s.len() - k,
{
    if k >= s.len() || k < 0 {
        nodes.subrange(cursor, nodes.len() as int)
    } else {
        nodes.subrange(cursor, s[k].index as int) + s[k].nodes@ + spliced(
            nodes,
            s,
            k + 1,
            end_of(s[k]),
        )
    }
}

impl<T> NodeReplace<T> {
    /// The two changes touch the same nodes, or start at the same index.
    pub fn overlaps(&self, node: &NodeReplace<T>) -> (b: bool)
        requires
            self.index + self.count <= usize::MAX,
            node.index + node.count <= usize::MAX,
        ensures
            b == ((self.index < end_of(*node) && node.index < end_of(*self)) || self.index
                == node.index),
    {
        let (a1, a2) = (self.index, self.index + self.count);
        let (b1, b2) = (node.index, node.index + node.count);
        (a1 < b2 && b1 < a2) || a1 == b1
    }
}

/// `a` comes before `b` in application order.
fn change_before<T>(a: &NodeReplace<T>, b: &NodeReplace<T>) -> (le: bool)
    ensures
        le == change_le(*a, *b),
{
    let ka: u8 = if a.count == 0 {
        0
    } else {
        1
    };
    let kb: u8 = if b.count == 0 {
        0
    } else {
        1
    };
    a.index < b.index || (a.index == b.index && (ka < kb || (ka == kb && a.count >= b.count)))
}

proof fn lemma_change_le_total<T>(a: NodeReplace<T>, b: NodeReplace<T>)
    ensures
        change_le(a, b) || change_le(b, a),
{
}

proof fn lemma_change_le_trans<T>(a: NodeReplace<T>, b: NodeReplace<T>, c: NodeReplace<T>)
    requires
        change_le(a, b),
        change_le(b, c),
    ensures
        change_le(a, c),
{
}

/// Filtering `s` with `x` put in at `p`, where nothing from `p` on passes
/// the filter when `x` does.
proof fn lemma_filter_insert<A>(s: Seq<A>, p: int, x: A, f: spec_fn(A) -> bool)
    requires
        0 <= p <= s.len(),
        f(x) ==> forall|j: int| p <= j < s.len() ==> !f(#[trigger] s[j]),
    ensures
        s.insert(p, x).filter(f) == if f(x) {
            s.filter(f).push(x)
        } else {
            s.filter(f)
        },
{
    let a = s.take(p);
    let b = s.skip(p);
    assert(s =~= a + b);
    assert(s.insert(p, x) =~= a.push(x) + b);
    Seq::filter_distributes_over_add(a.push(x), b, f);
    Seq::filter_distributes_over_add(a, b, f);
    a.lemma_filter_push(x, f);
    if f(x) {
        assert(b.all(|y: A| !f(y)));
        b.lemma_all_neg_filter_empty(f);
        assert(b.filter(f) =~= Seq::<A>::empty());
        assert(a.filter(f) + b.filter(f) =~= a.filter(f));
        assert(a.filter(f).push(x) + b.filter(f) =~= a.filter(f).push(x));
    }
}

/// The changes sorted in application order, keeping the order of equal
/// changes: the changes at any one place come in the order given.
pub fn sort_changes<T>(list: Vec<NodeReplace<T>>) -> (sorted: Vec<NodeReplace<T>>)
    ensures
        changes_sorted(sorted@),
        sorted@.to_multiset() == list@.to_multiset(),
        forall|r: NodeReplace<T>| #[trigger] sorted@.filter(at_place(r)) == list@.filter(at_place(r)),
{
    let mut list = list;
    let ghost all = list@;
    let mut out: Vec<NodeReplace<T>> = Vec::new();
    let ghost mut taken: int = 0;
    proof {
        assert(all.take(0) =~= Seq::<NodeReplace<T>>::empty());
    }
    while list.len() > 0
        invariant
            changes_sorted(out@),
            0 <= taken <= all.len(),
            list@ == all.skip(taken),
            out@.to_multiset() == all.take(taken).to_multiset(),
            forall|r: NodeReplace<T>| #[trigger] out@.filter(at_place(r)) == all.take(taken).filter(at_place(r)),
        decreases list.len(),
    {
        let item = list.remove(0);
        proof {
            assert(item == all[taken]);
            assert(list@ =~= all.skip(taken + 1));
        }
        let mut p: usize = out.len();
        while p > 0 && change_before(&out[p - 1], &item) == false
            invariant
                0 <= p <= out@.len(),
                forall|j: int| p <= j < out@.len() ==> !change_le(#[trigger] out@[j], item),
            decreases p,
        {
            p = p - 1;
        }
        proof {
            assert forall|j: int| p <= j < out@.len() implies change_le(item, #[trigger] out@[j]) by {
                lemma_change_le_total(item, out@[j]);
            }
            if p > 0 {
                assert(change_le(out@[p - 1], item));
            }
        }
        let ghost before = out@;
        out.insert(p, item);
        proof {
            let s = out@;
            assert forall|i: int, j: int| 0 <= i < j < s.len() implies change_le(
                #[trigger] s[i],
                #[trigger] s[j],
            ) by {
                if j < p {
                    assert(s[i] == before[i] && s[j] == before[j]);
                } else if j == p {
                    assert(s[i] == before[i]);
                    if i < p - 1 {
                        lemma_change_le_trans(before[i], before[p - 1], item);
                    }
                } else if i == p {
                    assert(s[j] == before[j - 1]);
                } else if i < p {
                    assert(s[i] == before[i] && s[j] == before[j - 1]);
                } else {
                    assert(s[i] == before[i - 1] && s[j] == before[j - 1]);
                }
            }
            assert(all.take(taken + 1) =~= all.take(taken).push(item));
            vstd::seq_lib::to_multiset_build(all.take(taken), item);
            assert forall|r: NodeReplace<T>| #[trigger] out@.filter(at_place(r)) == all.take(taken + 1).filter(
                at_place(r),
            ) by {
                let f = at_place(r);
                if f(item) {
                    assert forall|j: int| p <= j < before.len() implies !f(#[trigger] before[j]) by {
                        if f(before[j]) {
                            lemma_change_le_trans(before[j], r, item);
                        }
                    }
                }
                lemma_filter_insert(before, p as int, item, f);
                all.take(taken).lemma_filter_push(item, f);
                assert(out@ == before.insert(p as int, item));
            }
            taken = taken + 1;
        }
    }
    proof {
        assert(all.take(taken) =~= all);
    }
    out
}

/// Appends `nodes[from..to]`.
fn extend_range<T: Copy>(out: &mut Vec<T>, nodes: &[T], from: usize, to: usize)
    requires
        from <= to <= nodes@.len(),
    ensures
        final(out)@ == old(out)@ + nodes@.subrange(from as int, to as int),
{
    let mut i = from;
    while i < to
        invariant
            from <= i <= to,
            to <= nodes@.len(),
            out@ == old(out)@ + nodes@.subrange(from as int, i as int),
        decreases to - i,
    {
        out.push(nodes[i]);
        i = i + 1;
        assert(out@ =~= old(out)@ + nodes@.subrange(from as int, i as int));
    }
}

impl<T: Copy> NodeReplace<T> {
    /// Applies the changes to `nodes`, in application order; changes at the
    /// same place apply in the order given. Overlapping changes, and a
    /// second insertion right after an insertion, are errors.
    pub fn apply(nodes: &[T], list: Vec<NodeReplace<T>>) -> (res: Result<Vec<T>, Errors>)
        requires
            forall|i: int| 0 <= i < list@.len() ==> end_of(#[trigger] list@[i]) <= nodes@.len(),
        ensures
            exists|s: Seq<NodeReplace<T>>|
                {
                    &&& changes_sorted(s)
                    &&& s.to_multiset() == list@.to_multiset()
                    &&& forall|r: NodeReplace<T>| #[trigger] s.filter(at_place(r)) == list@.filter(at_place(r))
                    &&& (res is Ok <==> all_steps_ok(s))
                    &&& res matches Ok(out) ==> out@ == spliced(nodes@, s, 0, 0)
                    &&& res matches Err(e) ==> exists|k: int| #[trigger] first_failure(s, k, e@[0].message)
                },
            res matches Err(e) ==> e@.len() > 0,
    {
        let ghost given = list@;
        let list = sort_changes(list);
        let ghost s = list@;
        proof {
            assert forall|i: int| 0 <= i < s.len() implies end_of(#[trigger] s[i]) <= nodes@.len() by {
                assert(s.contains(s[i]));
                vstd::seq_lib::to_multiset_contains(s, s[i]);
                vstd::seq_lib::to_multiset_contains(given, s[i]);
                assert(given.contains(s[i]));
                let j = choose|j: int| 0 <= j < given.len() && given[j] == s[i];
                assert(end_of(given[j]) <= nodes@.len());
            }
        }
        let mut list = list;
        let total = nodes.len();
        let mut errors = Errors::new();
        let mut output: Vec<T> = Vec::new();
        let mut cursor: usize = 0;
        let mut inserted = false;
        let ghost mut k: int = 0;
        while list.len() > 0
            invariant
                0 <= k <= s.len(),
                list@ == s.skip(k),
                forall|i: int| 0 <= i < s.len() ==> end_of(#[trigger] s[i]) <= nodes@.len(),
                cursor <= nodes@.len(),
                total == nodes@.len(),
                errors@.len() > 0 ==> exists|j: int| 0 <= j < k && !#[trigger] step_ok(s, j),
                errors@.len() > 0 ==> exists|j: int| j < k && #[trigger] first_failure(s, j, errors@[0].message),
                errors@.len() == 0 ==> {
                    &&& forall|j: int| 0 <= j < k ==> #[trigger] step_ok(s, j)
                    &&& cursor == cursor_at(s, k)
                    &&& inserted == inserted_at(s, k)
                    &&& output@ + spliced(nodes@, s, k, cursor as int) == spliced(nodes@, s, 0, 0)
                },
            decreases list.len(),
        {
            let change = list.remove(0);
            let ghost r = s[k];
            proof {
                assert(change == r);
                assert(list@ =~= s.skip(k + 1));
                assert(end_of(s[k]) <= nodes@.len());
            }
            let NodeReplace { index, count, nodes: new_nodes } = change;
            let end = index + count;
            let ghost was_ok = errors@.len() == 0;
            if index < cursor {
                let mut msg: Vec<char> = Vec::new();
                push_str(&mut msg, "operators replace overlapping ranges #");
                push_decimal(&mut msg, index);
                msg.push('…');
                push_decimal(&mut msg, cursor);
                let text = chars_to_string(msg.as_slice());
                let ghost eb = errors@;
                errors.add(text.as_str(), crate::span::Span::default());
                proof {
                    if was_ok {
                        assert(msg@ =~= step_msg(s, k));
                        assert(first_failure(s, k, errors@[0].message));
                    } else {
                        assert(errors@[0] == eb[0]);
                    }
                }
                cursor = if cursor >= end {
                    cursor
                } else {
                    end
                };
                proof {
                    if was_ok {
                        assert(!step_ok(s, k));
                    }
                    k = k + 1;
                }
                continue ;
            } else if index == cursor && count == 0 && new_nodes.len() > 0 && inserted {
                let mut msg: Vec<char> = Vec::new();
                push_str(&mut msg, "multiple node insertions at same position #");
                push_decimal(&mut msg, index);
                let text = chars_to_string(msg.as_slice());
                let ghost eb = errors@;
                errors.add(text.as_str(), crate::span::Span::default());
                proof {
                    if was_ok {
                        assert(msg@ =~= step_msg(s, k));
                        assert(first_failure(s, k, errors@[0].message));
                    } else {
                        assert(errors@[0] == eb[0]);
                    }
                }
                inserted = false;
                proof {
                    if was_ok {
                        assert(!step_ok(s, k));
                    }
                    k = k + 1;
                }
                continue ;
            }
            let ghost before = output@;
            if index > cursor {
                extend_range(&mut output, nodes, cursor, index);
            } else {
                assert(nodes@.subrange(cursor as int, index as int) =~= Seq::<T>::empty());
            }
            if new_nodes.len() > 0 {
                let mut added = new_nodes;
                output.append(&mut added);
                inserted = count == 0;
            } else {
                assert(output@ =~= output@ + new_nodes@);
            }
            cursor = end;
            proof {
                if errors@.len() == 0 {
                    assert(step_ok(s, k));
                    assert forall|j: int| 0 <= j < k + 1 implies #[trigger] step_ok(s, j) by {}
                    assert(output@ == before + nodes@.subrange(
                        cursor_at(s, k),
                        index as int,
                    ) + r.nodes@);
                    assert(output@ + spliced(nodes@, s, k + 1, cursor as int) =~= before + spliced(
                        nodes@,
                        s,
                        k,
                        cursor_at(s, k),
                    ));
                }
                k = k + 1;
            }
        }
        if cursor < nodes.len() {
            extend_range(&mut output, nodes, cursor, nodes.len());
        }
        proof {
            assert(list@.len() == 0);
            assert(k == s.len());
            if errors@.len() == 0 {
                assert(all_steps_ok(s));
                if cursor >= nodes@.len() {
                    assert(nodes@.subrange(cursor as int, nodes@.len() as int) =~= Seq::<T>::empty());
                }
                assert(output@ =~= spliced(nodes@, s, 0, 0));
            }
        }
        if errors.empty() {
            Ok(output)
        } else {
            let ghost ev = errors@;
            let res: Result<Vec<T>, Errors> = Err(errors);
            proof {
                assert(res matches Err(e) && e@ == ev);
                let j = choose|j: int| j < k && #[trigger] first_failure(s, j, ev[0].message);
                assert(first_failure(s, j, ev[0].message));
            }
            res
        }
    }
}

/// What an operator sees of a resolution step: the nodes, and the errors
/// and changes it reports.
pub struct ResolveContext<T> {
    nodes: Vec<T>,
    errors: Errors,
    changes: Vec<NodeReplace<T>>,
}

impl<T> ResolveContext<T> {
    pub closed spec fn node_list(self) -> Seq<T> {
        self.nodes@
    }

    pub closed spec fn change_list(self) -> Seq<NodeReplace<T>> {
        self.changes@
    }

    pub closed spec fn error_list(self) -> Seq<crate::errors::ErrorView> {
        self.errors@
    }

    /// A context over `nodes` with no errors or changes.
    pub fn new(nodes: Vec<T>) -> (c: ResolveContext<T>)
        ensures
            c.node_list() == nodes@,
            c.change_list().len() == 0,
            c.error_list().len() == 0,
    {
        ResolveContext { nodes, errors: Errors::new(), changes: Vec::new() }
    }

    /// The nodes being resolved.
    pub fn nodes(&self) -> (nodes: &[T])
        ensures
            nodes@ == self.node_list(),
    {
        self.nodes.as_slice()
    }

    /// Errors reported so far.
    pub fn errors_mut(&mut self) -> (errors: &mut Errors)
        ensures
            errors@ == old(self).error_list(),
            final(self).node_list() == old(self).node_list(),
            final(self).change_list() == old(self).change_list(),
            final(self).error_list() == final(errors)@,
    {
        &mut self.errors
    }

    /// Requests replacing all nodes.
    pub fn replace_nodes(&mut self, nodes: Vec<T>)
        ensures
            final(self).node_list() == old(self).node_list(),
            final(self).error_list() == old(self).error_list(),
            final(self).change_list() == old(self).change_list().push(
                NodeReplace { index: 0, count: old(self).node_list().len() as usize, nodes },
            ),
    {
        self.replace_range(Bound::Unbounded, Bound::Unbounded, nodes)
    }

    /// Requests replacing the node at `index`.
    pub fn replace_index(&mut self, index: usize, nodes: Vec<T>)
        requires
            index < old(self).node_list().len(),
        ensures
            final(self).node_list() == old(self).node_list(),
            final(self).error_list() == old(self).error_list(),
            final(self).change_list() == old(self).change_list().push(
                NodeReplace { index, count: 1, nodes },
            ),
    {
        let n = self.nodes.len();
        assert(index + 1 <= n);
        self.replace_range(Bound::Included(index), Bound::Excluded(index + 1), nodes)
    }

    /// Requests replacing the nodes of a range, which must lie in the list.
    pub fn replace_range(&mut self, start: Bound, end: Bound, nodes: Vec<T>)
        requires
            range_start(start) <= range_end(end, old(self).node_list().len() as int)
                <= old(self).node_list().len(),
        ensures
            final(self).node_list() == old(self).node_list(),
            final(self).error_list() == old(self).error_list(),
            final(self).change_list() == old(self).change_list().push(
                NodeReplace {
                    index: range_start(start) as usize,
                    count: (range_end(end, old(self).node_list().len() as int) - range_start(
                        start,
                    )) as usize,
                    nodes,
                },
            ),
    {
        let (sta, fin) = compute_range(start, end, self.nodes.len());
        self.changes.push(NodeReplace { index: sta, count: fin - sta, nodes });
    }

    /// The nodes, errors and changes of the step.
    pub fn into_parts(self) -> (parts: (Vec<T>, Errors, Vec<NodeReplace<T>>))
        ensures
            parts.0@ == self.node_list(),
            parts.1@ == self.error_list(),
            parts.2@ == self.change_list(),
    {
        (self.nodes, self.errors, self.changes)
    }
}

/// Number of leading operators that share the precedence of the first:
/// they are applied together.
pub fn next_group_len(precedences: &[u8]) -> (count: usize)
    requires
        precedences@.len() > 0,
    ensures
        1 <= count <= precedences@.len(),
        forall|i: int| 0 <= i < count ==> #[trigger] precedences@[i] == precedences@[0],
        count < precedences@.len() ==> precedences@[count as int] != precedences@[0],
{
    let first = precedences[0];
    let mut count: usize = 1;
    while count < precedences.len() && precedences[count] == first
        invariant
            1 <= count <= precedences@.len(),
            first == precedences@[0],
            forall|i: int| 0 <= i < count ==> #[trigger] precedences@[i] == first,
        decreases precedences@.len() - count,
    {
        count = count + 1;
    }
    count
}

/// What the resolution loop does next.
pub enum ResolveAction {
    /// Evaluate the operators `start..start + count` of the list sorted by
    /// precedence: those that share the precedence of the first.
    Evaluate(usize, usize),
    /// Apply the changes the group just evaluated asked for; after that
    /// the loop starts over from the first operator, unless errors were
    /// reported.
    Apply,
    /// Stop: errors were reported, or no operator asked for a change.
    Stop,
}

/// `n` operators from `pos` on share the precedence of the one at `pos`,
/// and the one after them, if any, has another.
pub open spec fn precedence_run(precs: Seq<u8>, pos: int, n: int) -> bool {
    &&& 1 <= n <= precs.len() - pos
    &&& forall|i: int| pos <= i < pos + n ==> #[trigger] precs[i] == precs[pos]
    &&& pos + n < precs.len() ==> precs[pos + n] != precs[pos]
}

/// The resolution loop's next step, given the precedences of the
/// operators in evaluation order. `pos` is where the next group starts (0
/// at the start of a round), `changes` tells whether the group just
/// evaluated asked for changes, and `errors` whether errors were reported:
/// changes are applied first; then errors, or no operator left, stop the
/// loop; otherwise the next group of equal precedence is evaluated.
pub fn resolve_next(precedences: &[u8], pos: usize, changes: bool, errors: bool) -> (a: ResolveAction)
    ensures
        changes ==> a is Apply,
        !changes && (errors || pos >= precedences@.len()) ==> a is Stop,
        !changes && !errors && pos < precedences@.len() ==> (a matches ResolveAction::Evaluate(s, n)
            && s == pos && precedence_run(precedences@, pos as int, n as int)),
{
    if changes {
        return ResolveAction::Apply;
    }
    if errors || pos >= precedences.len() {
        return ResolveAction::Stop;
    }
    let first = precedences[pos];
    let mut end: usize = pos + 1;
    while end < precedences.len() && precedences[end] == first
        invariant
            pos < end <= precedences@.len(),
            first == precedences@[pos as int],
            forall|i: int| pos <= i < end ==> #[trigger] precedences@[i] == first,
        decreases precedences@.len() - end,
    {
        end = end + 1;
    }
    ResolveAction::Evaluate(pos, end - pos)
}

/// Precedence of the segments processed in a resolution round: the
/// highest (first in evaluation order) among those with pending
/// operations, which come in order of decreasing rank.
pub fn highest_precedence(precedences: &[Option<crate::operators::Precedence>]) -> (res: Option<
    crate::operators::Precedence,
>)
    requires
        forall|i: int, j: int|
            0 <= i < j < precedences@.len() && precedences@[i] is Some && precedences@[j] is Some
                ==> #[trigger] precedences@[j].unwrap().rank() <= #[trigger] precedences@[i].unwrap().rank(),
    ensures
        res is None <==> forall|i: int| 0 <= i < precedences@.len() ==> #[trigger] precedences@[i] is None,
        res matches Some(p) ==> (exists|i: int| 0 <= i < precedences@.len() && #[trigger] precedences@[i] == Some(p))
            && forall|i: int|
            0 <= i < precedences@.len() && #[trigger] precedences@[i] is Some ==> p.rank()
                <= precedences@[i].unwrap().rank(),
{
    let mut res: Option<crate::operators::Precedence> = None;
    let mut i: usize = 0;
    while i < precedences.len()
        invariant
            0 <= i <= precedences@.len(),
            forall|a: int, b: int|
                0 <= a < b < precedences@.len() && precedences@[a] is Some && precedences@[b] is Some
                    ==> #[trigger] precedences@[b].unwrap().rank() <= #[trigger] precedences@[a].unwrap().rank(),
            res is None <==> forall|j: int| 0 <= j < i ==> #[trigger] precedences@[j] is None,
            res matches Some(p) ==> (exists|j: int| 0 <= j < i && #[trigger] precedences@[j] == Some(p))
                && forall|j: int|
                0 <= j < i && #[trigger] precedences@[j] is Some ==> p.rank()
                    <= precedences@[j].unwrap().rank(),
        decreases precedences@.len() - i,
    {
        match precedences[i] {
            Some(p) => {
                proof {
                    if let Some(q) = res {
                        let j = choose|j: int| 0 <= j < i && #[trigger] precedences@[j] == Some(q);
                        assert(p.rank() <= q.rank());
                    }
                }
                res = Some(p);
                assert(precedences@[i as int] == Some(p));
            },
            None => {},
        }
        i = i + 1;
    }
    res
}


/// Applying no changes leaves the nodes as they are.
pub proof fn lemma_no_changes<T>(nodes: Seq<T>, s: Seq<NodeReplace<T>>)
    requires
        s.to_multiset() == vstd::multiset::Multiset::<NodeReplace<T>>::empty(),
    ensures
        all_steps_ok(s),
        spliced(nodes, s, 0, 0) == nodes,
{
    vstd::seq_lib::to_multiset_len(s);
    assert(s.len() == 0);
    assert(nodes.subrange(0, nodes.len() as int) =~= nodes);
}

/// A single replacement within the nodes gives the nodes before it, the
/// new nodes and the nodes after it.
pub proof fn lemma_single_change<T>(nodes: Seq<T>, r: NodeReplace<T>)
    requires
        end_of(r) <= nodes.len(),
    ensures
        all_steps_ok(seq![r]),
        spliced(nodes, seq![r], 0, 0) == nodes.subrange(0, r.index as int) + r.nodes@
            + nodes.subrange(end_of(r), nodes.len() as int),
{
    let s = seq![r];
    assert(step_ok(s, 0));
    assert(spliced(nodes, s, 1, end_of(r)) == nodes.subrange(end_of(r), nodes.len() as int));
}

} // verus!
