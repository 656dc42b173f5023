//! Paged storage for large collections of small objects.

use vstd::prelude::*;

verus! {

/// Page size used when none is given.
pub const DEFAULT_PAGE_SIZE: usize = 64;

/// Growable storage made of pages of a fixed size. Items are only added,
/// and each keeps its index.
pub struct Arena<T> {
    page_size: usize,
    pages: Vec<Vec<T>>,
}

/// Items of the pages, in order.
pub open spec fn flatten<T>(pages: Seq<Vec<T>>) -> Seq<T>
    decreases pages.len(),
{
    if pages.len() == 0 {
        Seq::empty()
    } else {
        flatten(pages.drop_last()) + pages.last()@
    }
}

proof fn lemma_flatten_full<T>(pages: Seq<Vec<T>>, size: int)
    requires
        size > 0,
        forall|i: int| 0 <= i < pages.len() ==> (#[trigger] pages[i])@.len() == size,
    ensures
        flatten(pages).len() == pages.len() * size,
    decreases pages.len(),
{
    if pages.len() > 0 {
        lemma_flatten_full(pages.drop_last(), size);
        assert(pages.len() * size == (pages.len() - 1) * size + size) by (nonlinear_arith);
    }
}

proof fn lemma_flatten_index<T>(pages: Seq<Vec<T>>, size: int, k: int)
    requires
        size > 0,
        forall|i: int| 0 <= i < pages.len() - 1 ==> (#[trigger] pages[i])@.len() == size,
        forall|i: int| 0 <= i < pages.len() ==> (#[trigger] pages[i])@.len() <= size,
        0 <= k < flatten(pages).len(),
        pages.len() > 0,
    ensures
        k / size < pages.len(),
        k % size < pages[k / size]@.len(),
        flatten(pages)[k] == pages[k / size]@[k % size],
    decreases pages.len(),
{
    let init = pages.drop_last();
    lemma_flatten_full(init, size);
    let n = flatten(init).len();
    assert(n == (pages.len() - 1) * size);
    if k < n {
        lemma_flatten_index(init, size, k);
        assert(flatten(pages)[k] == flatten(init)[k]);
    } else {
        let j = k - n;
        assert(flatten(pages)[k] == pages.last()@[j]);
        assert(pages.last()@.len() <= size);
        assert(0 <= j < size);
        vstd::arithmetic::div_mod::lemma_fundamental_div_mod_converse(
            k,
            size,
            pages.len() - 1,
            j,
        );
    }
}

impl<T> Arena<T> {
    /// Pages are non-empty, all full but the last, which is at most full.
    pub closed spec fn wf(self) -> bool {
        &&& self.page_size > 0
        &&& forall|i: int| 0 <= i < self.pages@.len() ==> (#[trigger] self.pages@[i])@.len() > 0
        &&& forall|i: int|
            0 <= i < self.pages@.len() - 1 ==> (#[trigger] self.pages@[i])@.len() == self.page_size
        &&& forall|i: int|
            0 <= i < self.pages@.len() ==> (#[trigger] self.pages@[i])@.len() <= self.page_size
        &&& flatten(self.pages@).len() <= usize::MAX
    }

    /// Items of the arena, in the order they were stored.
    pub closed spec fn items(self) -> Seq<T> {
        flatten(self.pages@)
    }

    /// Number of items of a page.
    pub closed spec fn page_len(self) -> int {
        self.page_size as int
    }

    /// An empty arena with the default page size.
    pub fn new() -> (a: Arena<T>)
        ensures
            a.wf(),
            a.items().len() == 0,
            a.page_len() == DEFAULT_PAGE_SIZE,
    {
        Self::new_with_page_size(0)
    }

    /// An empty arena with pages of `page_size` items, or the default size
    /// for zero.
    pub fn new_with_page_size(page_size: usize) -> (a: Arena<T>)
        ensures
            a.wf(),
            a.items().len() == 0,
            a.page_len() == if page_size == 0 {
                DEFAULT_PAGE_SIZE
            } else {
                page_size
            },
    {
        let page_size = if page_size == 0 {
            DEFAULT_PAGE_SIZE
        } else {
            page_size
        };
        Arena { page_size, pages: Vec::new() }
    }

    /// Number of items in the arena.
    pub fn count(&self) -> (n: usize)
        requires
            self.wf(),
        ensures
            n == self.items().len(),
    {
        let pages = self.pages.len();
        if pages == 0 {
            0
        } else {
            let last = self.pages[pages - 1].len();
            proof {
                lemma_flatten_full(self.pages@.drop_last(), self.page_size as int);
                assert(self.pages@.drop_last().len() == pages - 1);
                assert(self.items().len() == (pages - 1) * self.page_size + last);
                assert((pages - 1) * self.page_size <= usize::MAX);
            }
            (pages - 1) * self.page_size + last
        }
    }

    /// Stores `value`, returning its index.
    pub fn store(&mut self, value: T) -> (index: usize)
        requires
            old(self).wf(),
            old(self).items().len() < usize::MAX,
        ensures
            final(self).wf(),
            final(self).page_len() == old(self).page_len(),
            final(self).items() == old(self).items().push(value),
            index == old(self).items().len(),
    {
        let ghost before = self.pages@;
        let n = self.pages.len();
        let full = n == 0 || self.pages[n - 1].len() >= self.page_size;
        if full {
            let mut page: Vec<T> = Vec::new();
            page.push(value);
            self.pages.push(page);
            proof {
                assert(self.pages@.drop_last() =~= before);
                assert(flatten(self.pages@) =~= flatten(before).push(value));
            }
        } else {
            let mut page: Vec<T> = Vec::new();
            self.pages.set_and_swap(n - 1, &mut page);
            page.push(value);
            self.pages.set(n - 1, page);
            proof {
                assert(self.pages@.drop_last() =~= before.drop_last());
                assert(flatten(self.pages@) =~= flatten(before).push(value));
            }
        }
        proof {
            if n > 0 && full {
                lemma_flatten_full(before, self.page_size as int);
            } else if n > 0 {
                lemma_flatten_full(before.drop_last(), self.page_size as int);
            }
        }
        self.count() - 1
    }

    /// Item at `index`.
    pub fn get(&self, index: usize) -> (item: &T)
        requires
            self.wf(),
            index < self.items().len(),
        ensures
            *item == self.items()[index as int],
    {
        proof {
            lemma_flatten_index(self.pages@, self.page_size as int, index as int);
        }
        let page = index / self.page_size;
        let offset = index % self.page_size;
        &self.pages[page][offset]
    }

    /// Cursor over the items currently in the arena.
    pub fn iter(&self) -> (it: ArenaIterator<'_, T>)
        requires
            self.wf(),
        ensures
            it.arena() == *self,
            it.index() == 0,
            it.count() == self.items().len(),
            it.remaining() == self.items(),
    {
        ArenaIterator { arena: self, index: 0, count: self.count() }
    }

    /// All items, in order.
    pub fn take(self) -> (items: Vec<T>)
        ensures
            items@ == self.items(),
    {
        let mut pages = self.pages;
        let ghost all = pages@;
        let mut out: Vec<T> = Vec::new();
        let mut i: usize = 0;
        let n = pages.len();
        while i < n
            invariant
                0 <= i <= n,
                n == all.len(),
                pages@.len() == n,
                forall|j: int| i <= j < n ==> #[trigger] pages@[j] == all[j],
                out@ == flatten(all.take(i as int)),
            decreases n - i,
        {
            let mut page: Vec<T> = Vec::new();
            pages.set_and_swap(i, &mut page);
            out.append(&mut page);
            proof {
                assert(all.take(i + 1).drop_last() =~= all.take(i as int));
            }
            i = i + 1;
        }
        proof {
            assert(all.take(n as int) =~= all);
        }
        out
    }
}

/// A cursor over the items of an [`Arena`], up to a count fixed when it
/// was made.
pub struct ArenaIterator<'a, T> {
    arena: &'a Arena<T>,
    index: usize,
    count: usize,
}

impl<'a, T> ArenaIterator<'a, T> {
    pub closed spec fn arena(self) -> Arena<T> {
        *self.arena
    }

    pub closed spec fn index(self) -> int {
        self.index as int
    }

    pub closed spec fn count(self) -> int {
        self.count as int
    }

    /// The items still to be yielded, in order.
    pub open spec fn remaining(self) -> Seq<T> {
        self.arena().items().subrange(self.index(), self.count())
    }

    /// The next item, until the count is reached.
    pub fn next(&mut self) -> (item: Option<&'a T>)
        requires
            old(self).arena().wf(),
            old(self).count() <= old(self).arena().items().len(),
        ensures
            final(self).arena() == old(self).arena(),
            final(self).count() == old(self).count(),
            old(self).index() < old(self).count() ==> item is Some && *item.unwrap() == old(self).arena().items()[old(self).index()] && final(self).index() == old(self).index() + 1,
            old(self).index() >= old(self).count() ==> item is None && final(self).index() == old(self).index(),
            0 <= old(self).index() <= old(self).count() ==> match item {
                Some(v) => old(self).remaining() == seq![*v] + final(self).remaining(),
                None => old(self).remaining().len() == 0 && final(self).remaining().len() == 0,
            },
    {
        if self.index < self.count {
            let item = self.arena.get(self.index);
            self.index = self.index + 1;
            Some(item)
        } else {
            None
        }
    }
}

} // verus!
