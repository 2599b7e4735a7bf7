//! A cache of rendered pages that keeps the most recently used ones.
use vstd::prelude::*;

use crate::single::Single;

verus! {

/// A rendered page: its texture and its size in points.
pub struct PageRenderCache<T> {
    pub page_index: usize,
    pub texture: T,
    pub page_width_points: Single,
    pub page_height_points: Single,
}

/// A lightweight cache that evicts the least recently used page. It keeps its pages, each with its
/// index, in the order of their last use.
pub struct TextureLruCache<T> {
    capacity: usize,
    entries: Vec<(usize, PageRenderCache<T>)>,
}

impl<T> View for TextureLruCache<T> {
    type V = Seq<(usize, PageRenderCache<T>)>;

    closed spec fn view(&self) -> Seq<(usize, PageRenderCache<T>)> {
        self.entries@
    }
}

/// The entry at `i` is that of the page.
pub open spec fn entry_at<T>(
    entries: Seq<(usize, PageRenderCache<T>)>,
    page_index: usize,
    i: int,
) -> bool {
    0 <= i < entries.len() && entries[i].0 == page_index
}

/// The page is in the cache.
pub open spec fn holds<T>(entries: Seq<(usize, PageRenderCache<T>)>, page_index: usize) -> bool {
    exists|i: int| entry_at(entries, page_index, i)
}

/// The place of a page that is in the cache.
pub open spec fn place_of<T>(entries: Seq<(usize, PageRenderCache<T>)>, page_index: usize) -> int {
    choose|i: int| entry_at(entries, page_index, i)
}

/// What the cache holds of a page.
pub open spec fn page_of<T>(
    entries: Seq<(usize, PageRenderCache<T>)>,
    page_index: usize,
) -> Option<PageRenderCache<T>> {
    if holds(entries, page_index) {
        Some(entries[place_of(entries, page_index)].1)
    } else {
        None
    }
}

/// Each page has one entry, and there are no more entries than the capacity allows, except that
/// there is always room for one.
pub open spec fn well_kept<T>(entries: Seq<(usize, PageRenderCache<T>)>, capacity: usize) -> bool {
    &&& forall|i: int, j: int|
        0 <= i < j < entries.len() ==> (#[trigger] entries[i]).0 != (#[trigger] entries[j]).0
    &&& entries.len() <= capacity || entries.len() <= 1
}

/// The entries once a page that is in the cache was used: its entry is the last one.
pub open spec fn used<T>(entries: Seq<(usize, PageRenderCache<T>)>, page_index: usize) -> Seq<
    (usize, PageRenderCache<T>),
> {
    let i = place_of(entries, page_index);
    entries.remove(i).push(entries[i])
}

/// The entries once a page was inserted. It takes the place of an older version of itself, or that
/// of the least recently used page if the cache is full, and its entry is the last one.
pub open spec fn inserted<T>(
    entries: Seq<(usize, PageRenderCache<T>)>,
    capacity: usize,
    page_index: usize,
    page: PageRenderCache<T>,
) -> Seq<(usize, PageRenderCache<T>)> {
    if holds(entries, page_index) {
        entries.remove(place_of(entries, page_index)).push((page_index, page))
    } else if entries.len() >= capacity && entries.len() > 0 {
        entries.remove(0).push((page_index, page))
    } else {
        entries.push((page_index, page))
    }
}

impl<T> TextureLruCache<T> {
    /// How many pages the cache is made for.
    pub closed spec fn capacity(&self) -> usize {
        self.capacity
    }

    /// The cache is in order.
    pub open spec fn wf(&self) -> bool {
        well_kept(self@, self.capacity())
    }

    /// Makes an empty cache.
    pub fn new(capacity: usize) -> (cache: Self)
        ensures
            cache.wf(),
            cache.capacity() == capacity,
            cache@.len() == 0,
    {
        TextureLruCache { capacity, entries: Vec::new() }
    }

    /// Finds the entry of a page.
    fn position(&self, page_index: usize) -> (r: Option<usize>)
        requires
            self.wf(),
        ensures
            match r {
                Some(i) => entry_at(self@, page_index, i as int) && i == place_of(
                    self@,
                    page_index,
                ),
                None => !holds(self@, page_index),
            },
    {
        let mut i: usize = 0;
        while i < self.entries.len()
            invariant
                i <= self.entries@.len(),
                self.wf(),
                forall|j: int| 0 <= j < i ==> !entry_at(self@, page_index, j),
            decreases self.entries.len() - i,
        {
            if self.entries[i].0 == page_index {
                proof {
                    lemma_page_of(self@, self.capacity, page_index, i as int);
                }
                return Some(i);
            }
            i = i + 1;
        }
        None
    }

    /// Looks a page up and marks it as the most recently used one.
    pub fn get(&mut self, page_index: usize) -> (page: Option<&PageRenderCache<T>>)
        requires
            old(self).wf(),
        ensures
            final(self).wf(),
            final(self).capacity() == old(self).capacity(),
            match page {
                Some(p) => page_of(old(self)@, page_index) == Some(*p) && final(self)@ == used(
                    old(self)@,
                    page_index,
                ),
                None => page_of(old(self)@, page_index) is None && final(self)@ == old(self)@,
            },
    {
        match self.position(page_index) {
            Some(i) => {
                let entry = self.entries.remove(i);
                self.entries.push(entry);
                Some(&self.entries[self.entries.len() - 1].1)
            },
            None => None,
        }
    }

    /// Inserts a page as the most recently used one.
    pub fn insert(&mut self, page_index: usize, render_cache: PageRenderCache<T>)
        requires
            old(self).wf(),
        ensures
            final(self).wf(),
            final(self).capacity() == old(self).capacity(),
            final(self)@ == inserted(old(self)@, old(self).capacity(), page_index, render_cache),
    {
        proof {
            lemma_inserted(self@, self.capacity, page_index, render_cache);
        }
        match self.position(page_index) {
            Some(i) => {
                self.entries.remove(i);
            },
            None => {
                if self.entries.len() >= self.capacity && self.entries.len() > 0 {
                    self.entries.remove(0);
                }
            },
        }
        self.entries.push((page_index, render_cache));
    }

    /// Empties the cache.
    pub fn clear(&mut self)
        ensures
            final(self).wf(),
            final(self).capacity() == old(self).capacity(),
            final(self)@.len() == 0,
    {
        self.entries.clear();
    }
}

proof fn lemma_inserted<T>(
    entries: Seq<(usize, PageRenderCache<T>)>,
    capacity: usize,
    page_index: usize,
    page: PageRenderCache<T>,
)
    requires
        well_kept(entries, capacity),
    ensures
        well_kept(inserted(entries, capacity, page_index, page), capacity),
{
    let gone = if holds(entries, page_index) {
        place_of(entries, page_index)
    } else if entries.len() >= capacity && entries.len() > 0 {
        0
    } else {
        entries.len() as int
    };
    assert forall|k: int| 0 <= k < entries.len() && k != gone implies (#[trigger] entries[k]).0
        != page_index by {
        if entries[k].0 == page_index {
            assert(entry_at(entries, page_index, k));
        }
    }
}

proof fn lemma_page_of<T>(
    entries: Seq<(usize, PageRenderCache<T>)>,
    capacity: usize,
    page_index: usize,
    i: int,
)
    requires
        well_kept(entries, capacity),
        entry_at(entries, page_index, i),
    ensures
        page_of(entries, page_index) == Some(entries[i].1),
        place_of(entries, page_index) == i,
{
}

/// A page that was inserted is found.
pub proof fn law_inserted_page_is_found<T>(
    entries: Seq<(usize, PageRenderCache<T>)>,
    capacity: usize,
    page_index: usize,
    page: PageRenderCache<T>,
)
    requires
        well_kept(entries, capacity),
    ensures
        page_of(inserted(entries, capacity, page_index, page), page_index) == Some(page),
{
    let next = inserted(entries, capacity, page_index, page);
    lemma_inserted(entries, capacity, page_index, page);
    lemma_page_of(next, capacity, page_index, next.len() - 1);
}

/// Insertion leaves the other pages in the cache, except for the least recently used one where the
/// new page needs its place.
pub proof fn law_only_the_oldest_page_is_evicted<T>(
    entries: Seq<(usize, PageRenderCache<T>)>,
    capacity: usize,
    page_index: usize,
    page: PageRenderCache<T>,
    other: usize,
)
    requires
        well_kept(entries, capacity),
        other != page_index,
    ensures
        ({
            let evicted = !holds(entries, page_index) && entries.len() >= capacity
                && entries.len() > 0 && entries[0].0 == other;
            page_of(inserted(entries, capacity, page_index, page), other) == if evicted {
                None
            } else {
                page_of(entries, other)
            }
        }),
{
    let next = inserted(entries, capacity, page_index, page);
    let gone = if holds(entries, page_index) {
        place_of(entries, page_index)
    } else if entries.len() >= capacity && entries.len() > 0 {
        0
    } else {
        entries.len() as int
    };
    lemma_inserted(entries, capacity, page_index, page);
    if holds(entries, other) {
        let i = place_of(entries, other);
        if i < gone {
            lemma_page_of(next, capacity, other, i);
        } else if i > gone {
            lemma_page_of(next, capacity, other, i - 1);
        }
    } else if holds(next, other) {
        let j = place_of(next, other);
        assert(entry_at(entries, other, if j < gone {
            j
        } else {
            j + 1
        }));
    }
}

/// Looking a page up changes what the cache holds of no page; only the order of use changes.
pub proof fn law_lookup_keeps_all_pages<T>(
    entries: Seq<(usize, PageRenderCache<T>)>,
    capacity: usize,
    page_index: usize,
    other: usize,
)
    requires
        well_kept(entries, capacity),
        holds(entries, page_index),
    ensures
        page_of(used(entries, page_index), other) == page_of(entries, other),
        used(entries, page_index).last().0 == page_index,
{
    let i = place_of(entries, page_index);
    let page = entries[i].1;
    if other == page_index {
        law_inserted_page_is_found(entries, capacity, page_index, page);
    } else {
        law_only_the_oldest_page_is_evicted(entries, capacity, page_index, page, other);
    }
}

/// What can be done with a cache.
pub enum CacheEvent<T> {
    Insert(usize, PageRenderCache<T>),
    Lookup(usize),
    Clear,
}

/// The entries of a cache that was made empty, after a history of events.
pub open spec fn entries_after<T>(history: Seq<CacheEvent<T>>, capacity: usize) -> Seq<
    (usize, PageRenderCache<T>),
>
    decreases history.len(),
{
    if history.len() == 0 {
        Seq::empty()
    } else {
        let entries = entries_after(history.drop_last(), capacity);
        match history.last() {
            CacheEvent::Insert(page_index, page) => inserted(entries, capacity, page_index, page),
            CacheEvent::Lookup(page_index) => if holds(entries, page_index) {
                used(entries, page_index)
            } else {
                entries
            },
            CacheEvent::Clear => Seq::empty(),
        }
    }
}

/// The pages that were inserted or found since the cache was last empty, in their order.
pub open spec fn touches<T>(history: Seq<CacheEvent<T>>, capacity: usize) -> Seq<usize>
    decreases history.len(),
{
    if history.len() == 0 {
        Seq::empty()
    } else {
        let before = touches(history.drop_last(), capacity);
        match history.last() {
            CacheEvent::Insert(page_index, page) => before.push(page_index),
            CacheEvent::Lookup(page_index) => if holds(
                entries_after(history.drop_last(), capacity),
                page_index,
            ) {
                before.push(page_index)
            } else {
                before
            },
            CacheEvent::Clear => Seq::empty(),
        }
    }
}

/// The pages with one of them moved to the end, or put there.
pub open spec fn moved_last(pages: Seq<usize>, page: usize) -> Seq<usize> {
    if pages.contains(page) {
        pages.remove(pages.index_of(page)).push(page)
    } else {
        pages.push(page)
    }
}

/// The pages among the touches, each once, in the order of their last touch.
pub open spec fn by_last_touch(touched: Seq<usize>) -> Seq<usize>
    decreases touched.len(),
{
    if touched.len() == 0 {
        Seq::empty()
    } else {
        moved_last(by_last_touch(touched.drop_last()), touched.last())
    }
}

/// How many pages a cache has room for: as many as it is made for, and one at least.
pub open spec fn room(capacity: usize) -> int {
    if capacity == 0 {
        1
    } else {
        capacity as int
    }
}

/// The last pages of a sequence, as many as there is room for.
pub open spec fn newest(pages: Seq<usize>, capacity: usize) -> Seq<usize> {
    if pages.len() <= room(capacity) {
        pages
    } else {
        pages.skip(pages.len() - room(capacity))
    }
}

/// The indices of the pages in a cache.
pub open spec fn page_indices<T>(entries: Seq<(usize, PageRenderCache<T>)>) -> Seq<usize> {
    entries.map_values(|entry: (usize, PageRenderCache<T>)| entry.0)
}

/// The page that was inserted last under an index since the cache was last empty.
pub open spec fn last_inserted<T>(history: Seq<CacheEvent<T>>, page_index: usize) -> Option<
    PageRenderCache<T>,
>
    decreases history.len(),
{
    if history.len() == 0 {
        None
    } else {
        match history.last() {
            CacheEvent::Insert(other, page) if other == page_index => Some(page),
            CacheEvent::Clear => None,
            _ => last_inserted(history.drop_last(), page_index),
        }
    }
}

proof fn lemma_moved_last(pages: Seq<usize>, page: usize)
    requires
        pages.no_duplicates(),
    ensures
        moved_last(pages, page).no_duplicates(),
{
    if pages.contains(page) {
        assert(pages[pages.index_of(page)] == page);
    }
}

proof fn lemma_by_last_touch(touched: Seq<usize>)
    ensures
        by_last_touch(touched).no_duplicates(),
    decreases touched.len(),
{
    if touched.len() > 0 {
        lemma_by_last_touch(touched.drop_last());
        lemma_moved_last(by_last_touch(touched.drop_last()), touched.last());
    }
}

/// Inserting a page into a cache that holds the newest pages of a sequence.
proof fn lemma_touch<T>(
    entries: Seq<(usize, PageRenderCache<T>)>,
    capacity: usize,
    pages: Seq<usize>,
    page_index: usize,
    page: PageRenderCache<T>,
)
    requires
        page_indices(entries) == newest(pages, capacity),
        pages.no_duplicates(),
    ensures
        page_indices(inserted(entries, capacity, page_index, page)) == newest(
            moved_last(pages, page_index),
            capacity,
        ),
{
    let next = inserted(entries, capacity, page_index, page);
    let m = pages.len() - entries.len();
    assert(entries.len() == page_indices(entries).len());
    assert forall|i: int| 0 <= i < entries.len() implies (#[trigger] entries[i]).0 == pages[m
        + i] by {
        assert(page_indices(entries)[i] == entries[i].0);
    }
    if holds(entries, page_index) {
        let p = place_of(entries, page_index);
        assert(entry_at(entries, page_index, p));
        assert(pages[m + p] == page_index);
        assert(pages.contains(page_index));
        assert(pages.index_of(page_index) == m + p);
    } else if pages.contains(page_index) {
        let q = pages.index_of(page_index);
        assert(pages[q] == page_index);
        if q >= m {
            assert(entry_at(entries, page_index, q - m));
        }
    }
    assert(page_indices(next) == newest(moved_last(pages, page_index), capacity));
}

/// Looking up a page that is in the cache orders the entries as inserting it again does.
proof fn lemma_used<T>(
    entries: Seq<(usize, PageRenderCache<T>)>,
    capacity: usize,
    page_index: usize,
)
    requires
        holds(entries, page_index),
    ensures
        used(entries, page_index) == inserted(
            entries,
            capacity,
            page_index,
            entries[place_of(entries, page_index)].1,
        ),
{
    assert(entry_at(entries, page_index, place_of(entries, page_index)));
}

/// Whatever was done with a cache, it is in order and holds the pages that were inserted or found
/// last, as many as it has room for, in the order of their last use.
pub proof fn law_newest_pages_are_kept<T>(history: Seq<CacheEvent<T>>, capacity: usize)
    ensures
        well_kept(entries_after(history, capacity), capacity),
        page_indices(entries_after(history, capacity)) == newest(
            by_last_touch(touches(history, capacity)),
            capacity,
        ),
    decreases history.len(),
{
    if history.len() > 0 {
        let before = history.drop_last();
        let entries = entries_after(before, capacity);
        let touched = touches(before, capacity);
        let pages = by_last_touch(touched);
        law_newest_pages_are_kept(before, capacity);
        lemma_by_last_touch(touched);
        match history.last() {
            CacheEvent::Insert(page_index, page) => {
                assert(touched.push(page_index).drop_last() == touched);
                lemma_inserted(entries, capacity, page_index, page);
                lemma_touch(entries, capacity, pages, page_index, page);
            },
            CacheEvent::Lookup(page_index) => {
                if holds(entries, page_index) {
                    let page = entries[place_of(entries, page_index)].1;
                    assert(touched.push(page_index).drop_last() == touched);
                    lemma_used(entries, capacity, page_index);
                    lemma_inserted(entries, capacity, page_index, page);
                    lemma_touch(entries, capacity, pages, page_index, page);
                }
            },
            CacheEvent::Clear => {},
        }
    }
}

/// Whatever was done with a cache, what it holds of a page is what was inserted last.
pub proof fn law_held_page_is_the_last_inserted<T>(
    history: Seq<CacheEvent<T>>,
    capacity: usize,
    page_index: usize,
)
    requires
        holds(entries_after(history, capacity), page_index),
    ensures
        page_of(entries_after(history, capacity), page_index) == last_inserted(history, page_index),
    decreases history.len(),
{
    if history.len() == 0 {
        assert(!entry_at(
            entries_after(history, capacity),
            page_index,
            place_of(entries_after(history, capacity), page_index),
        ));
    } else {
        let before = history.drop_last();
        let entries = entries_after(before, capacity);
        law_newest_pages_are_kept(before, capacity);
        match history.last() {
            CacheEvent::Insert(other, page) => {
                if other == page_index {
                    law_inserted_page_is_found(entries, capacity, page_index, page);
                } else {
                    law_only_the_oldest_page_is_evicted(entries, capacity, other, page, page_index);
                    law_held_page_is_the_last_inserted(before, capacity, page_index);
                }
            },
            CacheEvent::Lookup(other) => {
                if holds(entries, other) {
                    law_lookup_keeps_all_pages(entries, capacity, other, page_index);
                }
                law_held_page_is_the_last_inserted(before, capacity, page_index);
            },
            CacheEvent::Clear => {
                assert(!entry_at(
                    entries_after(history, capacity),
                    page_index,
                    place_of(entries_after(history, capacity), page_index),
                ));
            },
        }
    }
}

} // verus!
