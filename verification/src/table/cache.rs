//! The page cache: the pages read last, by page number.
use std::collections::VecDeque;
use vstd::prelude::*;
use crate::table::cache::lru::Lru;
use crate::table::page::marker::HeaderOrData;
use crate::table::page::PageRef;

pub mod lru;

verus! {

/// The way in which a cache makes room.
pub enum Evictor {
    /// The entry added first leaves first.
    Lru(Lru),
}

/// A page in the cache with its number.
pub struct CacheEntry {
    num: u64,
    page: PageRef<HeaderOrData>,
}

impl CacheEntry {
    /// The number of the page.
    pub closed spec fn spec_num(&self) -> u64 {
        self.num
    }

    /// The page.
    pub closed spec fn spec_page(&self) -> PageRef<HeaderOrData> {
        self.page
    }

    /// An entry for the page `page` with the number `num`.
    pub fn new(num: u64, page: PageRef<HeaderOrData>) -> (r: Self)
        ensures
            r.spec_num() == num,
            r.spec_page() == page,
    {
        Self { num, page }
    }

    /// The number of the page.
    pub fn num(&self) -> (r: u64)
        ensures
            r == self.spec_num(),
    {
        self.num
    }

    /// The page.
    pub fn page(&self) -> (r: &PageRef<HeaderOrData>)
        ensures
            *r == self.spec_page(),
    {
        &self.page
    }
}

/// A cache of pages that holds fewer entries than its capacity.
pub struct PageCache {
    list: VecDeque<CacheEntry>,
    capacity: usize,
}

impl PageCache {
    /// The entries, the oldest first.
    pub closed spec fn view(&self) -> Seq<CacheEntry> {
        self.list@
    }

    /// The capacity that the cache was made with.
    pub closed spec fn spec_capacity(&self) -> usize {
        self.capacity
    }

    /// An empty cache.
    pub fn with_capacity(capacity: usize) -> (r: Self)
        ensures
            r@.len() == 0,
            r.spec_capacity() == capacity,
    {
        Self { list: VecDeque::new(), capacity }
    }

    /// The number of entries.
    pub fn len(&self) -> (r: usize)
        ensures
            r == self@.len(),
    {
        self.list.len()
    }

    /// The entry added last for the page `page_num`, if there is one.
    pub fn lookup(&self, page_num: u64) -> (r: Option<&CacheEntry>)
        ensures
            match r {
                Some(e) => exists|i: int|
                    0 <= i < self@.len() && self@[i] == *e && e.spec_num() == page_num && forall|
                        j: int,
                    |
                        i < j < self@.len() ==> (#[trigger] self@[j]).spec_num() != page_num,
                None => forall|j: int|
                    0 <= j < self@.len() ==> (#[trigger] self@[j]).spec_num() != page_num,
            },
    {
        let mut i: usize = self.list.len();
        while i > 0
            invariant
                i <= self@.len(),
                forall|j: int| i <= j < self@.len() ==> (#[trigger] self@[j]).spec_num() != page_num,
            decreases i,
        {
            i -= 1;
            if self.list[i].num == page_num {
                return Some(&self.list[i]);
            }
        }
        None
    }

    /// Adds an entry at the back. Where the cache would reach its capacity,
    /// the oldest entry leaves first.
    pub fn add(&mut self, entry: CacheEntry)
        ensures
            final(self).spec_capacity() == old(self).spec_capacity(),
            final(self)@ == if old(self)@.len() + 1 >= old(self).spec_capacity() && old(
                self,
            )@.len() > 0 {
                old(self)@.drop_first().push(entry)
            } else {
                old(self)@.push(entry)
            },
    {
        let len: usize = self.list.len();
        if self.capacity <= len || self.capacity - len <= 1 {
            let _ = self.list.pop_front();
            assert(len > 0 ==> self.list@ =~= old(self).list@.drop_first());
        }
        self.list.push_back(entry);
    }
}

} // verus!
