//! The layout of a partition file and the virtual page numbering.
use std::collections::HashMap;
use vstd::prelude::*;
use crate::error::Error;
use crate::table::page::partition::{
    header_image,
    master_image,
    zero_image,
    PageUpdate,
    PageWrite,
    PartitionHandle,
    Released,
};

verus! {

broadcast use vstd::std_specs::hash::group_hash_axioms;

/// The default size of the page is 4KB.
pub const DEFAULT_PAGE_SIZE: usize = 4096;

/// The number of header pages that one master page can track.
pub const MAX_HEADER_PAGES: usize = 2048;

/// The number of data pages that one header page tracks.
pub const DATA_PAGES_PER_HEADER: usize = 32768;

/// The size of header in header pages.
/// 1-byte  : check page is valid.
/// 4-bytes : page group id.
/// 8-bytes : next header page offset.
pub const HEADER_HEADER_SIZE: usize = 13;

/// The size of header in data pages.
pub const DATA_HEADER_SIZE: usize = 10;

/// The size of data entry.
/// 8-bytes : data page offset.
/// 2-bytes : free space in current data page.
pub const DATA_ENTRY_SIZE: usize = 10;

/// Bytes kept free on each page for recovery bookkeeping.
pub const RESERVED_SIZE: usize = 36;

/// The factor that separates the partition id from the local page number
/// inside a virtual page number.
pub const PAGES_PER_PARTITION: u64 = 10000000000;

/// The byte offset of header page `h`: one master page, then `h` groups of a
/// header page and its data pages.
pub open spec fn header_offset(h: int) -> int {
    (1 + h * (DATA_PAGES_PER_HEADER + 1)) * DEFAULT_PAGE_SIZE
}

/// The byte offset of data page `p`: the master page, the header pages up to
/// and including its own, and the data pages before it.
pub open spec fn data_offset(p: int) -> int {
    (2 + p / (DATA_PAGES_PER_HEADER as int) + p) * DEFAULT_PAGE_SIZE
}

/// The virtual page number of page `page` in partition `part`.
pub open spec fn vpn_of(part: int, page: int) -> int {
    part * PAGES_PER_PARTITION + page
}

/// Returns the number of data page entries in a header page.
pub fn header_entry_count() -> (r: usize)
    ensures
        r == 404,
        r == (DEFAULT_PAGE_SIZE - RESERVED_SIZE - HEADER_HEADER_SIZE) / (DATA_HEADER_SIZE as int),
{
    (effective_page_size() - HEADER_HEADER_SIZE) / DATA_HEADER_SIZE
}

/// Returns the effective page size.
pub fn effective_page_size() -> (r: usize)
    ensures
        r == DEFAULT_PAGE_SIZE - RESERVED_SIZE,
{
    DEFAULT_PAGE_SIZE - RESERVED_SIZE
}

/// The byte offset in the partition file of the header page `header_index`.
pub fn virtual_header_page_offset(header_index: usize) -> (r: u64)
    requires
        header_offset(header_index as int) <= u64::MAX,
    ensures
        r == header_offset(header_index as int),
{
    let spacing: u64 = DATA_PAGES_PER_HEADER as u64 + 1;
    let h: u64 = header_index as u64;
    assert(h * spacing <= (1 + h * spacing) * 4096) by (nonlinear_arith);
    (1 + h * spacing) * (DEFAULT_PAGE_SIZE as u64)
}

/// The byte offset in the partition file of the data page `page_num`.
pub fn virtual_data_page_offset(page_num: usize) -> (r: u64)
    requires
        data_offset(page_num as int) <= u64::MAX,
    ensures
        r == data_offset(page_num as int),
{
    let p: u64 = page_num as u64;
    let other_headers: u64 = p / (DATA_PAGES_PER_HEADER as u64);
    (2 + other_headers + p) * (DEFAULT_PAGE_SIZE as u64)
}

/// Gets partition number from virtual page number.
pub fn calculate_part_num(virtual_page_num: u64) -> (r: usize)
    ensures
        r == virtual_page_num / PAGES_PER_PARTITION,
{
    (virtual_page_num / PAGES_PER_PARTITION) as usize
}

/// Gets data page number from virtual page number.
pub fn calculate_page_num(virtual_page_num: u64) -> (r: usize)
    ensures
        r == (virtual_page_num % PAGES_PER_PARTITION) as usize,
        virtual_page_num % PAGES_PER_PARTITION <= usize::MAX ==> r == virtual_page_num
            % PAGES_PER_PARTITION,
{
    (virtual_page_num % PAGES_PER_PARTITION) as usize
}

/// Returns the virtual page number given partition/data page number.
pub fn virtual_page_num(part_num: usize, page_num: usize) -> (r: u64)
    requires
        page_num < PAGES_PER_PARTITION,
        vpn_of(part_num as int, page_num as int) <= u64::MAX,
    ensures
        r == vpn_of(part_num as int, page_num as int),
{
    let part: u64 = part_num as u64;
    assert(part * 10000000000 <= part * 10000000000 + page_num);
    part * PAGES_PER_PARTITION + page_num as u64
}

/// The virtual page number for `(part_num, page_num)`, or `None` where the
/// local page number does not fit below the partition factor or the result
/// does not fit in 64 bits.
pub fn checked_virtual_page_num(part_num: usize, page_num: usize) -> (r: Option<u64>)
    ensures
        r is Some <==> page_num < PAGES_PER_PARTITION && vpn_of(part_num as int, page_num as int)
            <= u64::MAX,
        r is Some ==> r->0 == vpn_of(part_num as int, page_num as int),
{
    if page_num as u64 >= PAGES_PER_PARTITION {
        return None;
    }
    // The largest partition number whose pages all fit in 64 bits.
    let limit: u64 = u64::MAX / PAGES_PER_PARTITION;
    let part: u64 = part_num as u64;
    if part > limit {
        assert(vpn_of(part_num as int, page_num as int) > u64::MAX) by {
            assert(part * 10000000000 >= (limit + 1) * 10000000000) by (nonlinear_arith)
                requires
                    part >= limit + 1,
            ;
        }
        return None;
    }
    assert(part * 10000000000 <= limit * 10000000000) by (nonlinear_arith)
        requires
            part <= limit,
    ;
    if part == limit && page_num as u64 > u64::MAX - limit * PAGES_PER_PARTITION {
        return None;
    }
    Some(virtual_page_num(part_num, page_num))
}

/// Whether a page with `required_space` free bytes can be asked for, where
/// `empty_page_metadata_size` bytes of each page are taken: the space must
/// be positive and below what a page has left.
pub fn check_required_space(required_space: usize, empty_page_metadata_size: usize) -> (r: Result<
    (),
    Error,
>)
    ensures
        r is Ok <==> 0 < required_space && required_space + empty_page_metadata_size
            < DEFAULT_PAGE_SIZE - RESERVED_SIZE,
        r is Err ==> (r->Err_0 is Invalid <==> required_space == 0),
        r is Err ==> (r->Err_0 is TooLargeSize <==> required_space > 0),
{
    if required_space == 0 {
        return Err(Error::Invalid("can't request nonpositive amount of space.".to_owned()));
    }
    let effective: usize = effective_page_size();
    if empty_page_metadata_size >= effective || required_space >= effective
        - empty_page_metadata_size {
        return Err(Error::TooLargeSize);
    }
    Ok(())
}

/// Decoding a virtual page number gives back the partition and the local
/// page that it was made from, for every local page below the partition
/// factor.
pub proof fn lemma_vpn_round_trip(part: int, page: int)
    requires
        0 <= part,
        0 <= page < PAGES_PER_PARTITION,
    ensures
        vpn_of(part, page) / (PAGES_PER_PARTITION as int) == part,
        vpn_of(part, page) % (PAGES_PER_PARTITION as int) == page,
{
    vstd::arithmetic::div_mod::lemma_fundamental_div_mod_converse(
        vpn_of(part, page),
        PAGES_PER_PARTITION as int,
        part,
        page,
    );
}

/// Encoding the two halves of a virtual page number gives the number back.
pub proof fn lemma_vpn_decode_encode(v: int)
    requires
        0 <= v,
    ensures
        vpn_of(v / (PAGES_PER_PARTITION as int), v % (PAGES_PER_PARTITION as int)) == v,
{
    vstd::arithmetic::div_mod::lemma_fundamental_div_mod(v, PAGES_PER_PARTITION as int);
}

/// The number of local pages that one partition can hold.
pub const PAGES_PER_FILE: usize = MAX_HEADER_PAGES * DATA_PAGES_PER_HEADER;

/// The local page number that the virtual page number `v` names.
pub open spec fn local_page(v: u64) -> int {
    (v % PAGES_PER_PARTITION) as int
}

/// The partition that the virtual page number `v` names.
pub open spec fn partition_of(v: u64) -> usize {
    (v / PAGES_PER_PARTITION) as usize
}

/// The partitions of one store: a map from partition number to the
/// allocation state of the partition, and the counter that numbers new
/// partitions.
pub struct PageManager {
    path: String,
    /// The page manager id.
    page_manager_id: u32,
    partitions: HashMap<usize, PartitionHandle>,
    /// Counter to generate new partition numbers.
    partition_counter: usize,
    /// The size of metadata of an empty data page.
    empty_page_metadata_size: usize,
}

impl PageManager {
    /// Whether partition `n` is there.
    pub closed spec fn has_part(&self, n: usize) -> bool {
        self.partitions@.contains_key(n)
    }

    /// The allocation state of partition `n`.
    pub closed spec fn part(&self, n: usize) -> PartitionHandle {
        self.partitions@[n]
    }

    /// The local pages allocated in partition `n`.
    pub open spec fn pages(&self, n: usize) -> Set<int> {
        self.part(n)@
    }

    /// The path under which the partition files lie.
    pub closed spec fn spec_path(&self) -> Seq<char> {
        self.path@
    }

    /// The number that the next new partition gets.
    pub closed spec fn counter(&self) -> usize {
        self.partition_counter
    }

    /// The space that is left on an empty data page.
    pub closed spec fn spec_empty_page_metadata_size(&self) -> usize {
        self.empty_page_metadata_size
    }

    /// Every partition is well formed and filed under its own number.
    pub closed spec fn wf(&self) -> bool {
        forall|n: usize| #[trigger]
            self.partitions@.contains_key(n) ==> self.partitions@[n].wf()
                && self.partitions@[n].spec_part_num() == n
    }

    /// Whether the two managers hold the same partitions in the same state,
    /// but perhaps for partition `n`.
    pub open spec fn same_but(&self, other: &Self, n: usize) -> bool {
        forall|m: usize|
            m != n ==> self.has_part(m) == other.has_part(m) && (self.has_part(m) ==> self.part(m)
                == other.part(m))
    }

    /// A manager without partitions for the files under `path`.
    pub fn new(path: String) -> (r: Self)
        ensures
            r.wf(),
            r.counter() == 0,
            r.spec_path() == path@,
            forall|n: usize| !r.has_part(n),
    {
        PageManager {
            path,
            page_manager_id: 0,
            partitions: HashMap::new(),
            partition_counter: 0,
            empty_page_metadata_size: 0,
        }
    }

    /// The path under which the partition files lie.
    pub fn path(&self) -> (r: &String)
        ensures
            r@ == self.spec_path(),
    {
        &self.path
    }

    /// Sets the space that is left on an empty data page from the size of
    /// its metadata.
    pub fn set_empty_page_metadata_size(&mut self, empty_page_metadata_size: usize)
        requires
            empty_page_metadata_size <= DEFAULT_PAGE_SIZE - RESERVED_SIZE,
        ensures
            final(self).spec_empty_page_metadata_size() == DEFAULT_PAGE_SIZE - RESERVED_SIZE
                - empty_page_metadata_size,
            final(self).counter() == old(self).counter(),
            old(self).wf() ==> final(self).wf(),
            forall|n: usize|
                final(self).has_part(n) == old(self).has_part(n) && final(self).part(n) == old(
                    self,
                ).part(n),
    {
        self.empty_page_metadata_size = effective_page_size() - empty_page_metadata_size;
    }

    /// The space that is left on an empty data page.
    pub fn empty_page_metadata_size(&self) -> (r: usize)
        ensures
            r == self.spec_empty_page_metadata_size(),
    {
        self.empty_page_metadata_size
    }

    fn inner_alloc_part(&mut self, part_num: usize) -> (r: Result<usize, Error>)
        requires
            old(self).wf(),
        ensures
            final(self).wf(),
            final(self).counter() == old(self).counter(),
            final(self).same_but(old(self), part_num),
            match r {
                Ok(n) => {
                    &&& n == part_num
                    &&& !old(self).has_part(part_num)
                    &&& final(self).has_part(part_num)
                    &&& final(self).pages(part_num) == Set::<int>::empty()
                    &&& forall|h: int| !final(self).part(part_num).active(h)
                },
                Err(e) => {
                    &&& e is Corrupted
                    &&& old(self).has_part(part_num)
                    &&& final(self).has_part(part_num)
                    &&& final(self).part(part_num) == old(self).part(part_num)
                },
            },
    {
        if self.partitions.contains_key(&part_num) {
            return Err(
                Error::Corrupted("allocate partition failed: partition number is exist.".to_owned()),
            );
        }
        let ph = PartitionHandle::new(part_num);
        self.partitions.insert(part_num, ph);
        Ok(part_num)
    }

    /// Allocates a new partition, Returns number of new partition. The
    /// counter moves on also where the number was taken already, and
    /// starts again at 0 after the largest number.
    pub fn alloc_part(&mut self) -> (r: Result<usize, Error>)
        requires
            old(self).wf(),
        ensures
            final(self).wf(),
            final(self).counter() == if old(self).counter() == usize::MAX {
                0int
            } else {
                old(self).counter() + 1
            },
            final(self).same_but(old(self), old(self).counter()),
            match r {
                Ok(n) => {
                    &&& n == old(self).counter()
                    &&& !old(self).has_part(n)
                    &&& final(self).has_part(n)
                    &&& final(self).pages(n) == Set::<int>::empty()
                },
                Err(e) => {
                    &&& e is Corrupted
                    &&& old(self).has_part(old(self).counter())
                    &&& final(self).has_part(old(self).counter())
                    &&& final(self).part(old(self).counter()) == old(self).part(
                        old(self).counter(),
                    )
                },
            },
    {
        let part_num: usize = self.partition_counter;
        self.partition_counter = if part_num == usize::MAX {
            0
        } else {
            part_num + 1
        };
        self.inner_alloc_part(part_num)
    }

    /// Moves the counter past `part_num` and allocates the partition of the
    /// new counter value: one above the larger of `part_num` and the
    /// counter.
    pub fn alloc_part_with_num(&mut self, part_num: usize) -> (r: Result<usize, Error>)
        requires
            old(self).wf(),
            old(self).counter() < usize::MAX,
            part_num < usize::MAX,
        ensures
            final(self).wf(),
            final(self).counter() == if part_num > old(self).counter() {
                part_num + 1
            } else {
                old(self).counter() + 1
            },
            final(self).same_but(old(self), final(self).counter()),
            match r {
                Ok(n) => {
                    &&& n == final(self).counter()
                    &&& !old(self).has_part(n)
                    &&& final(self).has_part(n)
                    &&& final(self).pages(n) == Set::<int>::empty()
                },
                Err(e) => {
                    &&& e is Corrupted
                    &&& old(self).has_part(final(self).counter())
                    &&& final(self).has_part(final(self).counter())
                    &&& final(self).part(final(self).counter()) == old(self).part(
                        final(self).counter(),
                    )
                },
            },
    {
        let num: usize = self.partition_counter;
        let new_num: usize = if part_num > num {
            part_num
        } else {
            num
        } + 1;
        self.partition_counter = new_num;
        self.inner_alloc_part(new_num)
    }

    /// Release a partition from use: all of its pages are released and the
    /// partition is taken out. Returns what was released, so that the
    /// pages can be cleared and the file deleted.
    pub fn release_part(&mut self, part_num: usize) -> (r: Result<Released, Error>)
        requires
            old(self).wf(),
        ensures
            final(self).wf(),
            final(self).counter() == old(self).counter(),
            final(self).same_but(old(self), part_num),
            !final(self).has_part(part_num),
            match r {
                Ok(released) => {
                    &&& old(self).has_part(part_num)
                    &&& crate::table::page::partition::ascending(released.pages@)
                    &&& forall|p: int|
                        old(self).pages(part_num).contains(p)
                            == crate::table::page::partition::listed(released.pages@, p)
                    &&& crate::table::page::partition::ascending(released.headers@)
                    &&& forall|h: int|
                        old(self).part(part_num).active(h)
                            == crate::table::page::partition::listed(released.headers@, h)
                },
                Err(e) => e is NotFound && !old(self).has_part(part_num),
            },
    {
        match self.partitions.remove(&part_num) {
            None => Err(Error::NotFound("release partition failed".to_owned())),
            Some(mut part) => {
                let released = part.release_data_pages();
                Ok(released)
            },
        }
    }

    /// Gets partition from partition number.
    pub fn get_partition(&self, part_num: usize) -> (r: Result<&PartitionHandle, Error>)
        ensures
            match r {
                Ok(p) => self.has_part(part_num) && *p == self.part(part_num),
                Err(e) => e is NotFound && !self.has_part(part_num),
            },
    {
        match self.partitions.get(&part_num) {
            Some(p) => Ok(p),
            None => Err(Error::NotFound("partition number".to_owned())),
        }
    }

    /// Allocates a new page in partition `part_num`: the smallest local
    /// page number that is free. Returns the virtual page number of the
    /// page with the page images to persist.
    pub fn alloc_page_with_part(&mut self, part_num: usize) -> (r: Result<(u64, PageUpdate), Error>)
        requires
            old(self).wf(),
        ensures
            final(self).wf(),
            final(self).counter() == old(self).counter(),
            final(self).same_but(old(self), part_num),
            final(self).has_part(part_num) == old(self).has_part(part_num),
            match r {
                Ok((vpn, u)) => {
                    &&& old(self).has_part(part_num)
                    &&& vpn == vpn_of(part_num as int, u.page_num as int)
                    &&& u.page_num < PAGES_PER_FILE
                    &&& !old(self).pages(part_num).contains(u.page_num as int)
                    &&& forall|q: int| 0 <= q < u.page_num ==> old(self).pages(part_num).contains(q)
                    &&& final(self).pages(part_num) == old(self).pages(part_num).insert(
                        u.page_num as int,
                    )
                    &&& u.writes@.len() == 2
                    &&& u.writes@[0].offset == 0
                    &&& u.writes@[0].data@ == master_image(
                        final(self).part(part_num).master_flags(),
                    )
                    &&& u.writes@[1].offset == header_offset(
                        (u.page_num / DATA_PAGES_PER_HEADER) as int,
                    )
                    &&& u.writes@[1].data@ == header_image(
                        final(self).part(part_num).header_flags(
                            (u.page_num / DATA_PAGES_PER_HEADER) as int,
                        ),
                    )
                },
                Err(e) => {
                    &&& old(self).has_part(part_num) ==> final(self).part(part_num) == old(
                        self,
                    ).part(part_num)
                    &&& e is NotFound <==> !old(self).has_part(part_num)
                    &&& e is Invalid <==> old(self).has_part(part_num) && vpn_of(
                        part_num as int,
                        PAGES_PER_FILE - 1,
                    ) > u64::MAX
                    &&& e is Corrupted <==> old(self).has_part(part_num) && vpn_of(
                        part_num as int,
                        PAGES_PER_FILE - 1,
                    ) <= u64::MAX && forall|q: int|
                        0 <= q < PAGES_PER_FILE ==> old(self).pages(part_num).contains(q)
                },
            },
    {
        if checked_virtual_page_num(part_num, PAGES_PER_FILE - 1).is_none() {
            if self.partitions.contains_key(&part_num) {
                return Err(Error::Invalid("partition number too large".to_owned()));
            } else {
                return Err(Error::NotFound("partition number".to_owned()));
            }
        }
        match self.partitions.remove(&part_num) {
            None => Err(Error::NotFound("partition number".to_owned())),
            Some(mut ph) => {
                let r = ph.alloc_page();
                self.partitions.insert(part_num, ph);
                match r {
                    Ok(u) => {
                        assert(vpn_of(part_num as int, u.page_num as int) <= vpn_of(
                            part_num as int,
                            PAGES_PER_FILE - 1,
                        ));
                        let vpn: u64 = virtual_page_num(part_num, u.page_num);
                        Ok((vpn, u))
                    },
                    Err(e) => {
                        assert(self.partitions@ =~= old(self).partitions@);
                        Err(e)
                    },
                }
            },
        }
    }

    /// Allocates the page with the virtual page number `page` again: the
    /// entry point by which a recorded allocation is applied. Returns the
    /// virtual page number with the page images to persist.
    pub fn alloc_page(&mut self, page: u64) -> (r: Result<(u64, PageUpdate), Error>)
        requires
            old(self).wf(),
            old(self).has_part(partition_of(page)) ==> local_page(page) < PAGES_PER_FILE && !old(
                self,
            ).pages(partition_of(page)).contains(local_page(page)),
        ensures
            final(self).wf(),
            final(self).counter() == old(self).counter(),
            final(self).same_but(old(self), partition_of(page)),
            final(self).has_part(partition_of(page)) == old(self).has_part(partition_of(page)),
            match r {
                Ok((vpn, u)) => {
                    &&& old(self).has_part(partition_of(page))
                    &&& vpn == page
                    &&& u.page_num == local_page(page)
                    &&& final(self).pages(partition_of(page)) == old(self).pages(
                        partition_of(page),
                    ).insert(local_page(page))
                    &&& u.writes@.len() == 2
                    &&& u.writes@[0].offset == 0
                    &&& u.writes@[0].data@ == master_image(
                        final(self).part(partition_of(page)).master_flags(),
                    )
                    &&& u.writes@[1].offset == header_offset(
                        local_page(page) / (DATA_PAGES_PER_HEADER as int),
                    )
                    &&& u.writes@[1].data@ == header_image(
                        final(self).part(partition_of(page)).header_flags(
                            local_page(page) / (DATA_PAGES_PER_HEADER as int),
                        ),
                    )
                },
                Err(e) => e is NotFound && !old(self).has_part(partition_of(page)),
            },
    {
        let part_num: usize = calculate_part_num(page);
        let page_num: usize = calculate_page_num(page);
        match self.partitions.remove(&part_num) {
            None => Err(Error::NotFound("partition number".to_owned())),
            Some(mut ph) => {
                let header_index: usize = page_num / DATA_PAGES_PER_HEADER;
                let page_index: usize = page_num % DATA_PAGES_PER_HEADER;
                let u = ph.alloc_page_with_index(header_index, page_index);
                self.partitions.insert(part_num, ph);
                proof {
                    lemma_vpn_decode_encode(page as int);
                }
                Ok((page, u))
            },
        }
    }

    /// Release a page from use. Returns the page images to persist, the
    /// zeroed data page first.
    pub fn release_page(&mut self, page: u64) -> (r: Result<PageUpdate, Error>)
        requires
            old(self).wf(),
            old(self).has_part(partition_of(page)) ==> old(self).pages(
                partition_of(page),
            ).contains(local_page(page)),
        ensures
            final(self).wf(),
            final(self).counter() == old(self).counter(),
            final(self).same_but(old(self), partition_of(page)),
            final(self).has_part(partition_of(page)) == old(self).has_part(partition_of(page)),
            match r {
                Ok(u) => {
                    &&& old(self).has_part(partition_of(page))
                    &&& u.page_num == local_page(page)
                    &&& final(self).pages(partition_of(page)) == old(self).pages(
                        partition_of(page),
                    ).remove(local_page(page))
                    &&& u.writes@.len() == 3
                    &&& u.writes@[0].offset == data_offset(local_page(page))
                    &&& u.writes@[0].data@ == zero_image()
                    &&& u.writes@[1].offset == 0
                    &&& u.writes@[1].data@ == master_image(
                        final(self).part(partition_of(page)).master_flags(),
                    )
                    &&& u.writes@[2].offset == header_offset(
                        local_page(page) / (DATA_PAGES_PER_HEADER as int),
                    )
                    &&& u.writes@[2].data@ == header_image(
                        final(self).part(partition_of(page)).header_flags(
                            local_page(page) / (DATA_PAGES_PER_HEADER as int),
                        ),
                    )
                },
                Err(e) => e is NotFound && !old(self).has_part(partition_of(page)),
            },
    {
        let part_num: usize = calculate_part_num(page);
        let page_num: usize = calculate_page_num(page);
        match self.partitions.remove(&part_num) {
            None => Err(Error::NotFound("partition number".to_owned())),
            Some(mut ph) => {
                proof {
                    ph.lemma_view();
                }
                let u = ph.release_page(page_num);
                self.partitions.insert(part_num, ph);
                Ok(u)
            },
        }
    }

    /// Checks if a page is allocated.
    pub fn is_page_allocated(&self, page: u64) -> (r: bool)
        requires
            self.wf(),
        ensures
            r == (self.has_part(partition_of(page)) && self.pages(partition_of(page)).contains(
                local_page(page),
            )),
    {
        let part_num: usize = calculate_part_num(page);
        if page % PAGES_PER_PARTITION >= PAGES_PER_FILE as u64 {
            proof {
                if self.has_part(part_num) {
                    self.part(part_num).lemma_view();
                }
            }
            return false;
        }
        let page_num: usize = calculate_page_num(page);
        match self.partitions.get(&part_num) {
            Some(handle) => !handle.is_not_allocated_page(page_num),
            None => false,
        }
    }

    /// Where in the file of its partition the page with the virtual page
    /// number `page` is read from.
    pub fn read_page(&self, page: u64) -> (r: Result<u64, Error>)
        requires
            self.wf(),
            self.has_part(partition_of(page)) ==> self.pages(partition_of(page)).contains(
                local_page(page),
            ),
        ensures
            match r {
                Ok(offset) => self.has_part(partition_of(page)) && offset == data_offset(
                    local_page(page),
                ),
                Err(e) => e is NotFound && !self.has_part(partition_of(page)),
            },
    {
        let part_num: usize = calculate_part_num(page);
        let page_num: usize = calculate_page_num(page);
        match self.partitions.get(&part_num) {
            Some(ph) => {
                proof {
                    ph.lemma_view();
                }
                Ok(ph.read_page(page_num))
            },
            None => Err(Error::NotFound("partition number".to_owned())),
        }
    }

    /// The write that stores the page-sized buffer `data` as the page with
    /// the virtual page number `page`.
    pub fn write_page(&self, page: u64, data: Vec<u8>) -> (r: Result<PageWrite, Error>)
        requires
            self.wf(),
            data@.len() == DEFAULT_PAGE_SIZE,
            self.has_part(partition_of(page)) ==> self.pages(partition_of(page)).contains(
                local_page(page),
            ),
        ensures
            match r {
                Ok(w) => self.has_part(partition_of(page)) && w.offset == data_offset(
                    local_page(page),
                ) && w.data@ == data@,
                Err(e) => e is NotFound && !self.has_part(partition_of(page)),
            },
    {
        let part_num: usize = calculate_part_num(page);
        let page_num: usize = calculate_page_num(page);
        match self.partitions.get(&part_num) {
            Some(ph) => {
                proof {
                    ph.lemma_view();
                }
                Ok(ph.write_page(page_num, data))
            },
            None => Err(Error::NotFound("partition number".to_owned())),
        }
    }
}

} // verus!
