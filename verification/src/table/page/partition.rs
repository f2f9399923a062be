//! The page allocator of one partition: a master bitmap of active header
//! pages and, for each header page, a bitmap of its data pages.
use vstd::prelude::*;
use crate::error::Error;
use crate::table::page::manager::{
    data_offset,
    header_offset,
    virtual_data_page_offset,
    virtual_header_page_offset,
    DATA_PAGES_PER_HEADER,
    DEFAULT_PAGE_SIZE,
    MAX_HEADER_PAGES,
};
use crate::utils::bitmap::Bitmap;

verus! {

/// The image of a master page: one big-endian 2-byte flag per header slot.
pub open spec fn master_image(flags: Seq<bool>) -> Seq<u8> {
    Seq::new(
        DEFAULT_PAGE_SIZE as nat,
        |i: int|
            if i % 2 == 1 && flags[i / 2] {
                1u8
            } else {
                0u8
            },
    )
}

/// The image of a header page: one 1-byte flag for each data page slot that
/// fits in the page.
pub open spec fn header_image(flags: Seq<bool>) -> Seq<u8> {
    Seq::new(
        DEFAULT_PAGE_SIZE as nat,
        |i: int|
            if flags[i] {
                1u8
            } else {
                0u8
            },
    )
}

/// Whether the master page `bytes` marks header `h` as active.
pub open spec fn master_flag(bytes: Seq<u8>, h: int) -> bool {
    0 <= h && 2 * h + 1 < bytes.len() && bytes[2 * h] == 0 && bytes[2 * h + 1] == 1
}

/// Whether the header page `bytes` marks slot `s` as allocated.
pub open spec fn header_flag(bytes: Seq<u8>, s: int) -> bool {
    0 <= s < bytes.len() && bytes[s] == 1
}

/// A page of zero bytes.
pub open spec fn zero_image() -> Seq<u8> {
    Seq::new(DEFAULT_PAGE_SIZE as nat, |i: int| 0u8)
}

/// Reading a master page that was written from `flags` gives `flags` back.
pub proof fn lemma_master_image_round_trip(flags: Seq<bool>, h: int)
    requires
        flags.len() == MAX_HEADER_PAGES,
        0 <= h < MAX_HEADER_PAGES,
    ensures
        master_flag(master_image(flags), h) == flags[h],
{
    assert((2 * h + 1) / 2 == h);
}

/// Reading a header page that was written from `flags` gives back the flag
/// of every slot that fits in the page.
pub proof fn lemma_header_image_round_trip(flags: Seq<bool>, s: int)
    requires
        flags.len() == DATA_PAGES_PER_HEADER,
        0 <= s < DEFAULT_PAGE_SIZE,
    ensures
        header_flag(header_image(flags), s) == flags[s],
{
}

/// Appends `v` to `buf` as two bytes, the high byte first, with
/// `bytes::BufMut::put_u16`, which for a `Vec<u8>` extends the vector by the
/// big-endian bytes of the number.
#[verifier::external_body]
fn put_u16(buf: &mut Vec<u8>, v: u16)
    ensures
        final(buf)@ == old(buf)@.push((v / 256) as u8).push((v % 256) as u8),
{
    bytes::BufMut::put_u16(buf, v)
}

/// Appends the byte `v` to `buf` with `bytes::BufMut::put_u8`, which for a
/// `Vec<u8>` extends the vector by that one byte.
#[verifier::external_body]
fn put_u8(buf: &mut Vec<u8>, v: u8)
    ensures
        final(buf)@ == old(buf)@.push(v),
{
    bytes::BufMut::put_u8(buf, v)
}

/// Bytes to be written to the partition file at a byte offset.
#[derive(Debug)]
pub struct PageWrite {
    /// Where in the file the bytes go.
    pub offset: u64,
    /// The bytes: one page.
    pub data: Vec<u8>,
}

/// The outcome of a change to the allocation state: the page concerned and
/// the page images to persist, in order.
#[derive(Debug)]
pub struct PageUpdate {
    /// The local page number that was allocated or released.
    pub page_num: usize,
    /// The writes that make the change durable.
    pub writes: Vec<PageWrite>,
}

/// What `release_data_pages` released.
#[derive(Debug)]
pub struct Released {
    /// The local page numbers that were allocated, in ascending order.
    pub pages: Vec<usize>,
    /// The header pages that were active, in ascending order.
    pub headers: Vec<usize>,
}

/// The allocation state of one partition file.
pub struct PartitionHandle {
    part_num: usize,
    /// The bitmap of master page.
    m_bitmap: Bitmap,
    /// The bitmaps of the header pages seen so far.
    h_bitmaps: Vec<Bitmap>,
}

/// Whether `s` is strictly ascending.
pub open spec fn ascending(s: Seq<usize>) -> bool {
    forall|i: int, j: int| 0 <= i < j < s.len() ==> s[i] < s[j]
}

/// Whether the number `v` occurs in `s`.
pub open spec fn listed(s: Seq<usize>, v: int) -> bool {
    exists|i: int| 0 <= i < s.len() && s[i] as int == v
}

/// Whether the number `v` occurs among the first `k` items of `s`.
pub open spec fn listed_before(s: Seq<usize>, k: int, v: int) -> bool {
    exists|i: int| 0 <= i < k && i < s.len() && s[i] as int == v
}

/// After a push the sequence lists what it listed before and the new item;
/// it stays ascending where the new item is above all the others.
proof fn lemma_listed_push(s: Seq<usize>, x: usize)
    ensures
        forall|v: int| listed(s.push(x), v) == (listed(s, v) || v == x as int),
        ascending(s) && (forall|i: int| 0 <= i < s.len() ==> s[i] < x) ==> ascending(s.push(x)),
{
    let t = s.push(x);
    assert forall|v: int| listed(t, v) == (listed(s, v) || v == x as int) by {
        if listed(s, v) {
            let i = choose|i: int| 0 <= i < s.len() && s[i] as int == v;
            assert(t[i] as int == v);
        }
        if v == x as int {
            assert(t[s.len() as int] as int == v);
        }
        if listed(t, v) {
            let i = choose|i: int| 0 <= i < t.len() && t[i] as int == v;
            if i < s.len() {
                assert(s[i] as int == v);
            }
        }
    }
}

/// A page of zero bytes.
fn zero_page() -> (buf: Vec<u8>)
    ensures
        buf@ == zero_image(),
{
    let mut buf: Vec<u8> = Vec::with_capacity(DEFAULT_PAGE_SIZE);
    let mut index: usize = 0;
    while index < DEFAULT_PAGE_SIZE
        invariant
            index <= DEFAULT_PAGE_SIZE,
            buf@.len() == index,
            forall|i: int| 0 <= i < index ==> buf@[i] == 0u8,
        decreases DEFAULT_PAGE_SIZE - index,
    {
        buf.push(0u8);
        index += 1;
    }
    assert(buf@ =~= zero_image());
    buf
}

impl PartitionHandle {
    /// Whether slot `s` of header `h` is marked.
    pub closed spec fn header_bit(&self, h: int, s: int) -> bool {
        &&& 0 <= h < self.h_bitmaps@.len()
        &&& 0 <= s < DATA_PAGES_PER_HEADER
        &&& self.h_bitmaps@[h]@[s]
    }

    /// Whether the local page `p` is allocated.
    pub closed spec fn allocated(&self, p: int) -> bool {
        0 <= p && self.header_bit(p / (DATA_PAGES_PER_HEADER as int), p % (DATA_PAGES_PER_HEADER as int))
    }

    /// The set of allocated local page numbers.
    pub closed spec fn view(&self) -> Set<int> {
        Set::new(|p: int| self.allocated(p))
    }

    /// Whether header page `h` is active.
    pub closed spec fn active(&self, h: int) -> bool {
        0 <= h < MAX_HEADER_PAGES && self.m_bitmap@[h]
    }

    /// The flags of the master page.
    pub closed spec fn master_flags(&self) -> Seq<bool> {
        self.m_bitmap@
    }

    /// The flags of header page `h`, all clear where the header was never
    /// touched.
    pub closed spec fn header_flags(&self, h: int) -> Seq<bool> {
        Seq::new(DATA_PAGES_PER_HEADER as nat, |s: int| self.header_bit(h, s))
    }

    /// The partition's number.
    pub closed spec fn spec_part_num(&self) -> usize {
        self.part_num
    }

    /// The bitmaps are consistent with each other: an active header has its
    /// bitmap, and only active headers hold allocated pages.
    pub closed spec fn wf(&self) -> bool {
        &&& self.m_bitmap.wf()
        &&& self.m_bitmap@.len() == MAX_HEADER_PAGES
        &&& self.h_bitmaps@.len() <= MAX_HEADER_PAGES
        &&& forall|h: int|
            0 <= h < self.h_bitmaps@.len() ==> (#[trigger] self.h_bitmaps@[h]).wf()
                && self.h_bitmaps@[h]@.len() == DATA_PAGES_PER_HEADER
        &&& forall|h: int, s: int| #[trigger]
            self.header_bit(h, s) ==> self.m_bitmap@[h]
    }

    /// What the contracts say of the view, the flags and the active headers.
    pub proof fn lemma_view(&self)
        requires
            self.wf(),
        ensures
            forall|p: int| #[trigger]
                self@.contains(p) ==> 0 <= p < MAX_HEADER_PAGES * DATA_PAGES_PER_HEADER
                    && self.active(p / (DATA_PAGES_PER_HEADER as int)),
            forall|p: int|
                0 <= p ==> #[trigger] self@.contains(p) == self.header_flags(
                    p / (DATA_PAGES_PER_HEADER as int),
                )[p % (DATA_PAGES_PER_HEADER as int)],
            self.master_flags().len() == MAX_HEADER_PAGES,
            forall|h: int|
                0 <= h < MAX_HEADER_PAGES ==> #[trigger] self.active(h) == self.master_flags()[h],
    {
        assert forall|p: int| #[trigger] self@.contains(p) implies 0 <= p < MAX_HEADER_PAGES
            * DATA_PAGES_PER_HEADER && self.active(p / (DATA_PAGES_PER_HEADER as int)) by {
            assert(self.header_bit(
                p / (DATA_PAGES_PER_HEADER as int),
                p % (DATA_PAGES_PER_HEADER as int),
            ));
        }
    }

    /// A partition with no page allocated and no header active.
    pub fn new(part_num: usize) -> (r: Self)
        ensures
            r.wf(),
            r.spec_part_num() == part_num,
            r@ == Set::<int>::empty(),
            forall|h: int| !r.active(h),
            forall|h: int, s: int| !r.header_bit(h, s),
    {
        let r = PartitionHandle {
            part_num,
            m_bitmap: Bitmap::new(MAX_HEADER_PAGES as u32),
            h_bitmaps: Vec::new(),
        };
        assert(r@ =~= Set::<int>::empty());
        r
    }

    /// The partition's number.
    pub fn part_num(&self) -> (r: usize)
        ensures
            r == self.spec_part_num(),
    {
        self.part_num
    }

    /// Checks if page number is for an unallocated data.
    pub fn is_not_allocated_page(&self, page_num: usize) -> (r: bool)
        requires
            self.wf(),
        ensures
            r == !self@.contains(page_num as int),
    {
        let header_index: usize = page_num / DATA_PAGES_PER_HEADER;
        let page_index: usize = page_num % DATA_PAGES_PER_HEADER;
        if header_index >= MAX_HEADER_PAGES || header_index >= self.h_bitmaps.len() {
            return true;
        }
        if !self.m_bitmap.exist(header_index as u32) {
            return true;
        }
        !self.h_bitmaps[header_index].exist(page_index as u32)
    }

    /// Makes sure that header `h` has its bitmap.
    fn ensure_header(&mut self, h: usize)
        requires
            old(self).wf(),
            h < MAX_HEADER_PAGES,
        ensures
            final(self).wf(),
            final(self).h_bitmaps@.len() > h,
            final(self).h_bitmaps@.len() >= old(self).h_bitmaps@.len(),
            final(self).m_bitmap == old(self).m_bitmap,
            final(self).part_num == old(self).part_num,
            forall|i: int|
                0 <= i < old(self).h_bitmaps@.len() ==> final(self).h_bitmaps@[i] == old(
                    self,
                ).h_bitmaps@[i],
            forall|i: int, s: int| final(self).header_bit(i, s) == old(self).header_bit(i, s),
    {
        while self.h_bitmaps.len() <= h
            invariant
                self.wf(),
                h < MAX_HEADER_PAGES,
                self.h_bitmaps@.len() >= old(self).h_bitmaps@.len(),
                self.m_bitmap == old(self).m_bitmap,
                self.part_num == old(self).part_num,
                forall|i: int|
                    0 <= i < old(self).h_bitmaps@.len() ==> self.h_bitmaps@[i] == old(
                        self,
                    ).h_bitmaps@[i],
                forall|i: int, s: int| self.header_bit(i, s) == old(self).header_bit(i, s),
            decreases MAX_HEADER_PAGES - self.h_bitmaps@.len(),
        {
            let ghost before = *self;
            let fresh = Bitmap::new(DATA_PAGES_PER_HEADER as u32);
            self.h_bitmaps.push(fresh);
            proof {
                assert forall|i: int, s: int| self.header_bit(i, s) == before.header_bit(
                    i,
                    s,
                ) by {
                    if 0 <= i < before.h_bitmaps@.len() {
                        assert(self.h_bitmaps@[i] == before.h_bitmaps@[i]);
                    }
                }
                assert forall|i: int|
                    0 <= i < self.h_bitmaps@.len() implies (#[trigger] self.h_bitmaps@[i]).wf()
                    && self.h_bitmaps@[i]@.len() == DATA_PAGES_PER_HEADER by {
                    if i < before.h_bitmaps@.len() {
                        assert(self.h_bitmaps@[i] == before.h_bitmaps@[i]);
                    }
                }
                assert(self.m_bitmap.wf());
                assert(self.h_bitmaps@.len() <= MAX_HEADER_PAGES);
                assert forall|i: int, s: int| #[trigger] self.header_bit(i, s) implies self.m_bitmap@[i] by {
                    assert(before.header_bit(i, s));
                }
            }
        }
    }

    /// Writes the master page to disk: each flag of the bitmap takes two
    /// bytes.
    pub fn write_master_page(bitmap: &Bitmap) -> (buf: Vec<u8>)
        requires
            bitmap.wf(),
            bitmap@.len() >= MAX_HEADER_PAGES,
        ensures
            buf@ == master_image(bitmap@),
    {
        let mut buf: Vec<u8> = Vec::with_capacity(DEFAULT_PAGE_SIZE);
        let mut index: usize = 0;
        while index < MAX_HEADER_PAGES
            invariant
                index <= MAX_HEADER_PAGES,
                bitmap.wf(),
                bitmap@.len() >= MAX_HEADER_PAGES,
                buf@.len() == 2 * index,
                forall|i: int| 0 <= i < 2 * index ==> buf@[i] == master_image(bitmap@)[i],
            decreases MAX_HEADER_PAGES - index,
        {
            let v: u16 = if bitmap.exist(index as u32) {
                1u16
            } else {
                0u16
            };
            put_u16(&mut buf, v);
            proof {
                assert((2 * index) / 2 == index as int && (2 * index + 1) / 2 == index as int);
            }
            index += 1;
        }
        assert(buf@ =~= master_image(bitmap@));
        buf
    }

    /// Writes the header page to disk: one byte for each slot that fits in
    /// the page.
    pub fn write_header_page(bitmap: &Bitmap) -> (buf: Vec<u8>)
        requires
            bitmap.wf(),
            bitmap@.len() >= DEFAULT_PAGE_SIZE,
        ensures
            buf@ == header_image(bitmap@),
    {
        let mut buf: Vec<u8> = Vec::with_capacity(DEFAULT_PAGE_SIZE);
        let mut index: usize = 0;
        while index < DEFAULT_PAGE_SIZE
            invariant
                index <= DEFAULT_PAGE_SIZE,
                bitmap.wf(),
                bitmap@.len() >= DEFAULT_PAGE_SIZE,
                buf@.len() == index,
                forall|i: int| 0 <= i < index ==> buf@[i] == header_image(bitmap@)[i],
            decreases DEFAULT_PAGE_SIZE - index,
        {
            let v: u8 = if bitmap.exist(index as u32) {
                1u8
            } else {
                0u8
            };
            put_u8(&mut buf, v);
            index += 1;
        }
        assert(buf@ =~= header_image(bitmap@));
        buf
    }

    /// The two writes that persist the master page and header page `h`.
    fn persist(&self, header_index: usize) -> (writes: Vec<PageWrite>)
        requires
            self.wf(),
            header_index < self.h_bitmaps@.len(),
        ensures
            writes@.len() == 2,
            writes@[0].offset == 0,
            writes@[0].data@ == master_image(self.master_flags()),
            writes@[1].offset == header_offset(header_index as int),
            writes@[1].data@ == header_image(self.header_flags(header_index as int)),
    {
        let master = PageWrite { offset: 0, data: Self::write_master_page(&self.m_bitmap) };
        let header = PageWrite {
            offset: virtual_header_page_offset(header_index),
            data: Self::write_header_page(&self.h_bitmaps[header_index]),
        };
        proof {
            let hb = self.h_bitmaps@[header_index as int]@;
            assert(header_image(hb) =~= header_image(self.header_flags(header_index as int)));
        }
        let mut writes: Vec<PageWrite> = Vec::new();
        writes.push(master);
        writes.push(header);
        writes
    }

    /// Marks slot `page_index` of header `header_index` as allocated: the
    /// entry point by which a recorded allocation is applied again.
    pub fn alloc_page_with_index(&mut self, header_index: usize, page_index: usize) -> (r:
        PageUpdate)
        requires
            old(self).wf(),
            header_index < MAX_HEADER_PAGES,
            page_index < DATA_PAGES_PER_HEADER,
            !old(self)@.contains(header_index * DATA_PAGES_PER_HEADER + page_index),
        ensures
            final(self).wf(),
            final(self).spec_part_num() == old(self).spec_part_num(),
            r.page_num == header_index * DATA_PAGES_PER_HEADER + page_index,
            final(self)@ == old(self)@.insert(r.page_num as int),
            forall|h: int| final(self).active(h) == (h == header_index || old(self).active(h)),
            r.writes@.len() == 2,
            r.writes@[0].offset == 0,
            r.writes@[0].data@ == master_image(final(self).master_flags()),
            r.writes@[1].offset == header_offset(header_index as int),
            r.writes@[1].data@ == header_image(final(self).header_flags(header_index as int)),
    {
        self.ensure_header(header_index);
        let ghost mid = *self;
        let page_num: usize = page_index + header_index * DATA_PAGES_PER_HEADER;
        proof {
            assert(page_num / DATA_PAGES_PER_HEADER == header_index);
            assert(page_num % DATA_PAGES_PER_HEADER == page_index);
            assert(mid@ =~= old(self)@);
        }
        self.h_bitmaps[header_index].set(page_index as u32);
        self.m_bitmap.set(header_index as u32);
        proof {
            assert forall|h: int, s: int| #[trigger] self.header_bit(h, s) implies self.m_bitmap@[h] by {
                if h != header_index {
                    assert(self.h_bitmaps@[h] == mid.h_bitmaps@[h]);
                    assert(mid.header_bit(h, s));
                }
            }
            assert forall|h: int|
                0 <= h < self.h_bitmaps@.len() implies (#[trigger] self.h_bitmaps@[h]).wf()
                && self.h_bitmaps@[h]@.len() == DATA_PAGES_PER_HEADER by {
                if h != header_index {
                    assert(self.h_bitmaps@[h] == mid.h_bitmaps@[h]);
                }
            }
            assert forall|p: int| self@.contains(p) == old(self)@.insert(page_num as int).contains(
                p,
            ) by {
                let h = p / (DATA_PAGES_PER_HEADER as int);
                let s = p % (DATA_PAGES_PER_HEADER as int);
                if 0 <= p && 0 <= h < self.h_bitmaps@.len() {
                    if h != header_index {
                        assert(self.h_bitmaps@[h] == mid.h_bitmaps@[h]);
                    }
                    assert(mid.header_bit(h, s) == old(self).header_bit(h, s));
                }
                assert(mid.header_bit(h, s) == old(self).header_bit(h, s));
            }
            assert(self@ =~= old(self)@.insert(page_num as int));
        }
        let writes = self.persist(header_index);
        PageUpdate { page_num, writes }
    }

    /// Allocates a new page in the partition: the smallest local page number
    /// that is not allocated.
    pub fn alloc_page(&mut self) -> (r: Result<PageUpdate, Error>)
        requires
            old(self).wf(),
        ensures
            final(self).wf(),
            final(self).spec_part_num() == old(self).spec_part_num(),
            match r {
                Ok(u) => {
                    &&& 0 <= u.page_num < MAX_HEADER_PAGES * DATA_PAGES_PER_HEADER
                    &&& !old(self)@.contains(u.page_num as int)
                    &&& forall|q: int| 0 <= q < u.page_num ==> old(self)@.contains(q)
                    &&& final(self)@ == old(self)@.insert(u.page_num as int)
                    &&& forall|h: int|
                        final(self).active(h) == (h == u.page_num / DATA_PAGES_PER_HEADER || old(
                            self,
                        ).active(h))
                    &&& u.writes@.len() == 2
                    &&& u.writes@[0].offset == 0
                    &&& u.writes@[0].data@ == master_image(final(self).master_flags())
                    &&& u.writes@[1].offset == header_offset(
                        (u.page_num / DATA_PAGES_PER_HEADER) as int,
                    )
                    &&& u.writes@[1].data@ == header_image(
                        final(self).header_flags((u.page_num / DATA_PAGES_PER_HEADER) as int),
                    )
                },
                Err(e) => {
                    &&& e is Corrupted
                    &&& forall|q: int|
                        0 <= q < MAX_HEADER_PAGES * DATA_PAGES_PER_HEADER ==> old(self)@.contains(q)
                    &&& *final(self) == *old(self)
                },
            },
    {
        let n: usize = self.h_bitmaps.len();
        let mut h: usize = 0;
        while h < n
            invariant
                self.wf(),
                *self == *old(self),
                n == self.h_bitmaps@.len(),
                h <= n,
                forall|q: int| 0 <= q < h * DATA_PAGES_PER_HEADER ==> self@.contains(q),
            decreases n - h,
        {
            if !self.h_bitmaps[h].is_full() {
                match self.h_bitmaps[h].vacance() {
                    Some(s) => {
                        proof {
                            let p = h * DATA_PAGES_PER_HEADER + s;
                            assert(p / (DATA_PAGES_PER_HEADER as int) == h);
                            assert(p % (DATA_PAGES_PER_HEADER as int) == s);
                            assert forall|q: int| 0 <= q < p implies self@.contains(q) by {
                                if q >= h * DATA_PAGES_PER_HEADER {
                                    assert(q / (DATA_PAGES_PER_HEADER as int) == h);
                                    assert(q % (DATA_PAGES_PER_HEADER as int) == q - h
                                        * DATA_PAGES_PER_HEADER);
                                    assert(self.header_bit(
                                        h as int,
                                        q % (DATA_PAGES_PER_HEADER as int),
                                    ));
                                }
                            }
                        }
                        let u = self.alloc_page_with_index(h, s as usize);
                        return Ok(u);
                    },
                    None => {
                        return Err(Error::Corrupted("header page not has free space.".to_owned()));
                    },
                }
            }
            proof {
                assert forall|q: int| 0 <= q < (h + 1) * DATA_PAGES_PER_HEADER implies self@.contains(
                    q,
                ) by {
                    if q >= h * DATA_PAGES_PER_HEADER {
                        assert(q / (DATA_PAGES_PER_HEADER as int) == h);
                        assert(self.header_bit(h as int, q % (DATA_PAGES_PER_HEADER as int)));
                    }
                }
            }
            h += 1;
        }
        if n < MAX_HEADER_PAGES {
            proof {
                let p = n * DATA_PAGES_PER_HEADER;
                assert(p / (DATA_PAGES_PER_HEADER as int) == n);
                assert(!self.header_bit(n as int, 0));
            }
            let u = self.alloc_page_with_index(n, 0);
            Ok(u)
        } else {
            Err(Error::Corrupted("partition has reached max size.".to_owned()))
        }
    }

    /// The bitmap of the master page.
    pub fn master_bitmap(&self) -> (r: &Bitmap)
        requires
            self.wf(),
        ensures
            r.wf(),
            r@ == self.master_flags(),
            r@.len() == MAX_HEADER_PAGES,
    {
        &self.m_bitmap
    }

    /// The state of a partition whose file starts with the master page
    /// `master_page`; an empty slice stands for a file that was just
    /// created. The header pages of the active headers are still to be
    /// loaded.
    pub fn open(part_num: usize, master_page: &[u8]) -> (r: Self)
        ensures
            r.wf(),
            r.spec_part_num() == part_num,
            r@ == Set::<int>::empty(),
            forall|h: int| r.active(h) == (h < MAX_HEADER_PAGES && master_flag(master_page@, h)),
    {
        let mut r = Self::new(part_num);
        let len: usize = master_page.len();
        let mut h: usize = 0;
        while h < MAX_HEADER_PAGES
            invariant
                h <= MAX_HEADER_PAGES,
                len == master_page@.len(),
                r.wf(),
                r.spec_part_num() == part_num,
                forall|i: int, s: int| !r.header_bit(i, s),
                forall|i: int| r.active(i) == (i < h && master_flag(master_page@, i)),
            decreases MAX_HEADER_PAGES - h,
        {
            let ghost before = r;
            if 2 * h + 1 < len && master_page[2 * h] == 0 && master_page[2 * h + 1] == 1 {
                r.ensure_header(h);
                r.m_bitmap.set(h as u32);
            }
            proof {
                assert forall|i: int| r.active(i) == (i < h + 1 && master_flag(
                    master_page@,
                    i,
                )) by {
                    assert(before.active(i) == (i < h && master_flag(master_page@, i)));
                }
                assert forall|i: int, s: int| !r.header_bit(i, s) by {
                    assert(!before.header_bit(i, s));
                }
            }
            h += 1;
        }
        proof {
            assert forall|p: int| !r@.contains(p) by {
                assert(!r.header_bit(
                    p / (DATA_PAGES_PER_HEADER as int),
                    p % (DATA_PAGES_PER_HEADER as int),
                ));
            }
            assert(r@ =~= Set::<int>::empty());
        }
        r
    }

    /// Takes the allocation flags of header `header_index` from the header
    /// page `bytes`, where that header is active; an inactive header is left
    /// alone. Returns whether the flags were taken.
    pub fn load_header_page(&mut self, header_index: usize, bytes: &[u8]) -> (loaded: bool)
        requires
            old(self).wf(),
            header_index < MAX_HEADER_PAGES,
        ensures
            final(self).wf(),
            final(self).spec_part_num() == old(self).spec_part_num(),
            loaded == old(self).active(header_index as int),
            forall|h: int| final(self).active(h) == old(self).active(h),
            forall|p: int|
                0 <= p ==> #[trigger] final(self)@.contains(p) == if loaded && p / (
                DATA_PAGES_PER_HEADER as int) == header_index {
                    header_flag(bytes@, p % (DATA_PAGES_PER_HEADER as int))
                } else {
                    old(self)@.contains(p)
                },
    {
        if !self.m_bitmap.exist(header_index as u32) {
            return false;
        }
        self.ensure_header(header_index);
        let ghost mid = *self;
        proof {
            assert(mid@ =~= old(self)@);
        }
        let mut bitmap = Bitmap::new(DATA_PAGES_PER_HEADER as u32);
        let len: usize = bytes.len();
        let mut s: usize = 0;
        while s < DATA_PAGES_PER_HEADER && s < len
            invariant
                s <= DATA_PAGES_PER_HEADER,
                s <= len,
                len == bytes@.len(),
                bitmap.wf(),
                bitmap@.len() == DATA_PAGES_PER_HEADER,
                forall|i: int|
                    0 <= i < DATA_PAGES_PER_HEADER ==> bitmap@[i] == (i < s && header_flag(
                        bytes@,
                        i,
                    )),
            decreases DATA_PAGES_PER_HEADER - s,
        {
            if bytes[s] == 1 {
                bitmap.set(s as u32);
            }
            s += 1;
        }
        self.h_bitmaps[header_index] = bitmap;
        proof {
            assert forall|h: int|
                0 <= h < self.h_bitmaps@.len() implies (#[trigger] self.h_bitmaps@[h]).wf()
                && self.h_bitmaps@[h]@.len() == DATA_PAGES_PER_HEADER by {
                if h != header_index {
                    assert(self.h_bitmaps@[h] == mid.h_bitmaps@[h]);
                }
            }
            assert forall|h: int, t: int| #[trigger] self.header_bit(h, t) implies self.m_bitmap@[h] by {
                if h != header_index {
                    assert(self.h_bitmaps@[h] == mid.h_bitmaps@[h]);
                    assert(mid.header_bit(h, t));
                }
            }
            assert forall|p: int| 0 <= p implies #[trigger] self@.contains(p) == if p / (
            DATA_PAGES_PER_HEADER as int) == header_index {
                header_flag(bytes@, p % (DATA_PAGES_PER_HEADER as int))
            } else {
                old(self)@.contains(p)
            } by {
                let h = p / (DATA_PAGES_PER_HEADER as int);
                let t = p % (DATA_PAGES_PER_HEADER as int);
                if h != header_index {
                    if 0 <= h < self.h_bitmaps@.len() {
                        assert(self.h_bitmaps@[h] == mid.h_bitmaps@[h]);
                    }
                    assert(self.header_bit(h, t) == mid.header_bit(h, t));
                    assert(mid@.contains(p) == mid.header_bit(h, t));
                }
            }
        }
        true
    }

    /// The active header pages, in ascending order.
    pub fn active_headers(&self) -> (r: Vec<usize>)
        requires
            self.wf(),
        ensures
            ascending(r@),
            forall|h: int| self.active(h) == listed(r@, h),
    {
        let mut headers: Vec<usize> = Vec::new();
        let mut it = self.m_bitmap.iter();
        let mut done: bool = false;
        while !done
            invariant
                self.wf(),
                it.wf(),
                it.bitmap() == self.m_bitmap,
                ascending(headers@),
                forall|i: int| 0 <= i < headers@.len() ==> headers@[i] < it.position(),
                forall|h: int| (self.active(h) && h < it.position()) == listed(headers@, h),
                it.position() <= MAX_HEADER_PAGES,
                done ==> it.position() == MAX_HEADER_PAGES,
            decreases MAX_HEADER_PAGES - it.position(), if done { 0int } else { 1int },
        {
            let ghost before = it.position();
            let ghost seen = headers@;
            match it.next() {
                None => {
                    done = true;
                    proof {
                        assert forall|h: int|
                            (self.active(h) && h < it.position()) == listed(headers@, h) by {
                            assert((self.active(h) && h < before) == listed(seen, h));
                        }
                    }
                },
                Some(h) => {
                    proof {
                        lemma_listed_push(headers@, h as usize);
                    }
                    headers.push(h as usize);
                    proof {
                        assert forall|v: int|
                            (self.active(v) && v < it.position()) == listed(headers@, v) by {
                            assert((self.active(v) && v < before) == listed(seen, v));
                        }
                    }
                },
            }
        }
        headers
    }

    /// Releases a page in partition from use: its bytes are to be zeroed and
    /// both bitmaps persisted.
    pub fn release_page(&mut self, page_num: usize) -> (r: PageUpdate)
        requires
            old(self).wf(),
            old(self)@.contains(page_num as int),
        ensures
            final(self).wf(),
            final(self).spec_part_num() == old(self).spec_part_num(),
            final(self)@ == old(self)@.remove(page_num as int),
            forall|h: int| final(self).active(h) == old(self).active(h),
            r.page_num == page_num,
            r.writes@.len() == 3,
            r.writes@[0].offset == data_offset(page_num as int),
            r.writes@[0].data@ == zero_image(),
            r.writes@[1].offset == 0,
            r.writes@[1].data@ == master_image(final(self).master_flags()),
            r.writes@[2].offset == header_offset((page_num / DATA_PAGES_PER_HEADER) as int),
            r.writes@[2].data@ == header_image(
                final(self).header_flags((page_num / DATA_PAGES_PER_HEADER) as int),
            ),
    {
        let header_index: usize = page_num / DATA_PAGES_PER_HEADER;
        let page_index: usize = page_num % DATA_PAGES_PER_HEADER;
        proof {
            assert(self.header_bit(header_index as int, page_index as int));
        }
        let zero = PageWrite { offset: virtual_data_page_offset(page_num), data: zero_page() };
        self.h_bitmaps[header_index].clear(page_index as u32);
        proof {
            assert forall|h: int|
                0 <= h < self.h_bitmaps@.len() implies (#[trigger] self.h_bitmaps@[h]).wf()
                && self.h_bitmaps@[h]@.len() == DATA_PAGES_PER_HEADER by {
                if h != header_index {
                    assert(self.h_bitmaps@[h] == old(self).h_bitmaps@[h]);
                }
            }
            assert forall|h: int, t: int| #[trigger] self.header_bit(h, t) implies self.m_bitmap@[h] by {
                if h != header_index {
                    assert(self.h_bitmaps@[h] == old(self).h_bitmaps@[h]);
                }
                assert(old(self).header_bit(h, t));
            }
            assert forall|p: int| self@.contains(p) == old(self)@.remove(page_num as int).contains(
                p,
            ) by {
                let h = p / (DATA_PAGES_PER_HEADER as int);
                let t = p % (DATA_PAGES_PER_HEADER as int);
                if 0 <= p && 0 <= h < self.h_bitmaps@.len() && h != header_index {
                    assert(self.h_bitmaps@[h] == old(self).h_bitmaps@[h]);
                }
            }
            assert(self@ =~= old(self)@.remove(page_num as int));
        }
        let mut rest = self.persist(header_index);
        let mut writes: Vec<PageWrite> = Vec::new();
        writes.push(zero);
        writes.append(&mut rest);
        PageUpdate { page_num, writes }
    }

    /// Release all data pages from partition for use: every allocated page
    /// is released and every header page made inactive. The pages listed are
    /// to be zeroed on disk and the bitmaps persisted.
    pub fn release_data_pages(&mut self) -> (r: Released)
        requires
            old(self).wf(),
        ensures
            final(self).wf(),
            final(self).spec_part_num() == old(self).spec_part_num(),
            final(self)@ == Set::<int>::empty(),
            forall|h: int| !final(self).active(h),
            ascending(r.pages@),
            forall|p: int| old(self)@.contains(p) == listed(r.pages@, p),
            ascending(r.headers@),
            forall|h: int| old(self).active(h) == listed(r.headers@, h),
    {
        let headers = self.active_headers();
        let mut pages: Vec<usize> = Vec::new();
        let n: usize = headers.len();
        let mut k: usize = 0;
        let ghost mut bound: int = 0;
        let ghost dpph = DATA_PAGES_PER_HEADER as int;
        while k < n
            invariant
                self.wf(),
                *self == *old(self),
                dpph == DATA_PAGES_PER_HEADER,
                n == headers@.len(),
                k <= n,
                ascending(headers@),
                forall|h: int| self.active(h) == listed(headers@, h),
                ascending(pages@),
                forall|i: int| 0 <= i < pages@.len() ==> pages@[i] < bound,
                k < n ==> bound <= headers@[k as int] * dpph,
                forall|p: int|
                    listed(pages@, p) == (self@.contains(p) && listed_before(
                        headers@,
                        k as int,
                        p / dpph,
                    )),
            decreases n - k,
        {
            let h: usize = headers[k];
            let ghost outer = pages@;
            proof {
                assert(listed(headers@, h as int));
                assert(self.active(h as int));
            }
            if h < self.h_bitmaps.len() {
                let mut it = self.h_bitmaps[h].iter();
                let mut done: bool = false;
                while !done
                    invariant
                        self.wf(),
                        *self == *old(self),
                        dpph == DATA_PAGES_PER_HEADER,
                        h < MAX_HEADER_PAGES,
                        h < self.h_bitmaps@.len(),
                        k < n,
                        n == headers@.len(),
                        h == headers@[k as int],
                        ascending(headers@),
                        bound <= h * dpph,
                        it.wf(),
                        it.bitmap() == self.h_bitmaps@[h as int],
                        ascending(pages@),
                        forall|i: int| 0 <= i < pages@.len() ==> pages@[i] < h * dpph + it.position(),
                        forall|p: int|
                            listed(pages@, p) == (self@.contains(p) && (listed_before(
                                headers@,
                                k as int,
                                p / dpph,
                            ) || (p / dpph == h && p % dpph < it.position()))),
                        it.position() <= dpph,
                        done ==> it.position() == dpph,
                    decreases dpph - it.position(), if done { 0int } else { 1int },
                {
                    let ghost before = it.position();
                    let ghost seen = pages@;
                    match it.next() {
                        None => {
                            done = true;
                            proof {
                                assert forall|p: int|
                                    listed(pages@, p) == (self@.contains(p) && (listed_before(
                                        headers@,
                                        k as int,
                                        p / dpph,
                                    ) || (p / dpph == h && p % dpph < it.position()))) by {
                                    if self@.contains(p) && p / dpph == h {
                                        assert(self.header_bit(h as int, p % dpph));
                                    }
                                }
                            }
                        },
                        Some(d) => {
                            let page: usize = h * DATA_PAGES_PER_HEADER + d as usize;
                            proof {
                                lemma_listed_push(pages@, page);
                                assert(page as int / dpph == h);
                                assert(page as int % dpph == d);
                                assert(self.header_bit(h as int, d as int));
                                assert(self@.contains(page as int));
                            }
                            pages.push(page);
                            proof {
                                assert(pages@ == seen.push(page));
                                assert forall|p: int|
                                    listed(pages@, p) == (self@.contains(p) && (listed_before(
                                        headers@,
                                        k as int,
                                        p / dpph,
                                    ) || (p / dpph == h && p % dpph < it.position()))) by {
                                    assert(listed(pages@, p) == (listed(seen, p) || p == page));
                                    if self@.contains(p) && p / dpph == h {
                                        assert(self.header_bit(h as int, p % dpph));
                                        if p % dpph == d {
                                            assert(p == page);
                                        }
                                    }
                                    if listed_before(headers@, k as int, page as int / dpph) {
                                        let i = choose|i: int|
                                            0 <= i < k && headers@[i] as int == page as int / dpph;
                                        assert(headers@[i] < headers@[k as int]);
                                    }
                                }
                            }
                        },
                    }
                }
            } else {
                proof {
                    assert forall|p: int| self@.contains(p) implies p / dpph != h by {
                        assert(self.header_bit(p / dpph, p % dpph));
                    }
                }
            }
            proof {
                assert forall|p: int|
                    listed(pages@, p) == (self@.contains(p) && listed_before(
                        headers@,
                        k + 1,
                        p / dpph,
                    )) by {
                    if listed_before(headers@, k as int, p / dpph) {
                        let i = choose|i: int| 0 <= i < k && headers@[i] as int == p / dpph;
                        assert(0 <= i < k + 1 && headers@[i] as int == p / dpph);
                    }
                    if p / dpph == h {
                        assert(0 <= k < k + 1 && headers@[k as int] as int == p / dpph);
                    }
                    if self@.contains(p) {
                        assert(self.header_bit(p / dpph, p % dpph));
                    }
                }
                bound = (h + 1) * dpph;
                if k + 1 < n {
                    assert(headers@[k as int] < headers@[k + 1]);
                    assert((h + 1) * dpph <= headers@[k + 1] * dpph) by (nonlinear_arith)
                        requires
                            h + 1 <= headers@[k + 1],
                            dpph > 0,
                    ;
                }
            }
            k += 1;
        }
        proof {
            assert forall|p: int| old(self)@.contains(p) == listed(pages@, p) by {
                if self@.contains(p) {
                    assert(self.header_bit(p / dpph, p % dpph));
                    assert(self.active(p / dpph));
                    assert(listed(headers@, p / dpph));
                    let i = choose|i: int| 0 <= i < headers@.len() && headers@[i] as int == p / dpph;
                    assert(listed_before(headers@, n as int, p / dpph));
                }
            }
        }
        self.m_bitmap = Bitmap::new(MAX_HEADER_PAGES as u32);
        self.h_bitmaps = Vec::new();
        proof {
            assert(self@ =~= Set::<int>::empty());
        }
        Released { pages, headers }
    }

    /// Where in the file the data page `page_num` is read from.
    pub fn read_page(&self, page_num: usize) -> (offset: u64)
        requires
            self.wf(),
            self@.contains(page_num as int),
        ensures
            offset == data_offset(page_num as int),
    {
        proof {
            self.lemma_view();
        }
        virtual_data_page_offset(page_num)
    }

    /// The write that stores the page-sized buffer `buf` as data page
    /// `page_num`.
    pub fn write_page(&self, page_num: usize, buf: Vec<u8>) -> (w: PageWrite)
        requires
            self.wf(),
            self@.contains(page_num as int),
            buf@.len() == DEFAULT_PAGE_SIZE,
        ensures
            w.offset == data_offset(page_num as int),
            w.data@ == buf@,
    {
        proof {
            self.lemma_view();
        }
        PageWrite { offset: virtual_data_page_offset(page_num), data: buf }
    }
}

/// A page that was just allocated is allocated, and once it is released
/// again it is not: the set of allocated pages is then what it was before
/// the page was allocated.
pub proof fn law_alloc_release(pages: Set<int>, p: int)
    requires
        !pages.contains(p),
    ensures
        pages.insert(p).contains(p),
        !pages.insert(p).remove(p).contains(p),
        pages.insert(p).remove(p) == pages,
{
    assert(pages.insert(p).remove(p) =~= pages);
}

} // verus!
