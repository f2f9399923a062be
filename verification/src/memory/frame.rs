//! Buffer frames: a byte array with what is known of the page loaded in it.
use vstd::prelude::*;

verus! {

/// The immutable byte buffer of the `bytes` crate.
#[verifier::external_type_specification]
#[verifier::external_body]
pub struct ExBytes(bytes::Bytes);

/// The bytes that a buffer holds.
pub uninterp spec fn bytes_held(b: bytes::Bytes) -> Seq<u8>;

/// Empties the buffer with `bytes::Bytes::clear`, which cuts it to length
/// zero.
#[verifier::external_body]
fn clear_bytes(b: &mut bytes::Bytes)
    ensures
        bytes_held(*final(b)) == Seq::<u8>::empty(),
{
    b.clear()
}

/// The number of bytes in the buffer, by `bytes::Bytes::len`.
#[verifier::external_body]
fn bytes_len(b: &bytes::Bytes) -> (r: usize)
    ensures
        r == bytes_held(*b).len(),
{
    b.len()
}

/// Buffer frame, containing information about the loaded page, wrapped
/// around the underlying byte array. Free frames use the index field to
/// create a (single) linked list between free frames.
pub struct Frame {
    contents: bytes::Bytes,
    index: isize,
    page_num: u64,
    dirty: bool,
    log_page: bool,
    pin_count: usize,
}

impl Frame {
    /// The bytes of the frame.
    pub closed spec fn view(&self) -> Seq<u8> {
        bytes_held(self.contents)
    }

    /// The index of the frame: its place among the frames where it is not
    /// negative, and the complement of the next free frame's index where
    /// the frame is free.
    pub closed spec fn index(&self) -> isize {
        self.index
    }

    /// The number of pins on the frame.
    pub closed spec fn pins(&self) -> usize {
        self.pin_count
    }

    /// Whether the frame has changes that are not on disk.
    pub closed spec fn is_dirty(&self) -> bool {
        self.dirty
    }

    /// The number of the page in the frame.
    pub closed spec fn spec_page_num(&self) -> u64 {
        self.page_num
    }

    /// A frame at place `index` that holds the page `page_num` with the
    /// bytes `contents`, without pins.
    pub fn with_contents(contents: bytes::Bytes, index: isize, page_num: u64, dirty: bool) -> (r:
        Self)
        ensures
            r@ == bytes_held(contents),
            r.index() == index,
            r.spec_page_num() == page_num,
            r.pins() == 0,
            r.is_dirty() == dirty,
    {
        Frame { contents, index, page_num, dirty, log_page: false, pin_count: 0 }
    }

    /// The number of bytes in the frame.
    pub fn len(&self) -> (r: usize)
        ensures
            r == self@.len(),
    {
        bytes_len(&self.contents)
    }

    /// Pin buffer frame, cannot be evicted while pinned.  A "hit" happens
    /// when the buffer frame gets pinned.
    pub fn pin(&mut self)
        requires
            old(self).pins() < usize::MAX,
        ensures
            final(self).pins() == old(self).pins() + 1,
            final(self).index() == old(self).index(),
            final(self)@ == old(self)@,
            final(self).is_dirty() == old(self).is_dirty(),
            final(self).spec_page_num() == old(self).spec_page_num(),
    {
        self.pin_count += 1;
    }

    /// Unpin buffer frame.
    pub fn unpin(&mut self)
        requires
            old(self).pins() > 0,
        ensures
            final(self).pins() == old(self).pins() - 1,
            final(self).index() == old(self).index(),
            final(self)@ == old(self)@,
            final(self).is_dirty() == old(self).is_dirty(),
            final(self).spec_page_num() == old(self).spec_page_num(),
    {
        self.pin_count -= 1;
    }

    /// Returns whether this frame is pinned.
    pub fn is_pinned(&self) -> (r: bool)
        ensures
            r == (self.pins() > 0),
    {
        self.pin_count > 0
    }

    /// Returns whether this frame is valid.
    pub fn is_valid(&self) -> (r: bool)
        ensures
            r == (self.index() >= 0),
    {
        self.index >= 0
    }

    /// Returns whether this frame's page has been freed.
    pub fn is_freed(&self) -> (r: bool)
        ensures
            r == (self.index() < 0),
    {
        self.index < 0 && self.index != isize::MAX
    }

    /// Flushes this buffer frame to disk, but dose not unload it. The frame
    /// is pinned for the flush; where it is not valid or not dirty, nothing
    /// is flushed and the pin stays.
    pub fn flush(&mut self)
        requires
            old(self).pins() < usize::MAX,
        ensures
            final(self).pins() == if old(self).index() >= 0 && old(self).is_dirty() {
                old(self).pins() as int
            } else {
                old(self).pins() + 1
            },
            final(self).index() == old(self).index(),
            final(self)@ == old(self)@,
            final(self).is_dirty() == old(self).is_dirty(),
            final(self).spec_page_num() == old(self).spec_page_num(),
    {
        self.pin();
        if !self.is_valid() || !self.dirty {
            return ;
        }
        self.unpin();
    }

    /// Invalidats the frame, flushing it if necessary.
    pub fn invalidate(&mut self)
        requires
            old(self).pins() < usize::MAX,
        ensures
            final(self).index() == isize::MAX,
            final(self)@ == Seq::<u8>::empty(),
            final(self).pins() == if old(self).index() >= 0 && !old(self).is_dirty() {
                old(self).pins() + 1
            } else {
                old(self).pins() as int
            },
            final(self).is_dirty() == old(self).is_dirty(),
            final(self).spec_page_num() == old(self).spec_page_num(),
    {
        if self.is_valid() {
            self.flush();
        }
        self.index = isize::MAX;
        clear_bytes(&mut self.contents);
    }

    /// Marks the frame as free: it becomes the first of the free frames and
    /// keeps the complement of the index of the one that was first.
    pub fn set_free(&mut self, first_free_index: &mut isize)
        requires
            old(self).index() >= 0,
        ensures
            *final(first_free_index) == old(self).index(),
            final(self).index() == !*old(first_free_index),
            final(self).pins() == old(self).pins(),
            final(self)@ == old(self)@,
            final(self).is_dirty() == old(self).is_dirty(),
            final(self).spec_page_num() == old(self).spec_page_num(),
    {
        let next_free_index: isize = *first_free_index;
        *first_free_index = self.index;
        self.index = !next_free_index;
    }

    /// Marks the frame as used: the free frame after it becomes the first
    /// of the free frames, and the frame takes the index that was first.
    pub fn set_used(&mut self, first_free_index: &mut isize)
        requires
            old(self).index() < 0,
        ensures
            *final(first_free_index) == !old(self).index(),
            final(self).index() == *old(first_free_index),
            final(self).pins() == old(self).pins(),
            final(self)@ == old(self)@,
            final(self).is_dirty() == old(self).is_dirty(),
            final(self).spec_page_num() == old(self).spec_page_num(),
    {
        let index: isize = *first_free_index;
        *first_free_index = !self.index;
        self.index = index;
    }

    /// Returns page number of this frame.
    pub fn page_num(&self) -> (r: u64)
        ensures
            r == self.spec_page_num(),
    {
        self.page_num
    }
}

} // verus!
