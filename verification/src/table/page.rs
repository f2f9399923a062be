//! Paged storage: pages in memory, the layout of a partition file and the
//! allocator over it.
use std::marker::PhantomData;
use vstd::prelude::*;
use crate::table::page::manager::DEFAULT_PAGE_SIZE;
use crate::table::page::marker::{Data, Header, HeaderOrData};

pub mod error;
pub mod manager;
pub mod marker;
pub mod partition;

verus! {

/// A header page in memory: it counts the data pages that it manages and
/// leads to the header page after it.
pub struct HeaderPage {
    next: Option<Box<HeaderPage>>,
    header_offset: usize,
    data_page_nums: u16,
    vals: Vec<u8>,
}

impl HeaderPage {
    /// The header pages after this one, in order.
    pub closed spec fn following(&self) -> Seq<HeaderPage>
        decreases self,
    {
        match self.next {
            None => Seq::empty(),
            Some(b) => seq![*b] + b.following(),
        }
    }

    /// The offset of the page among the header pages.
    pub closed spec fn spec_header_offset(&self) -> usize {
        self.header_offset
    }

    /// The number of data pages that the page manages.
    pub closed spec fn spec_data_page_nums(&self) -> u16 {
        self.data_page_nums
    }

    /// A header page that manages no data page yet and has no page after
    /// it.
    pub fn new(page_num: usize, header_offset: usize, first: bool) -> (r: Box<Self>)
        ensures
            r.following().len() == 0,
            r.spec_data_page_nums() == 0,
            r.spec_header_offset() == header_offset,
    {
        Box::new(HeaderPage { next: None, header_offset, data_page_nums: 0, vals: Vec::new() })
    }

    /// Sets the number of data pages that the page manages.
    pub fn set_data_page_nums(&mut self, data_page_nums: u16)
        ensures
            final(self).spec_data_page_nums() == data_page_nums,
            final(self).following() == old(self).following(),
            final(self).spec_header_offset() == old(self).spec_header_offset(),
    {
        self.data_page_nums = data_page_nums;
    }

    /// The number of data pages that the page manages.
    pub fn data_page_nums(&self) -> (r: u16)
        ensures
            r == self.spec_data_page_nums(),
    {
        self.data_page_nums
    }

    /// Puts `next` behind this page, in front of the pages that followed
    /// it, which move behind the last page that follows `next`.
    pub fn set_next(&mut self, next: Box<HeaderPage>)
        requires
            old(self).following().len() == 0,
        ensures
            final(self).following() == seq![*next] + next.following(),
            final(self).spec_data_page_nums() == old(self).spec_data_page_nums(),
            final(self).spec_header_offset() == old(self).spec_header_offset(),
    {
        self.next = Some(next);
    }

    /// Returns how many data pages the header pages after this one manage.
    pub fn get_num_data_pages(&self) -> (r: usize)
        requires
            data_pages_of(self.following()) <= usize::MAX,
        ensures
            r == data_pages_of(self.following()),
    {
        let mut it = self.iter();
        let mut total: usize = 0;
        let mut done: bool = false;
        while !done
            invariant
                total + data_pages_of(it.rest()) == data_pages_of(self.following()),
                data_pages_of(self.following()) <= usize::MAX,
                done ==> it.rest().len() == 0,
            decreases it.rest().len(), if done { 0int } else { 1int },
        {
            let ghost rest = it.rest();
            match it.next() {
                None => {
                    done = true;
                },
                Some(page) => {
                    proof {
                        lemma_data_pages_nonneg(rest.drop_first());
                    }
                    total = total + page.data_page_nums as usize;
                },
            }
        }
        total
    }

    /// A cursor over the header pages after this one.
    pub fn iter(&self) -> (it: HeaderPageIter<'_>)
        ensures
            it.rest() == self.following(),
    {
        match &self.next {
            None => HeaderPageIter { next: None },
            Some(b) => HeaderPageIter { next: Some(&**b) },
        }
    }
}

/// The number of data pages that the header pages `pages` manage together.
pub open spec fn data_pages_of(pages: Seq<HeaderPage>) -> int
    decreases pages.len(),
{
    if pages.len() == 0 {
        0
    } else {
        pages[0].spec_data_page_nums() + data_pages_of(pages.drop_first())
    }
}

proof fn lemma_data_pages_nonneg(pages: Seq<HeaderPage>)
    ensures
        data_pages_of(pages) >= 0,
    decreases pages.len(),
{
    if pages.len() > 0 {
        lemma_data_pages_nonneg(pages.drop_first());
    }
}

/// A cursor over a chain of header pages.
pub struct HeaderPageIter<'a> {
    next: Option<&'a HeaderPage>,
}

impl<'a> HeaderPageIter<'a> {
    /// The pages that the cursor has still to hand out, in order.
    pub closed spec fn rest(&self) -> Seq<HeaderPage> {
        match self.next {
            None => Seq::empty(),
            Some(p) => seq![*p] + p.following(),
        }
    }

    /// Hands out the next header page, or `None` at the end of the chain.
    pub fn next(&mut self) -> (r: Option<&'a HeaderPage>)
        ensures
            match r {
                Some(p) => old(self).rest().len() > 0 && *p == old(self).rest()[0] && final(self).rest() == old(self).rest().drop_first(),
                None => old(self).rest().len() == 0 && final(self).rest().len() == 0,
            },
    {
        match self.next {
            None => None,
            Some(page) => {
                self.next = match &page.next {
                    None => None,
                    Some(b) => Some(&**b),
                };
                proof {
                    assert((seq![*page] + page.following()).drop_first() =~= page.following());
                }
                Some(page)
            },
        }
    }
}

/// A data page in memory: the number of its records and its bytes.
pub struct DataPage {
    len: u16,
    vals: Vec<u8>,
}

impl DataPage {
    /// The bytes of the page.
    pub closed spec fn view(&self) -> Seq<u8> {
        self.vals@
    }

    /// The number of records on the page.
    pub closed spec fn spec_len(&self) -> u16 {
        self.len
    }

    /// Creates a new boxed `DataPage` without records or bytes.
    pub fn new() -> (r: Box<Self>)
        ensures
            r.spec_len() == 0,
            r@.len() == 0,
    {
        Box::new(DataPage { len: 0, vals: Vec::new() })
    }

    /// The number of records on the page.
    pub fn len(&self) -> (r: u16)
        ensures
            r == self.spec_len(),
    {
        self.len
    }

    /// The bytes of the page.
    pub fn bytes(&self) -> (r: &Vec<u8>)
        ensures
            r@ == self@,
    {
        &self.vals
    }

    /// Takes the bytes of the page from `data`, which is one page long.
    pub fn fill(&mut self, data: &[u8])
        requires
            data@.len() == DEFAULT_PAGE_SIZE,
        ensures
            final(self)@ == data@,
            final(self).spec_len() == old(self).spec_len(),
    {
        let mut vals: Vec<u8> = Vec::with_capacity(DEFAULT_PAGE_SIZE);
        let mut i: usize = 0;
        while i < DEFAULT_PAGE_SIZE
            invariant
                i <= DEFAULT_PAGE_SIZE,
                data@.len() == DEFAULT_PAGE_SIZE,
                vals@ == data@.take(i as int),
            decreases DEFAULT_PAGE_SIZE - i,
        {
            vals.push(data[i]);
            assert(data@.take(i as int).push(data@[i as int]) =~= data@.take(i + 1));
            i += 1;
        }
        assert(data@.take(DEFAULT_PAGE_SIZE as int) =~= data@);
        self.vals = vals;
    }
}

/// Page represents a page loaded in memory: a header page or a data page.
pub enum Page {
    Header(Box<HeaderPage>),
    Data(Box<DataPage>),
}

/// What `force` finds a page to be.
pub enum ForceResult<Header, Data> {
    Header(Header),
    Data(Data),
}

/// A reference to a page whose type parameter says what is known of its
/// kind.
pub struct PageRef<Type> {
    is_header: bool,
    /// The data or header page.
    page: Page,
    _marker: PhantomData<Type>,
}

// Header/Data Page common methods.
impl<Type> PageRef<Type> {
    /// The page that the reference stands for.
    pub closed spec fn page(&self) -> Page {
        self.page
    }

    /// Whether the reference is marked as one to a header page.
    pub closed spec fn spec_is_header(&self) -> bool {
        self.is_header
    }

    /// The mark agrees with the page.
    pub open spec fn wf(&self) -> bool {
        self.spec_is_header() == (self.page() is Header)
    }

    /// Whether the reference is marked as one to a header page.
    pub fn is_header(&self) -> (r: bool)
        ensures
            r == self.spec_is_header(),
    {
        self.is_header
    }

    /// The data page that the reference stands for.
    pub fn as_data_page(&self) -> (r: &DataPage)
        requires
            self.page() is Data,
        ensures
            self.page() == Page::Data(Box::new(*r)),
    {
        match &self.page {
            Page::Data(d) => &**d,
            Page::Header(_) => vstd::pervasive::unreached(),
        }
    }

    /// The number of records on the data page.
    pub fn num_records(&self) -> (r: u16)
        requires
            self.page() is Data,
        ensures
            self.page() matches Page::Data(d) && r == d.spec_len(),
    {
        self.as_data_page().len()
    }
}

impl PageRef<HeaderOrData> {
    /// Checks whether a page is an `Header` page or a `Data` page.
    pub fn force(self) -> (r: ForceResult<PageRef<Header>, PageRef<Data>>)
        ensures
            match r {
                ForceResult::Header(h) => self.spec_is_header() && h.spec_is_header() && h.page()
                    == self.page(),
                ForceResult::Data(d) => !self.spec_is_header() && !d.spec_is_header() && d.page()
                    == self.page(),
            },
    {
        if self.is_header {
            ForceResult::Header(PageRef { is_header: true, page: self.page, _marker: PhantomData })
        } else {
            ForceResult::Data(PageRef { is_header: false, page: self.page, _marker: PhantomData })
        }
    }
}

// Header-Page proprietary methods.
impl PageRef<Header> {
    /// A reference to a new header page.
    pub fn new_header_page(page_num: usize, header_offset: usize, first: bool) -> (r: Self)
        ensures
            r.wf(),
            r.spec_is_header(),
            r.page() matches Page::Header(h) && h.following().len() == 0
                && h.spec_data_page_nums() == 0 && h.spec_header_offset() == header_offset,
    {
        Self {
            page: Page::Header(HeaderPage::new(page_num, header_offset, first)),
            _marker: PhantomData,
            is_header: true,
        }
    }

    /// A reference to the header page `page`.
    pub fn from_header_page(page: Box<HeaderPage>) -> (r: Self)
        ensures
            r.wf(),
            r.spec_is_header(),
            r.page() == Page::Header(page),
    {
        PageRef { page: Page::Header(page), _marker: PhantomData, is_header: true }
    }

    /// The reference without what is known of the kind of its page.
    pub fn forget_type(self) -> (r: PageRef<HeaderOrData>)
        ensures
            r.spec_is_header(),
            r.page() == self.page(),
    {
        PageRef { page: self.page, _marker: PhantomData, is_header: true }
    }

    /// The header page that the reference stands for.
    pub fn as_header_page(&self) -> (r: &HeaderPage)
        requires
            self.page() is Header,
        ensures
            self.page() == Page::Header(Box::new(*r)),
    {
        match &self.page {
            Page::Header(h) => &**h,
            Page::Data(_) => vstd::pervasive::unreached(),
        }
    }
}

// Data-Page proprietary methods.
impl PageRef<Data> {
    /// A reference to a new data page.
    pub fn new_data_page() -> (r: Self)
        ensures
            r.wf(),
            !r.spec_is_header(),
            r.page() matches Page::Data(d) && d.spec_len() == 0 && d@.len() == 0,
    {
        Self { page: Page::Data(DataPage::new()), _marker: PhantomData, is_header: false }
    }

    /// A reference to the data page `page`.
    pub fn from_data_page(page: Box<DataPage>) -> (r: Self)
        ensures
            r.wf(),
            !r.spec_is_header(),
            r.page() == Page::Data(page),
    {
        Self { page: Page::Data(page), _marker: PhantomData, is_header: false }
    }

    /// The reference without what is known of the kind of its page.
    pub fn forget_type(self) -> (r: PageRef<HeaderOrData>)
        ensures
            !r.spec_is_header(),
            r.page() == self.page(),
    {
        PageRef { page: self.page, _marker: PhantomData, is_header: false }
    }
}

} // verus!
