//! The page store: the image of the database file, cut into pages of fixed
//! size and reached by page number, with every access checked against the
//! end of the image.

use vstd::prelude::*;
use vstd::slice::slice_subrange;
use crate::constants::OS_PAGE_SIZE;
use crate::db::PageId;
use crate::enc::{append_bytes, append_zeros, copy_into, overwrite, zeros};
use crate::errors::Error;
use crate::page::{PAGE_HEADER_SIZE, PAGE_OVERFLOW, PageFlags, PageHeader, PageKind};

verus! {

/// The number of bytes of a page that are left for data behind the header.
pub const PAGE_DATA_SIZE: usize = 4080;

/// Whether page `id` lies inside an image of `len` bytes.
pub open spec fn in_bounds(len: nat, id: int) -> bool {
    0 <= id && (id + 1) * OS_PAGE_SIZE <= len
}

/// The bytes of page `id` of image `data`.
pub open spec fn page_bytes(data: Seq<u8>, id: int) -> Seq<u8> {
    data.subrange(id * OS_PAGE_SIZE, (id + 1) * OS_PAGE_SIZE)
}

/// The image of the database file as an array of pages.
#[derive(Debug)]
pub struct PageArray {
    data: Vec<u8>,
}

impl View for PageArray {
    type V = Seq<u8>;

    closed spec fn view(&self) -> Seq<u8> {
        self.data@
    }
}

impl PageArray {
    /// The store over image `data`.
    pub fn new(data: Vec<u8>) -> (pa: PageArray)
        ensures
            pa@ == data@,
    {
        PageArray { data }
    }

    /// The image, given back.
    pub fn into_bytes(self) -> (data: Vec<u8>)
        ensures
            data@ == self@,
    {
        self.data
    }

    /// The image, to look at.
    pub fn as_bytes(&self) -> (data: &[u8])
        ensures
            data@ == self@,
    {
        self.data.as_slice()
    }

    /// The length of the image, in bytes.
    pub fn len(&self) -> (n: usize)
        ensures
            n == self@.len(),
    {
        self.data.len()
    }

    /// The number of whole pages in the image.
    pub fn page_count(&self) -> (n: u64)
        ensures
            n == self@.len() / (OS_PAGE_SIZE as nat),
            forall|id: int| in_bounds(self@.len(), id) <==> 0 <= id < n,
    {
        let n = (self.data.len() / OS_PAGE_SIZE) as u64;
        proof {
            let len = self@.len() as int;
            assert forall|id: int| in_bounds(self@.len(), id) <==> 0 <= id < n by {
                assert((id + 1) * 4096 <= len <==> id < len / 4096);
            }
        }
        n
    }

    /// Whether page `id` lies inside the image.
    pub fn check_bounds(&self, id: PageId) -> (ok: bool)
        ensures
            ok == in_bounds(self@.len(), id as int),
    {
        id < self.page_count()
    }

    /// The bytes of page `id`. Fails with `PageOutOfBounds` when the page
    /// does not lie inside the image.
    pub fn read(&self, id: PageId) -> (r: Result<&[u8], Error>)
        ensures
            match r {
                Ok(page) => in_bounds(self@.len(), id as int) && page@ == page_bytes(
                    self@,
                    id as int,
                ),
                Err(e) => !in_bounds(self@.len(), id as int) && e == Error::PageOutOfBounds,
            },
    {
        if !self.check_bounds(id) {
            return Err(Error::PageOutOfBounds);
        }
        assert((id + 1) * 4096 <= self.data.len());
        let start = (id as usize) * OS_PAGE_SIZE;
        Ok(slice_subrange(self.data.as_slice(), start, start + OS_PAGE_SIZE))
    }

    /// Writes `bytes` into page `id`, from the start of the page on. Fails
    /// with `PageOutOfBounds`, and changes nothing, when the page does not
    /// lie inside the image or `bytes` is longer than a page.
    pub fn write(&mut self, id: PageId, bytes: &[u8]) -> (r: Result<(), Error>)
        ensures
            in_bounds(old(self)@.len(), id as int) && bytes@.len() <= OS_PAGE_SIZE ==> r == Ok::<
                (),
                Error,
            >(()) && final(self)@ == overwrite(old(self)@, id * OS_PAGE_SIZE, bytes@),
            !(in_bounds(old(self)@.len(), id as int) && bytes@.len() <= OS_PAGE_SIZE) ==> r
                == Err::<(), Error>(Error::PageOutOfBounds) && final(self)@ == old(self)@,
    {
        if !self.check_bounds(id) || bytes.len() > OS_PAGE_SIZE {
            return Err(Error::PageOutOfBounds);
        }
        assert((id + 1) * 4096 <= self.data.len());
        let start = (id as usize) * OS_PAGE_SIZE;
        copy_into(&mut self.data, start, bytes);
        Ok(())
    }

    /// Makes the image at least `pages` pages long by adding zero bytes at
    /// its end. What the image held stays where it was. Fails with
    /// `PageOutOfBounds`, and changes nothing, when so many pages cannot be
    /// addressed.
    pub fn grow(&mut self, pages: u64) -> (r: Result<(), Error>)
        ensures
            pages * OS_PAGE_SIZE <= usize::MAX ==> r == Ok::<(), Error>(()) && final(self)@
                == old(self)@ + zeros(
                if pages * OS_PAGE_SIZE > old(self)@.len() {
                    (pages * OS_PAGE_SIZE - old(self)@.len()) as nat
                } else {
                    0
                },
            ),
            pages * OS_PAGE_SIZE > usize::MAX ==> r == Err::<(), Error>(Error::PageOutOfBounds)
                && final(self)@ == old(self)@,
    {
        if pages > (usize::MAX / OS_PAGE_SIZE) as u64 {
            return Err(Error::PageOutOfBounds);
        }
        let target = (pages as usize) * OS_PAGE_SIZE;
        let ghost before = self.data@;
        if target > self.data.len() {
            let more = target - self.data.len();
            append_zeros(&mut self.data, more);
        } else {
            proof {
                assert(self.data@ =~= before + zeros(0));
            }
        }
        Ok(())
    }

    /// A handle on page `id`. Fails with `PageOutOfBounds` when the page
    /// does not lie inside the image.
    pub fn get_page_info(&self, id: PageId) -> (r: Result<PageInfo<'_>, Error>)
        ensures
            match r {
                Ok(info) => in_bounds(self@.len(), id as int) && info.wf() && info.id() == id
                    && info.bytes() == page_bytes(self@, id as int),
                Err(e) => !in_bounds(self@.len(), id as int) && e == Error::PageOutOfBounds,
            },
    {
        match self.read(id) {
            Ok(page) => {
                assert((id + 1) * 4096 <= self.data.len());
                Ok(PageInfo { data: page, id })
            },
            Err(e) => Err(e),
        }
    }
}

/// A handle on one page of the image: its number and its bytes.
#[derive(Debug, Copy, Clone)]
pub struct PageInfo<'a> {
    data: &'a [u8],
    id: PageId,
}

impl<'a> PageInfo<'a> {
    /// The number of the page.
    pub closed spec fn id(&self) -> PageId {
        self.id
    }

    /// The bytes of the page.
    pub closed spec fn bytes(&self) -> Seq<u8> {
        self.data@
    }

    /// What holds of every handle: it spans one whole page, and the page
    /// has a successor.
    pub open spec fn wf(&self) -> bool {
        &&& self.bytes().len() == OS_PAGE_SIZE
        &&& self.id() < u64::MAX
    }

    /// The header that the page starts with.
    pub open spec fn spec_header(&self) -> PageHeader {
        PageHeader::of_bytes(self.bytes())
    }

    /// The number of the page.
    pub fn page_id(&self) -> (id: PageId)
        ensures
            id == self.id(),
    {
        self.id
    }

    /// The bytes of the page.
    pub fn data(&self) -> (d: &'a [u8])
        ensures
            d@ == self.bytes(),
    {
        self.data
    }

    /// The header that the page starts with.
    pub fn header(&self) -> (h: PageHeader)
        requires
            self.wf(),
        ensures
            h == self.spec_header(),
    {
        match PageHeader::read(self.data) {
            Ok(h) => h,
            Err(_) => PageHeader { id: 0, flags: 0, count: 0, overflow: 0 },
        }
    }

    /// The page right behind this one, if the record that this page belongs
    /// to goes on there.
    pub fn overflow_page(&self) -> (r: Option<PageId>)
        requires
            self.wf(),
        ensures
            r == if self.spec_header().overflow > 0 {
                Some((self.id() + 1) as u64)
            } else {
                None
            },
    {
        if self.header().overflow > 0 {
            Some(self.id + 1)
        } else {
            None
        }
    }

    /// The flags of the page.
    pub fn page_flags(&self) -> (f: PageFlags)
        requires
            self.wf(),
        ensures
            f == (PageFlags { bits: self.spec_header().flags }),
    {
        PageFlags { bits: self.header().flags }
    }
}


/// The number of pages that a record with `len` bytes of payload takes: as
/// many as hold the payload, and one at least.
pub open spec fn pages_for(len: nat) -> nat {
    if len == 0 {
        1
    } else if len % (PAGE_DATA_SIZE as nat) == 0 {
        len / (PAGE_DATA_SIZE as nat)
    } else {
        len / (PAGE_DATA_SIZE as nat) + 1
    }
}

/// The payload of a record filled up with zero bytes to whole pages.
pub open spec fn padded(payload: Seq<u8>) -> Seq<u8> {
    payload + zeros((pages_for(payload.len()) * PAGE_DATA_SIZE - payload.len()) as nat)
}

/// The header of page `k` of a record that starts at page `id` and takes
/// `pages` pages: the first page says what the record is and how many
/// elements it has, every further page is marked as a continuation, and each
/// says how many pages still follow it.
pub open spec fn record_header(id: int, flags: u16, count: u16, pages: int, k: int) -> PageHeader {
    PageHeader {
        id: (id + k) as u64,
        flags: if k == 0 {
            flags
        } else {
            PAGE_OVERFLOW
        },
        count: if k == 0 {
            count
        } else {
            0
        },
        overflow: (pages - 1 - k) as u32,
    }
}

/// Page `k` of a record as it lies in the file: its header, then its share
/// of the padded payload.
pub open spec fn record_page(
    id: int,
    flags: u16,
    count: u16,
    payload: Seq<u8>,
    k: int,
) -> Seq<u8> {
    record_header(id, flags, count, pages_for(payload.len()) as int, k).bytes() + padded(
        payload,
    ).subrange(k * PAGE_DATA_SIZE, (k + 1) * PAGE_DATA_SIZE)
}

/// The first `k` pages of a record as they lie in the file.
pub open spec fn record_image(
    id: int,
    flags: u16,
    count: u16,
    payload: Seq<u8>,
    k: nat,
) -> Seq<u8>
    decreases k,
{
    if k == 0 {
        Seq::empty()
    } else {
        record_image(id, flags, count, payload, (k - 1) as nat) + record_page(
            id,
            flags,
            count,
            payload,
            k - 1,
        )
    }
}

/// The data of `pages`, page after page: what lies behind the header of
/// each.
pub open spec fn payload_of(pages: Seq<Seq<u8>>) -> Seq<u8>
    decreases pages.len(),
{
    if pages.len() == 0 {
        Seq::empty()
    } else {
        payload_of(pages.drop_last()) + pages.last().skip(PAGE_HEADER_SIZE as int)
    }
}

/// The `n` pages of image `data` from page `id` on.
pub open spec fn record_pages(data: Seq<u8>, id: int, n: nat) -> Seq<Seq<u8>> {
    Seq::new(n, |k: int| page_bytes(data, id + k))
}

/// What the walk along a record finds from its page `k` on, when the record
/// starts at page `id` and its first page announces `n` more: the first page
/// that lies outside the image gives `PageOutOfBounds`, the first whose
/// header is not that of the continuation expected there gives
/// `DatabaseInvalid`.
pub open spec fn chain_check(data: Seq<u8>, id: int, n: int, k: int) -> Result<(), Error>
    decreases n + 1 - k,
{
    if k > n {
        Ok(())
    } else if !in_bounds(data.len(), id + k) {
        Err(Error::PageOutOfBounds)
    } else if PageHeader::of_bytes(page_bytes(data, id + k)) != record_header(
        id,
        0,
        0,
        n + 1,
        k,
    ) {
        Err(Error::DatabaseInvalid)
    } else {
        chain_check(data, id, n, k + 1)
    }
}

/// What `PageIndex::new` finds for the record that starts at page `id` of
/// image `data`: the number of its pages, or why it is not a record.
pub open spec fn record_check(data: Seq<u8>, id: int) -> Result<nat, Error> {
    let first = PageHeader::of_bytes(page_bytes(data, id));
    if !in_bounds(data.len(), id) {
        Err(Error::PageOutOfBounds)
    } else if first.id != id || first.flags == PAGE_OVERFLOW {
        Err(Error::DatabaseInvalid)
    } else {
        match chain_check(data, id, first.overflow as int, 1) {
            Ok(_) => Ok((first.overflow + 1) as nat),
            Err(e) => Err(e),
        }
    }
}

/// The pages of one record, the first and those that continue it.
#[derive(Debug)]
pub struct PageIndex<'a> {
    page_ptrs: Vec<PageInfo<'a>>,
    capacity: u64,
    length: u64,
}

impl<'a> PageIndex<'a> {
    /// The bytes of the pages of the record, in their order.
    pub closed spec fn pages(&self) -> Seq<Seq<u8>> {
        Seq::new(self.page_ptrs@.len(), |k: int| self.page_ptrs@[k].bytes())
    }

    /// What holds of every index: each of its pages is a whole page.
    pub closed spec fn wf(&self) -> bool {
        forall|k: int| 0 <= k < self.page_ptrs@.len() ==> (#[trigger] self.page_ptrs@[k]).wf()
    }

    /// The number of bytes of data that the pages of the record hold.
    pub closed spec fn spec_capacity(&self) -> u64 {
        self.capacity
    }

    /// The number of elements in the record.
    pub closed spec fn spec_length(&self) -> u64 {
        self.length
    }

    /// The number of elements that the header of `page` announces.
    pub fn length(page: PageInfo<'a>) -> (n: u16)
        requires
            page.wf(),
        ensures
            n == page.spec_header().count,
    {
        page.header().count
    }

    /// Walks along the record that starts at `page` and collects its pages.
    /// Fails with `DatabaseInvalid` when the header of `page` carries
    /// another page number or marks a continuation, or when a page that
    /// should continue the record does not, and with `PageOutOfBounds` when
    /// the record runs past the end of the image.
    pub fn new(page: PageInfo<'a>, pa: &'a PageArray) -> (r: Result<PageIndex<'a>, Error>)
        requires
            page.wf(),
            in_bounds(pa@.len(), page.id() as int),
            page.bytes() == page_bytes(pa@, page.id() as int),
        ensures
            match r {
                Ok(index) => index.wf() && record_check(pa@, page.id() as int) == Ok::<
                    nat,
                    Error,
                >(index.pages().len()) && index.pages() == record_pages(pa@, page.id() as int, index.pages().len())
                    && index.spec_length() == page.spec_header().count
                    && index.spec_capacity() == index.pages().len() * PAGE_DATA_SIZE,
                Err(e) => record_check(pa@, page.id() as int) == Err::<nat, Error>(e),
            },
    {
        let first = page.header();
        let id = page.page_id();
        if first.id != id || first.flags == PAGE_OVERFLOW {
            return Err(Error::DatabaseInvalid);
        }
        let n = first.overflow;
        let mut pages: Vec<PageInfo<'a>> = Vec::new();
        pages.push(page);
        let mut k: u32 = 0;
        let total = pa.page_count();
        while k < n
            invariant
                k <= n,
                n == first.overflow,
                id == page.id(),
                first == page.spec_header(),
                first.id == id,
                first.flags != PAGE_OVERFLOW,
                in_bounds(pa@.len(), id as int),
                page.bytes() == page_bytes(pa@, id as int),
                total == pa@.len() / (OS_PAGE_SIZE as nat),
                forall|j: int| in_bounds(pa@.len(), j) <==> 0 <= j < total,
                id + k < total,
                pages@.len() == k + 1,
                forall|j: int|
                    0 <= j <= k ==> (#[trigger] pages@[j]).bytes() == page_bytes(pa@, id + j),
                forall|j: int| 0 <= j <= k ==> (#[trigger] pages@[j]).wf(),
                chain_check(pa@, id as int, n as int, 1) == chain_check(
                    pa@,
                    id as int,
                    n as int,
                    k + 1,
                ),
            decreases n - k,
        {
            let next = id + k as u64 + 1;
            let info = match pa.get_page_info(next) {
                Ok(info) => info,
                Err(e) => {
                    return Err(e);
                },
            };
            let h = info.header();
            if h.id != next || h.flags != PAGE_OVERFLOW || h.count != 0 || h.overflow != n - k
                - 1 {
                return Err(Error::DatabaseInvalid);
            }
            pages.push(info);
            k += 1;
        }
        let count = pages.len();
        let index = PageIndex {
            page_ptrs: pages,
            capacity: (count as u64) * (PAGE_DATA_SIZE as u64),
            length: first.count as u64,
        };
        proof {
            assert(index.pages() =~= record_pages(pa@, id as int, index.pages().len()));
        }
        Ok(index)
    }

    /// The data of the record: what lies behind the header of each of its
    /// pages, page after page.
    pub fn payload(&self) -> (out: Vec<u8>)
        requires
            self.wf(),
        ensures
            out@ == payload_of(self.pages()),
    {
        let mut out: Vec<u8> = Vec::new();
        let mut k: usize = 0;
        while k < self.page_ptrs.len()
            invariant
                k <= self.page_ptrs@.len(),
                self.wf(),
                out@ == payload_of(self.pages().subrange(0, k as int)),
            decreases self.page_ptrs@.len() - k,
        {
            let data = self.page_ptrs[k].data();
            let ghost sofar = self.pages().subrange(0, k as int);
            let ghost next = self.pages().subrange(0, k + 1);
            proof {
                assert(next.drop_last() =~= sofar);
                assert(next.last() == data@);
            }
            assert(self.page_ptrs@[k as int].wf());
            append_bytes(&mut out, slice_subrange(data, PAGE_HEADER_SIZE, data.len()));
            k += 1;
        }
        proof {
            assert(self.pages().subrange(0, k as int) =~= self.pages());
        }
        out
    }
}


/// Whether a record with `payload` bytes of payload can be written from
/// page `id` on into an image of `len` bytes: its last page lies inside the
/// image, and the number of pages behind the first fits the header.
pub open spec fn record_fits(len: nat, id: int, payload: nat) -> bool {
    &&& pages_for(payload) - 1 <= u32::MAX
    &&& in_bounds(len, id)
    &&& in_bounds(len, id + pages_for(payload) - 1)
}

/// `pages_for` counts the pages that hold the payload.
pub proof fn lemma_pages_for(len: nat)
    ensures
        pages_for(len) >= 1,
        len <= pages_for(len) * PAGE_DATA_SIZE,
        len > 0 ==> (pages_for(len) - 1) * PAGE_DATA_SIZE < len,
        padded(Seq::new(len, |i: int| 0u8)).len() == pages_for(len) * PAGE_DATA_SIZE,
{
    assert(len == 4080 * (len / 4080) + len % 4080);
}

/// The first `k` pages of a record take `k` whole pages.
pub proof fn lemma_record_image_len(id: int, flags: u16, count: u16, payload: Seq<u8>, k: nat)
    requires
        k <= pages_for(payload.len()),
    ensures
        record_image(id, flags, count, payload, k).len() == k * OS_PAGE_SIZE,
        forall|j: int|
            0 <= j < k ==> (#[trigger] record_page(id, flags, count, payload, j)).len()
                == OS_PAGE_SIZE,
    decreases k,
{
    if k > 0 {
        lemma_record_image_len(id, flags, count, payload, (k - 1) as nat);
        lemma_record_page_len(id, flags, count, payload, k - 1);
    }
}

/// A page of a record is a whole page.
pub proof fn lemma_record_page_len(id: int, flags: u16, count: u16, payload: Seq<u8>, k: int)
    requires
        0 <= k < pages_for(payload.len()),
    ensures
        record_page(id, flags, count, payload, k).len() == OS_PAGE_SIZE,
{
    lemma_pages_for(payload.len());
    record_header(id, flags, count, pages_for(payload.len()) as int, k).lemma_bytes_len();
}

/// Page `k` of the image of a record is page `k` of the record.
pub proof fn lemma_record_image_page(
    id: int,
    flags: u16,
    count: u16,
    payload: Seq<u8>,
    n: nat,
    k: int,
)
    requires
        0 <= k < n <= pages_for(payload.len()),
    ensures
        record_image(id, flags, count, payload, n).subrange(
            k * OS_PAGE_SIZE,
            (k + 1) * OS_PAGE_SIZE,
        ) == record_page(id, flags, count, payload, k),
    decreases n,
{
    let image = record_image(id, flags, count, payload, n);
    let head = record_image(id, flags, count, payload, (n - 1) as nat);
    let last = record_page(id, flags, count, payload, n - 1);
    lemma_record_image_len(id, flags, count, payload, (n - 1) as nat);
    lemma_record_page_len(id, flags, count, payload, n - 1);
    if k == n - 1 {
        assert(image.subrange(k * OS_PAGE_SIZE, (k + 1) * OS_PAGE_SIZE) =~= last);
    } else {
        lemma_record_image_page(id, flags, count, payload, (n - 1) as nat, k);
        assert(image.subrange(k * OS_PAGE_SIZE, (k + 1) * OS_PAGE_SIZE) =~= head.subrange(
            k * OS_PAGE_SIZE,
            (k + 1) * OS_PAGE_SIZE,
        ));
    }
}

/// A record that has been written is found again: the walk along it
/// succeeds and counts its pages, its first header is the one that was
/// written, and its data is the payload, filled up with zeros to whole
/// pages.
pub proof fn lemma_record_roundtrip(
    before: Seq<u8>,
    id: int,
    flags: u16,
    count: u16,
    payload: Seq<u8>,
)
    requires
        before.len() <= usize::MAX,
        record_fits(before.len(), id, payload.len()),
        flags != PAGE_OVERFLOW,
    ensures
        ({
            let pages = pages_for(payload.len());
            let data = overwrite(
                before,
                id * OS_PAGE_SIZE,
                record_image(id, flags, count, payload, pages),
            );
            &&& data.len() == before.len()
            &&& record_check(data, id) == Ok::<nat, Error>(pages)
            &&& PageHeader::of_bytes(page_bytes(data, id)) == record_header(
                id,
                flags,
                count,
                pages as int,
                0,
            )
            &&& payload_of(record_pages(data, id, pages)) == padded(payload)
        }),
{
    let pages = pages_for(payload.len());
    let image = record_image(id, flags, count, payload, pages);
    let data = overwrite(before, id * OS_PAGE_SIZE, image);
    lemma_pages_for(payload.len());
    lemma_record_image_len(id, flags, count, payload, pages);
    assert(OS_PAGE_SIZE == 4096 && PAGE_DATA_SIZE == 4080);
    assert(in_bounds(before.len(), id + pages - 1));
    assert((id + pages - 1 + 1) * 4096 <= before.len());
    assert(image.len() == pages * 4096);
    assert(id * 4096 + image.len() <= before.len());
    assert(data.len() == before.len());
    assert forall|k: int| 0 <= k < pages implies #[trigger] page_bytes(data, id + k)
        == record_page(id, flags, count, payload, k) && PageHeader::of_bytes(
        page_bytes(data, id + k),
    ) == record_header(id, flags, count, pages as int, k) by {
        lemma_record_image_page(id, flags, count, payload, pages, k);
        assert(page_bytes(data, id + k) =~= image.subrange(
            k * OS_PAGE_SIZE,
            (k + 1) * OS_PAGE_SIZE,
        ));
        record_header(id, flags, count, pages as int, k).lemma_of_bytes(
            padded(payload).subrange(k * PAGE_DATA_SIZE, (k + 1) * PAGE_DATA_SIZE),
        );
    }
    lemma_chain_of_record(data, id, flags, count, pages as int, 1);
    assert(page_bytes(data, id + 0) == page_bytes(data, id));
    lemma_payload_of_record(data, id, flags, count, payload, pages);
    assert(padded(payload).subrange(0, pages * PAGE_DATA_SIZE) =~= padded(payload));
}

/// Where every page of a record carries the header written for it, the walk
/// along the record succeeds.
proof fn lemma_chain_of_record(data: Seq<u8>, id: int, flags: u16, count: u16, pages: int, k: int)
    requires
        1 <= k <= pages,
        pages - 1 <= u32::MAX,
        in_bounds(data.len(), id),
        in_bounds(data.len(), id + pages - 1),
        forall|j: int|
            0 <= j < pages ==> PageHeader::of_bytes(#[trigger] page_bytes(data, id + j))
                == record_header(id, flags, count, pages, j),
    ensures
        chain_check(data, id, pages - 1, k) == Ok::<(), Error>(()),
    decreases pages - k,
{
    if k < pages {
        lemma_chain_of_record(data, id, flags, count, pages, k + 1);
        assert(PageHeader::of_bytes(page_bytes(data, id + k)) == record_header(
            id,
            flags,
            count,
            pages,
            k,
        ));
        assert(in_bounds(data.len(), id + k)) by {
            assert((id + k + 1) * 4096 <= (id + pages) * 4096);
        }
    }
}

/// The data of the first `m` pages of a written record is the start of its
/// padded payload.
proof fn lemma_payload_of_record(
    data: Seq<u8>,
    id: int,
    flags: u16,
    count: u16,
    payload: Seq<u8>,
    m: nat,
)
    requires
        m <= pages_for(payload.len()),
        forall|j: int|
            0 <= j < pages_for(payload.len()) ==> #[trigger] page_bytes(data, id + j)
                == record_page(id, flags, count, payload, j),
    ensures
        payload_of(record_pages(data, id, m)) == padded(payload).subrange(
            0,
            m * PAGE_DATA_SIZE,
        ),
    decreases m,
{
    lemma_pages_for(payload.len());
    if m == 0 {
        assert(padded(payload).subrange(0, 0) =~= Seq::<u8>::empty());
    } else {
        lemma_payload_of_record(data, id, flags, count, payload, (m - 1) as nat);
        let pages = record_pages(data, id, m);
        assert(pages.drop_last() =~= record_pages(data, id, (m - 1) as nat));
        assert(pages.last() == page_bytes(data, id + (m - 1)));
        let header = record_header(
            id,
            flags,
            count,
            pages_for(payload.len()) as int,
            m - 1,
        );
        header.lemma_bytes_len();
        let chunk = padded(payload).subrange((m - 1) * PAGE_DATA_SIZE, m * PAGE_DATA_SIZE);
        assert(pages.last().skip(PAGE_HEADER_SIZE as int) =~= chunk);
        assert(padded(payload).subrange(0, (m - 1) * PAGE_DATA_SIZE) + chunk =~= padded(
            payload,
        ).subrange(0, m * PAGE_DATA_SIZE));
    }
}

/// Share `k` of the padded payload is what the payload has from there on,
/// one page at most, filled up with zeros.
proof fn lemma_chunk(payload: Seq<u8>, k: int, end: int)
    requires
        0 <= k < pages_for(payload.len()),
        end == if payload.len() - k * PAGE_DATA_SIZE > PAGE_DATA_SIZE {
            (k + 1) * PAGE_DATA_SIZE
        } else {
            payload.len() as int
        },
    ensures
        k * PAGE_DATA_SIZE <= end <= payload.len(),
        end - k * PAGE_DATA_SIZE <= PAGE_DATA_SIZE,
        padded(payload).subrange(k * PAGE_DATA_SIZE, (k + 1) * PAGE_DATA_SIZE)
            == payload.subrange(k * PAGE_DATA_SIZE, end) + zeros(
            (PAGE_DATA_SIZE - (end - k * PAGE_DATA_SIZE)) as nat,
        ),
{
    lemma_pages_for(payload.len());
    assert(padded(payload).subrange(k * PAGE_DATA_SIZE, (k + 1) * PAGE_DATA_SIZE)
        =~= payload.subrange(k * PAGE_DATA_SIZE, end) + zeros(
        (PAGE_DATA_SIZE - (end - k * PAGE_DATA_SIZE)) as nat,
    ));
}

/// Writing `x` and then `y` right behind it is writing `x + y`.
pub proof fn lemma_overwrite_append(s: Seq<u8>, at: int, x: Seq<u8>, y: Seq<u8>)
    requires
        0 <= at,
        at + x.len() + y.len() <= s.len(),
    ensures
        overwrite(overwrite(s, at, x), at + x.len(), y) == overwrite(s, at, x + y),
{
    assert(overwrite(overwrite(s, at, x), at + x.len(), y) =~= overwrite(s, at, x + y));
}

impl PageArray {
    /// Writes a record from page `id` on: `payload` cut into pages, each
    /// behind a header of its own. The first header carries `kind` and
    /// `count`; the last page is filled up with zeros. Returns the number of
    /// pages behind the first. Fails with `PageOutOfBounds`, and changes
    /// nothing, when the record does not lie inside the image.
    pub fn write_record(&mut self, id: PageId, kind: PageKind, count: u16, payload: &[u8]) -> (r:
        Result<u32, Error>)
        ensures
            record_fits(old(self)@.len(), id as int, payload@.len()) ==> r == Ok::<u32, Error>(
                (pages_for(payload@.len()) - 1) as u32,
            ) && final(self)@ == overwrite(
                old(self)@,
                id * OS_PAGE_SIZE,
                record_image(
                    id as int,
                    PageFlags::spec_of(kind).bits,
                    count,
                    payload@,
                    pages_for(payload@.len()),
                ),
            ),
            !record_fits(old(self)@.len(), id as int, payload@.len()) ==> r == Err::<u32, Error>(
                Error::PageOutOfBounds,
            ) && final(self)@ == old(self)@,
    {
        let len = payload.len();
        let pages: usize = if len == 0 {
            1
        } else if len % PAGE_DATA_SIZE == 0 {
            len / PAGE_DATA_SIZE
        } else {
            len / PAGE_DATA_SIZE + 1
        };
        let total = self.page_count();
        if pages - 1 > u32::MAX as usize || id >= total || (pages - 1) as u64 >= total - id {
            return Err(Error::PageOutOfBounds);
        }
        let image_len = self.data.len();
        let flags = PageFlags::of(kind).bits;
        let ghost before = self.data@;
        let ghost at = id * 4096;
        proof {
            lemma_pages_for(len as nat);
            assert(overwrite(before, at, Seq::<u8>::empty()) =~= before);
            assert(total * 4096 <= before.len());
        }
        let mut k: usize = 0;
        while k < pages
            invariant
                k <= pages,
                pages == pages_for(payload@.len()),
                len == payload@.len(),
                pages - 1 <= u32::MAX,
                id + pages <= total,
                total * 4096 <= before.len(),
                self.data@.len() == before.len(),
                before.len() == image_len,
                at == id * 4096,
                flags == PageFlags::spec_of(kind).bits,
                self.data@ == overwrite(
                    before,
                    at,
                    record_image(id as int, flags, count, payload@, k as nat),
                ),
            decreases pages - k,
        {
            let header = PageHeader {
                id: id + k as u64,
                flags: if k == 0 {
                    flags
                } else {
                    PAGE_OVERFLOW
                },
                count: if k == 0 {
                    count
                } else {
                    0
                },
                overflow: (pages - 1 - k) as u32,
            };
            let ghost sofar = record_image(id as int, flags, count, payload@, k as nat);
            proof {
                lemma_pages_for(len as nat);
                lemma_record_image_len(id as int, flags, count, payload@, k as nat);
                lemma_record_page_len(id as int, flags, count, payload@, k as int);
                assert((id + k + 1) * 4096 <= total * 4096);
                assert(sofar.len() == k * 4096);
                assert(at + sofar.len() == (id + k) * 4096);
            }
            let start = k * PAGE_DATA_SIZE;
            let end = if len - start > PAGE_DATA_SIZE {
                start + PAGE_DATA_SIZE
            } else {
                len
            };
            proof {
                lemma_chunk(payload@, k as int, end as int);
            }
            let mut page = header.to_bytes();
            append_bytes(&mut page, slice_subrange(payload, start, end));
            append_zeros(&mut page, PAGE_DATA_SIZE - (end - start));
            proof {
                assert(header == record_header(id as int, flags, count, pages as int, k as int));
                assert(page@ == record_page(id as int, flags, count, payload@, k as int));
                lemma_overwrite_append(before, at, sofar, page@);
            }
            copy_into(&mut self.data, (id as usize + k) * OS_PAGE_SIZE, page.as_slice());
            k += 1;
        }
        Ok((pages - 1) as u32)
    }
}


/// What `read_record` finds at page `id` of image `data`: the header of the
/// record that starts there and the data of the record, or why there is no
/// record.
pub open spec fn record_data(data: Seq<u8>, id: int) -> Result<(PageHeader, Seq<u8>), Error> {
    match record_check(data, id) {
        Ok(pages) => Ok(
            (PageHeader::of_bytes(page_bytes(data, id)), payload_of(record_pages(data, id, pages))),
        ),
        Err(e) => Err(e),
    }
}

/// Whether images `a` and `b` hold the same bytes in the `n` pages from page
/// `id` on.
pub open spec fn same_pages(a: Seq<u8>, b: Seq<u8>, id: int, n: int) -> bool {
    forall|k: int| 0 <= k < n ==> #[trigger] page_bytes(a, id + k) == page_bytes(b, id + k)
}

/// What is found at a page depends only on the pages of the record that
/// starts there: an image that agrees on them with an image in which the
/// record is found, and is no shorter, gives the same record.
pub proof fn lemma_record_data_frame(a: Seq<u8>, b: Seq<u8>, id: int)
    requires
        a.len() <= b.len(),
        record_check(a, id) is Ok,
        same_pages(a, b, id, record_check(a, id)->Ok_0 as int),
    ensures
        record_data(b, id) == record_data(a, id),
{
    let first = PageHeader::of_bytes(page_bytes(a, id));
    let n = first.overflow as int;
    assert(page_bytes(a, id + 0) == page_bytes(b, id + 0));
    lemma_chain_frame(a, b, id, n, 1);
    let pages = (n + 1) as nat;
    assert(record_pages(a, id, pages) =~= record_pages(b, id, pages));
}

/// The walk along a record depends only on the pages of the record.
proof fn lemma_chain_frame(a: Seq<u8>, b: Seq<u8>, id: int, n: int, k: int)
    requires
        a.len() <= b.len(),
        1 <= k,
        0 <= n,
        same_pages(a, b, id, n + 1),
        chain_check(a, id, n, k) is Ok,
    ensures
        chain_check(b, id, n, k) == chain_check(a, id, n, k),
    decreases n + 1 - k,
{
    if k <= n {
        assert(page_bytes(a, id + k) == page_bytes(b, id + k));
        lemma_chain_frame(a, b, id, n, k + 1);
    }
}

/// Writing bytes somewhere leaves every page alone that lies wholly in
/// front of them or behind them.
pub proof fn lemma_overwrite_keeps_pages(data: Seq<u8>, at: int, w: Seq<u8>, id: int)
    requires
        0 <= at,
        at + w.len() <= data.len(),
        0 <= id,
        (id + 1) * OS_PAGE_SIZE <= at || at + w.len() <= id * OS_PAGE_SIZE,
        (id + 1) * OS_PAGE_SIZE <= data.len(),
    ensures
        page_bytes(overwrite(data, at, w), id) == page_bytes(data, id),
{
    assert(page_bytes(overwrite(data, at, w), id) =~= page_bytes(data, id));
}

impl PageArray {
    /// Reads the record that starts at page `id`: its first header and its
    /// data. Fails as `PageIndex::new` does, and with `PageOutOfBounds` when
    /// page `id` itself lies outside the image.
    pub fn read_record(&self, id: PageId) -> (r: Result<(PageHeader, Vec<u8>), Error>)
        ensures
            match r {
                Ok(found) => record_data(self@, id as int) == Ok::<(PageHeader, Seq<u8>), Error>(
                    (found.0, found.1@),
                ),
                Err(e) => record_data(self@, id as int) == Err::<(PageHeader, Seq<u8>), Error>(e),
            },
    {
        let first = match self.get_page_info(id) {
            Ok(info) => info,
            Err(e) => {
                return Err(e);
            },
        };
        let header = first.header();
        match PageIndex::new(first, self) {
            Ok(index) => Ok((header, index.payload())),
            Err(e) => Err(e),
        }
    }
}


/// A record that waits to be written: where it starts, what its first
/// header says, and its data.
#[derive(Debug)]
pub struct Record {
    /// The page where the record starts.
    pub id: PageId,
    /// What the record holds.
    pub kind: PageKind,
    /// The number of elements in the record.
    pub count: u16,
    /// The data of the record.
    pub payload: Vec<u8>,
}

impl Record {
    /// The number of pages that the record takes.
    pub open spec fn pages(&self) -> nat {
        pages_for(self.payload@.len())
    }

    /// The flags of the first header of the record.
    pub open spec fn flags(&self) -> u16 {
        PageFlags::spec_of(self.kind).bits
    }

    /// Whether page `q` is one of the pages of the record.
    pub open spec fn covers(&self, q: int) -> bool {
        self.id <= q < self.id + self.pages()
    }

    /// Whether the record lies in image `data` as it would be written.
    pub open spec fn lies_in(&self, data: Seq<u8>) -> bool {
        &&& in_bounds(data.len(), self.id + self.pages() - 1)
        &&& forall|m: int|
            0 <= m < self.pages() ==> #[trigger] page_bytes(data, self.id + m) == record_page(
                self.id as int,
                self.flags(),
                self.count,
                self.payload@,
                m,
            )
    }

    /// Whether the record can be written: it is not marked as a
    /// continuation, and the number of its pages fits a header.
    pub open spec fn writable(&self) -> bool {
        &&& self.kind != PageKind::Overflow
        &&& self.pages() - 1 <= u32::MAX
    }
}

/// A record that lies in an image as it would be written is found there:
/// the walk along it succeeds, its first header is the one that was
/// written, and its data is the payload, filled up with zeros to whole
/// pages.
pub proof fn lemma_record_found(data: Seq<u8>, r: Record)
    requires
        data.len() <= usize::MAX,
        r.writable(),
        r.lies_in(data),
    ensures
        record_data(data, r.id as int) == Ok::<(PageHeader, Seq<u8>), Error>(
            (
                record_header(r.id as int, r.flags(), r.count, r.pages() as int, 0),
                padded(r.payload@),
            ),
        ),
{
    let id = r.id as int;
    let pages = r.pages();
    lemma_pages_for(r.payload@.len());
    assert(OS_PAGE_SIZE == 4096 && PAGE_DATA_SIZE == 4080);
    assert((id + 1) * 4096 <= (id + pages) * 4096);
    assert forall|k: int| 0 <= k < pages implies PageHeader::of_bytes(
        #[trigger] page_bytes(data, id + k),
    ) == record_header(id, r.flags(), r.count, pages as int, k) by {
        record_header(id, r.flags(), r.count, pages as int, k).lemma_of_bytes(
            padded(r.payload@).subrange(k * PAGE_DATA_SIZE, (k + 1) * PAGE_DATA_SIZE),
        );
    }
    lemma_chain_of_record(data, id, r.flags(), r.count, pages as int, 1);
    assert(page_bytes(data, id + 0) == page_bytes(data, id));
    lemma_payload_of_record(data, id, r.flags(), r.count, r.payload@, pages);
    assert(padded(r.payload@).subrange(0, pages * PAGE_DATA_SIZE) =~= padded(r.payload@));
}

/// Writing a record puts each of its pages into the image.
proof fn lemma_record_pages_written(before: Seq<u8>, r: Record, m: int)
    requires
        before.len() <= usize::MAX,
        record_fits(before.len(), r.id as int, r.payload@.len()),
        0 <= m < r.pages(),
    ensures
        page_bytes(
            overwrite(
                before,
                r.id * OS_PAGE_SIZE,
                record_image(r.id as int, r.flags(), r.count, r.payload@, r.pages()),
            ),
            r.id + m,
        ) == record_page(r.id as int, r.flags(), r.count, r.payload@, m),
{
    let id = r.id as int;
    let pages = r.pages();
    let image = record_image(id, r.flags(), r.count, r.payload@, pages);
    let after = overwrite(before, id * OS_PAGE_SIZE, image);
    lemma_pages_for(r.payload@.len());
    lemma_record_image_len(id, r.flags(), r.count, r.payload@, pages);
    assert(OS_PAGE_SIZE == 4096 && PAGE_DATA_SIZE == 4080);
    assert((id + pages - 1 + 1) * 4096 <= before.len());
    assert(image.len() == pages * 4096);
    lemma_record_image_page(id, r.flags(), r.count, r.payload@, pages, m);
    assert(page_bytes(after, id + m) =~= image.subrange(m * OS_PAGE_SIZE, (m + 1) * OS_PAGE_SIZE));
}

/// Writing a record leaves every page alone that is not one of its pages.
proof fn lemma_record_spares_pages(before: Seq<u8>, r: Record, q: int)
    requires
        before.len() <= usize::MAX,
        record_fits(before.len(), r.id as int, r.payload@.len()),
        0 <= q,
        in_bounds(before.len(), q),
        !r.covers(q),
    ensures
        page_bytes(
            overwrite(
                before,
                r.id * OS_PAGE_SIZE,
                record_image(r.id as int, r.flags(), r.count, r.payload@, r.pages()),
            ),
            q,
        ) == page_bytes(before, q),
{
    let id = r.id as int;
    let pages = r.pages();
    let image = record_image(id, r.flags(), r.count, r.payload@, pages);
    lemma_pages_for(r.payload@.len());
    lemma_record_image_len(id, r.flags(), r.count, r.payload@, pages);
    assert(OS_PAGE_SIZE == 4096 && PAGE_DATA_SIZE == 4080);
    assert((id + pages - 1 + 1) * 4096 <= before.len());
    assert(image.len() == pages * 4096);
    if q < id {
        assert((q + 1) * 4096 <= id * 4096);
    } else {
        assert((id + pages) * 4096 <= q * 4096);
    }
    lemma_overwrite_keeps_pages(before, id * OS_PAGE_SIZE, image, q);
}

/// Writing a record puts it into the image, and leaves every page alone
/// that is not one of its pages.
pub proof fn lemma_record_written(before: Seq<u8>, r: Record)
    requires
        before.len() <= usize::MAX,
        record_fits(before.len(), r.id as int, r.payload@.len()),
    ensures
        ({
            let after = overwrite(
                before,
                r.id * OS_PAGE_SIZE,
                record_image(r.id as int, r.flags(), r.count, r.payload@, r.pages()),
            );
            &&& after.len() == before.len()
            &&& r.lies_in(after)
            &&& forall|q: int|
                0 <= q && in_bounds(before.len(), q) && !r.covers(q) ==> #[trigger] page_bytes(
                    after,
                    q,
                ) == page_bytes(before, q)
        }),
{
    let id = r.id as int;
    let pages = r.pages();
    let image = record_image(id, r.flags(), r.count, r.payload@, pages);
    let after = overwrite(before, id * OS_PAGE_SIZE, image);
    lemma_pages_for(r.payload@.len());
    lemma_record_image_len(id, r.flags(), r.count, r.payload@, pages);
    assert(OS_PAGE_SIZE == 4096 && PAGE_DATA_SIZE == 4080);
    assert((id + pages - 1 + 1) * 4096 <= before.len());
    assert(image.len() == pages * 4096);
    assert(after.len() == before.len());
    assert forall|m: int| 0 <= m < pages implies #[trigger] page_bytes(after, id + m)
        == record_page(id, r.flags(), r.count, r.payload@, m) by {
        lemma_record_pages_written(before, r, m);
    }
    assert forall|q: int|
        0 <= q && in_bounds(before.len(), q) && !r.covers(q) implies #[trigger] page_bytes(
        after,
        q,
    ) == page_bytes(before, q) by {
        lemma_record_spares_pages(before, r, q);
    }
}

/// Whether no two of the records `s` share a page.
pub open spec fn records_apart(s: Seq<Record>) -> bool {
    forall|i: int, j: int|
        0 <= i < j < s.len() ==> (#[trigger] s[i]).id + s[i].pages() <= (#[trigger] s[j]).id
            || s[j].id + s[j].pages() <= s[i].id
}

/// Whether each of the records `s` can be written into an image of `len`
/// bytes and spares the meta pages.
pub open spec fn records_fit(s: Seq<Record>, len: nat) -> bool {
    forall|i: int|
        0 <= i < s.len() ==> (#[trigger] s[i]).writable() && s[i].id >= 2 && record_fits(
            len,
            s[i].id as int,
            s[i].payload@.len(),
        )
}

/// Whether page `q` is one of the pages of one of the records `s`.
pub open spec fn records_cover(s: Seq<Record>, q: int) -> bool {
    exists|i: int| 0 <= i < s.len() && (#[trigger] s[i]).covers(q)
}

impl PageArray {
    /// Writes the records `records`, which share no page, into the image.
    /// Afterwards each of them lies in the image, and every page that is
    /// not a page of one of them is as it was.
    pub fn flush(&mut self, records: &Vec<Record>)
        requires
            records_apart(records@),
            records_fit(records@, old(self)@.len()),
        ensures
            final(self)@.len() == old(self)@.len(),
            forall|i: int| 0 <= i < records@.len() ==> (#[trigger] records@[i]).lies_in(final(self)@),
            forall|q: int|
                0 <= q && in_bounds(old(self)@.len(), q) && !records_cover(records@, q)
                    ==> #[trigger] page_bytes(final(self)@, q) == page_bytes(old(self)@, q),
    {
        let ghost start = self@;
        let mut k: usize = 0;
        while k < records.len()
            invariant
                k <= records@.len(),
                self@.len() == start.len(),
                records_apart(records@),
                records_fit(records@, start.len()),
                forall|i: int| 0 <= i < k ==> (#[trigger] records@[i]).lies_in(self@),
                forall|q: int|
                    0 <= q && in_bounds(start.len(), q) && !records_cover(
                        records@.subrange(0, k as int),
                        q,
                    ) ==> #[trigger] page_bytes(self@, q) == page_bytes(start, q),
            decreases records@.len() - k,
        {
            let record = &records[k];
            let ghost before = self@;
            let size = self.len();
            proof {
                assert(records@[k as int].writable());
                lemma_record_written(before, *record);
            }
            let written = self.write_record(
                record.id,
                record.kind,
                record.count,
                record.payload.as_slice(),
            );
            proof {
                let now = self@;
                assert forall|i: int| 0 <= i < k + 1 implies (#[trigger] records@[i]).lies_in(
                    now,
                ) by {
                    if i < k {
                        let other = records@[i];
                        assert(other.lies_in(before));
                        assert(other.id + other.pages() <= record.id || record.id + record.pages()
                            <= other.id);
                        lemma_pages_for(other.payload@.len());
                        assert forall|m: int| 0 <= m < other.pages() implies #[trigger] page_bytes(
                            now,
                            other.id + m,
                        ) == record_page(
                            other.id as int,
                            other.flags(),
                            other.count,
                            other.payload@,
                            m,
                        ) by {
                            assert(!record.covers(other.id + m));
                            assert(in_bounds(before.len(), other.id + m)) by {
                                assert((other.id + m + 1) * 4096 <= (other.id + other.pages()) * 4096);
                            }
                            assert(page_bytes(now, other.id + m) == page_bytes(
                                before,
                                other.id + m,
                            ));
                        }
                    }
                }
                assert forall|q: int|
                    0 <= q && in_bounds(start.len(), q) && !records_cover(
                        records@.subrange(0, k + 1),
                        q,
                    ) implies #[trigger] page_bytes(now, q) == page_bytes(start, q) by {
                    if record.covers(q) {
                        assert(records@.subrange(0, k + 1)[k as int].covers(q));
                    }
                    if records_cover(records@.subrange(0, k as int), q) {
                        let i = choose|i: int|
                            0 <= i < k && (#[trigger] records@.subrange(0, k as int)[i]).covers(q);
                        assert(records@.subrange(0, k + 1)[i].covers(q));
                    }
                    assert(page_bytes(now, q) == page_bytes(before, q));
                }
            }
            k += 1;
        }
        proof {
            assert(records@.subrange(0, k as int) =~= records@);
        }
    }
}


/// The number of pages that a record with `len` bytes of payload takes.
pub fn page_count_for(len: usize) -> (n: u64)
    ensures
        n == pages_for(len as nat),
        n >= 1,
        n <= len / PAGE_DATA_SIZE + 1,
{
    if len == 0 {
        1
    } else if len % PAGE_DATA_SIZE == 0 {
        (len / PAGE_DATA_SIZE) as u64
    } else {
        (len / PAGE_DATA_SIZE) as u64 + 1
    }
}


/// Whether images `a` and `b` are of the same length and hold the same in
/// every page but the two meta pages.
pub open spec fn same_but_meta(a: Seq<u8>, b: Seq<u8>) -> bool {
    &&& a.len() == b.len()
    &&& forall|q: int| 2 <= q && in_bounds(a.len(), q) ==> #[trigger] page_bytes(a, q) == page_bytes(
        b,
        q,
    )
}

/// A walk along a record that succeeds stays inside the image.
proof fn lemma_chain_in_bounds(data: Seq<u8>, id: int, n: int, k: int, m: int)
    requires
        1 <= k <= m <= n,
        chain_check(data, id, n, k) is Ok,
    ensures
        in_bounds(data.len(), id + m),
    decreases n + 1 - k,
{
    if k < m {
        lemma_chain_in_bounds(data, id, n, k + 1, m);
    }
}

/// A record that does not start in a meta page is found alike in images
/// that differ in the meta pages only.
pub proof fn lemma_record_data_spared(a: Seq<u8>, b: Seq<u8>, id: int)
    requires
        same_but_meta(a, b),
        id >= 2,
        record_data(a, id) is Ok,
    ensures
        record_data(b, id) == record_data(a, id),
{
    let first = PageHeader::of_bytes(page_bytes(a, id));
    let n = first.overflow as int;
    assert forall|k: int| 0 <= k < n + 1 implies #[trigger] page_bytes(a, id + k) == page_bytes(
        b,
        id + k,
    ) by {
        if k > 0 {
            lemma_chain_in_bounds(a, id, n, 1, k);
        }
    }
    lemma_record_data_frame(a, b, id);
}

/// Whether each of the records `s` can be written, spares the meta pages
/// and ends in front of page `end`.
pub open spec fn records_within(s: Seq<Record>, end: PageId) -> bool {
    forall|i: int|
        0 <= i < s.len() ==> (#[trigger] s[i]).writable() && s[i].id >= 2 && s[i].id + s[i].pages()
            <= end
}

impl PageArray {
    /// Makes the image `end` pages long, if it is shorter, and writes the
    /// records `records` into it, which share no page and end in front of
    /// page `end`. Afterwards each of them lies in the image, and every
    /// page that the image had and that is not a page of one of them is as
    /// it was. Fails with `PageOutOfBounds`, and changes nothing, when so
    /// many pages cannot be addressed.
    pub fn put_records(&mut self, records: &Vec<Record>, end: PageId) -> (r: Result<(), Error>)
        requires
            records_apart(records@),
            records_within(records@, end),
        ensures
            end * OS_PAGE_SIZE > usize::MAX ==> r == Err::<(), Error>(Error::PageOutOfBounds)
                && final(self)@ == old(self)@,
            end * OS_PAGE_SIZE <= usize::MAX ==> {
                &&& r == Ok::<(), Error>(())
                &&& final(self)@.len() >= old(self)@.len()
                &&& final(self)@.len() >= end * OS_PAGE_SIZE
                &&& forall|i: int|
                    0 <= i < records@.len() ==> (#[trigger] records@[i]).lies_in(final(self)@)
                &&& forall|q: int|
                    0 <= q && in_bounds(old(self)@.len(), q) && !records_cover(records@, q)
                        ==> #[trigger] page_bytes(final(self)@, q) == page_bytes(old(self)@, q)
            },
    {
        let ghost before = self@;
        match self.grow(end) {
            Ok(_) => {},
            Err(e) => {
                return Err(e);
            },
        }
        let ghost grown = self@;
        let size = self.len();
        proof {
            assert(OS_PAGE_SIZE == 4096);
            assert(end * 4096 <= grown.len());
            assert forall|i: int| 0 <= i < records@.len() implies (#[trigger] records@[i]).writable()
                && records@[i].id >= 2 && record_fits(
                grown.len(),
                records@[i].id as int,
                records@[i].payload@.len(),
            ) by {
                let r = records@[i];
                lemma_pages_for(r.payload@.len());
                assert((r.id + 1) * 4096 <= end * 4096);
                assert((r.id + r.pages() - 1 + 1) * 4096 <= end * 4096);
            }
            assert forall|q: int| 0 <= q && in_bounds(before.len(), q) implies #[trigger] page_bytes(
                grown,
                q,
            ) == page_bytes(before, q) && in_bounds(grown.len(), q) by {
                assert(page_bytes(grown, q) =~= page_bytes(before, q));
            }
        }
        self.flush(records);
        proof {
            assert forall|q: int|
                0 <= q && in_bounds(before.len(), q) && !records_cover(
                    records@,
                    q,
                ) implies #[trigger] page_bytes(self@, q) == page_bytes(before, q) by {
                assert(page_bytes(grown, q) == page_bytes(before, q));
                assert(in_bounds(grown.len(), q));
            }
        }
        Ok(())
    }
}


/// The pages of a record that is found lie inside the image.
pub proof fn lemma_record_in_bounds(data: Seq<u8>, id: int, k: int)
    requires
        record_check(data, id) is Ok,
        0 <= k < record_check(data, id)->Ok_0,
    ensures
        in_bounds(data.len(), id + k),
{
    if k > 0 {
        let n = PageHeader::of_bytes(page_bytes(data, id)).overflow as int;
        lemma_chain_in_bounds(data, id, n, 1, k);
    }
}

/// The pages of one record: where it starts, and how many follow.
#[derive(Debug, Copy, Clone, PartialEq, Eq, Structural)]
pub struct Run {
    /// The page where the record starts.
    pub id: PageId,
    /// The number of pages behind the first.
    pub overflow: u32,
}

impl Run {
    /// Whether page `q` is one of the pages of the record.
    pub open spec fn covers(self, q: int) -> bool {
        self.id <= q <= self.id + self.overflow
    }
}

/// The number of pages of the first `n` of the records `runs`.
pub open spec fn run_pages(runs: Seq<Run>, n: nat) -> nat
    decreases n,
{
    if n == 0 {
        0
    } else {
        run_pages(runs, (n - 1) as nat) + runs[n - 1].overflow as nat + 1
    }
}

/// Whether page `q` is a page of one of the records `runs`.
pub open spec fn runs_cover(runs: Seq<Run>, q: int) -> bool {
    exists|i: int| 0 <= i < runs.len() && (#[trigger] runs[i]).covers(q)
}

/// The pages of the record that starts at page `id` of image `data`.
pub open spec fn run_of(data: Seq<u8>, id: PageId) -> Run {
    Run { id, overflow: record_data(data, id as int)->Ok_0.0.overflow }
}

} // verus!
