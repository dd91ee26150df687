//! The layout of a page: its header, its kind, and the element arrays of
//! branch and leaf pages.

use vstd::prelude::*;
use crate::db::PageId;
use crate::enc::{
    get_le, le_bytes, le_value, lemma_le_bytes_len, lemma_le_value_bound,
    lemma_number_read_back, lemma_pow256_values, push_le,
};
use crate::errors::Error;

verus! {

/// The number of bytes that a page header takes.
pub const PAGE_HEADER_SIZE: usize = 16;

/// The number of bytes that one element of a branch page takes.
pub const BRANCH_PAGE_ELEMENT_SIZE: usize = 16;

/// The number of bytes that one element of a leaf page takes.
pub const LEAF_PAGE_ELEMENT_SIZE: usize = 16;

/// One of the two copies of the meta record.
pub const PAGE_META: u16 = 1;

/// An inner node of a tree: keys and the pages of the children.
pub const PAGE_BRANCH: u16 = 2;

/// A leaf of a tree: keys and values.
pub const PAGE_LEAF: u16 = 4;

/// The list of pages that are free for reuse.
pub const PAGE_FREELIST: u16 = 8;

/// A leaf whose values are bucket headers.
pub const PAGE_BUCKET_LEAF: u16 = 16;

/// The continuation of a record that is too large for one page.
pub const PAGE_OVERFLOW: u16 = 32;

/// A page that has been deleted.
pub const PAGE_DELETED: u16 = 64;

/// What a page holds.
#[derive(Debug, Copy, Clone, PartialEq, Eq, Structural)]
pub enum PageKind {
    /// One of the two copies of the meta record.
    Meta,
    /// An inner node of a tree.
    Branch,
    /// A leaf of a tree.
    Leaf,
    /// The list of free pages.
    Freelist,
    /// A leaf whose values are bucket headers.
    BucketLeaf,
    /// The continuation of a record.
    Overflow,
    /// A deleted page.
    Deleted,
}

/// The flags of a page header. A well-formed page has exactly one of them
/// set, which says what the page holds.
#[derive(Debug, Copy, Clone, PartialEq, Eq, Structural)]
pub struct PageFlags {
    /// The flags as they lie in the header.
    pub bits: u16,
}

impl PageFlags {
    /// The flags that mark a page of kind `kind`.
    pub open spec fn spec_of(kind: PageKind) -> PageFlags {
        PageFlags {
            bits: match kind {
                PageKind::Meta => PAGE_META,
                PageKind::Branch => PAGE_BRANCH,
                PageKind::Leaf => PAGE_LEAF,
                PageKind::Freelist => PAGE_FREELIST,
                PageKind::BucketLeaf => PAGE_BUCKET_LEAF,
                PageKind::Overflow => PAGE_OVERFLOW,
                PageKind::Deleted => PAGE_DELETED,
            },
        }
    }

    /// The kind that the flags mark, if they mark exactly one.
    pub open spec fn spec_kind(self) -> Option<PageKind> {
        if self.bits == PAGE_META {
            Some(PageKind::Meta)
        } else if self.bits == PAGE_BRANCH {
            Some(PageKind::Branch)
        } else if self.bits == PAGE_LEAF {
            Some(PageKind::Leaf)
        } else if self.bits == PAGE_FREELIST {
            Some(PageKind::Freelist)
        } else if self.bits == PAGE_BUCKET_LEAF {
            Some(PageKind::BucketLeaf)
        } else if self.bits == PAGE_OVERFLOW {
            Some(PageKind::Overflow)
        } else if self.bits == PAGE_DELETED {
            Some(PageKind::Deleted)
        } else {
            None
        }
    }

    /// The flags that mark a page of kind `kind`.
    pub fn of(kind: PageKind) -> (f: PageFlags)
        ensures
            f == PageFlags::spec_of(kind),
            f.spec_kind() == Some(kind),
    {
        PageFlags {
            bits: match kind {
                PageKind::Meta => PAGE_META,
                PageKind::Branch => PAGE_BRANCH,
                PageKind::Leaf => PAGE_LEAF,
                PageKind::Freelist => PAGE_FREELIST,
                PageKind::BucketLeaf => PAGE_BUCKET_LEAF,
                PageKind::Overflow => PAGE_OVERFLOW,
                PageKind::Deleted => PAGE_DELETED,
            },
        }
    }

    /// The kind that the flags mark, or `None` when they mark none or more
    /// than one.
    pub fn kind(&self) -> (k: Option<PageKind>)
        ensures
            k == self.spec_kind(),
    {
        if self.bits == PAGE_META {
            Some(PageKind::Meta)
        } else if self.bits == PAGE_BRANCH {
            Some(PageKind::Branch)
        } else if self.bits == PAGE_LEAF {
            Some(PageKind::Leaf)
        } else if self.bits == PAGE_FREELIST {
            Some(PageKind::Freelist)
        } else if self.bits == PAGE_BUCKET_LEAF {
            Some(PageKind::BucketLeaf)
        } else if self.bits == PAGE_OVERFLOW {
            Some(PageKind::Overflow)
        } else if self.bits == PAGE_DELETED {
            Some(PageKind::Deleted)
        } else {
            None
        }
    }
}

/// The header that every page but the meta pages starts with.
#[derive(Debug, Copy, Clone, PartialEq, Eq, Structural)]
pub struct PageHeader {
    /// The number of the page.
    pub id: PageId,
    /// What the page holds.
    pub flags: u16,
    /// The number of elements on a branch or leaf page, or of page numbers
    /// on a freelist page.
    pub count: u16,
    /// The number of pages right behind this one that belong to the same
    /// record.
    pub overflow: u32,
}

impl PageHeader {
    /// The header as it lies in the file.
    pub open spec fn bytes(self) -> Seq<u8> {
        le_bytes(self.id as nat, 8) + le_bytes(self.flags as nat, 2) + le_bytes(
            self.count as nat,
            2,
        ) + le_bytes(self.overflow as nat, 4)
    }

    /// The header that the first `PAGE_HEADER_SIZE` bytes of `s` spell.
    pub open spec fn of_bytes(s: Seq<u8>) -> PageHeader {
        PageHeader {
            id: le_value(s.subrange(0, 8)) as u64,
            flags: le_value(s.subrange(8, 10)) as u16,
            count: le_value(s.subrange(10, 12)) as u16,
            overflow: le_value(s.subrange(12, 16)) as u32,
        }
    }

    /// The kind of the page, if the flags mark exactly one.
    pub open spec fn spec_kind(self) -> Option<PageKind> {
        (PageFlags { bits: self.flags }).spec_kind()
    }

    /// The header as it lies in the file.
    pub fn to_bytes(&self) -> (out: Vec<u8>)
        ensures
            out@ == self.bytes(),
            out@.len() == PAGE_HEADER_SIZE,
    {
        let mut out: Vec<u8> = Vec::new();
        push_le(&mut out, self.id, 8);
        push_le(&mut out, self.flags as u64, 2);
        push_le(&mut out, self.count as u64, 2);
        push_le(&mut out, self.overflow as u64, 4);
        proof {
            self.lemma_bytes_len();
        }
        out
    }

    /// Reads a header from the start of `page`. Fails with
    /// `PageOutOfBounds` when `page` is shorter than a header.
    pub fn read(page: &[u8]) -> (r: Result<PageHeader, Error>)
        ensures
            page@.len() >= PAGE_HEADER_SIZE ==> r == Ok::<PageHeader, Error>(
                PageHeader::of_bytes(page@),
            ),
            page@.len() < PAGE_HEADER_SIZE ==> r == Err::<PageHeader, Error>(
                Error::PageOutOfBounds,
            ),
    {
        if page.len() < PAGE_HEADER_SIZE {
            return Err(Error::PageOutOfBounds);
        }
        proof {
            lemma_pow256_values();
            lemma_le_value_bound(page@.subrange(8, 10));
            lemma_le_value_bound(page@.subrange(10, 12));
            lemma_le_value_bound(page@.subrange(12, 16));
        }
        Ok(
            PageHeader {
                id: get_le(page, 0, 8),
                flags: get_le(page, 8, 2) as u16,
                count: get_le(page, 10, 2) as u16,
                overflow: get_le(page, 12, 4) as u32,
            },
        )
    }

    /// The kind of the page, or `None` when the flags mark none or more
    /// than one.
    pub fn kind(&self) -> (k: Option<PageKind>)
        ensures
            k == self.spec_kind(),
    {
        (PageFlags { bits: self.flags }).kind()
    }

    /// A header takes `PAGE_HEADER_SIZE` bytes.
    pub proof fn lemma_bytes_len(self)
        ensures
            self.bytes().len() == PAGE_HEADER_SIZE,
    {
        lemma_le_bytes_len(self.id as nat, 8);
        lemma_le_bytes_len(self.flags as nat, 2);
        lemma_le_bytes_len(self.count as nat, 2);
        lemma_le_bytes_len(self.overflow as nat, 4);
    }

    /// A header read back from its own bytes, whatever follows them, is the
    /// header that was written.
    pub proof fn lemma_of_bytes(self, rest: Seq<u8>)
        ensures
            PageHeader::of_bytes(self.bytes() + rest) == self,
    {
        let s = self.bytes() + rest;
        self.lemma_bytes_len();
        lemma_pow256_values();
        lemma_le_bytes_len(self.id as nat, 8);
        lemma_le_bytes_len(self.flags as nat, 2);
        lemma_le_bytes_len(self.count as nat, 2);
        lemma_le_bytes_len(self.overflow as nat, 4);
        lemma_number_read_back(self.id as nat, 8, s, 0);
        lemma_number_read_back(self.flags as nat, 2, s, 8);
        lemma_number_read_back(self.count as nat, 2, s, 10);
        lemma_number_read_back(self.overflow as nat, 4, s, 12);
    }
}


/// A record as it is looked at: the header of its first page, and its data.
#[derive(Debug)]
pub struct Page<'a> {
    /// The header of the first page of the record.
    pub header: PageHeader,
    /// The data of the record: what lies behind the headers of its pages.
    pub data: &'a [u8],
}

/// One element of a branch page: where a key lies, and the page of the
/// child that holds the keys from this key on.
#[derive(Debug, Copy, Clone, PartialEq, Eq, Structural)]
pub struct BranchPageElement {
    /// Where the key starts in the data of the page.
    pub position: u32,
    /// The length of the key.
    pub key_size: u32,
    /// The page of the child.
    pub page_id: PageId,
}

/// One element of a leaf page: where a key and its value lie.
#[derive(Debug, Copy, Clone, PartialEq, Eq, Structural)]
pub struct LeafPageElement {
    /// Bit 0 is set when the value is the header of a bucket.
    pub flags: u32,
    /// Where the key starts in the data of the page; the value follows it.
    pub position: u32,
    /// The length of the key.
    pub key_size: u32,
    /// The length of the value.
    pub vsize: u32,
}

/// The flag of a leaf element whose value is the header of a bucket.
pub const BUCKET_LEAF_FLAG: u32 = 1;

impl BranchPageElement {
    /// The element as it lies in the file.
    pub open spec fn bytes(self) -> Seq<u8> {
        le_bytes(self.position as nat, 4) + le_bytes(self.key_size as nat, 4) + le_bytes(
            self.page_id as nat,
            8,
        )
    }

    /// The element that the first bytes of `s` spell.
    pub open spec fn of_bytes(s: Seq<u8>) -> BranchPageElement {
        BranchPageElement {
            position: le_value(s.subrange(0, 4)) as u32,
            key_size: le_value(s.subrange(4, 8)) as u32,
            page_id: le_value(s.subrange(8, 16)) as u64,
        }
    }

    /// Element `index` of the data `data` of a branch page.
    pub open spec fn spec_from_page(data: Seq<u8>, index: int) -> BranchPageElement {
        BranchPageElement::of_bytes(data.skip(index * BRANCH_PAGE_ELEMENT_SIZE))
    }

    /// The key that the element points at in data `data`.
    pub open spec fn spec_key(self, data: Seq<u8>) -> Seq<u8> {
        data.subrange(self.position as int, self.position + self.key_size)
    }

    /// Whether the key that the element points at lies inside data of
    /// `len` bytes.
    pub open spec fn fits(self, len: nat) -> bool {
        self.position + self.key_size <= len
    }

    /// The element as it lies in the file.
    pub fn to_bytes(&self) -> (out: Vec<u8>)
        ensures
            out@ == self.bytes(),
            out@.len() == BRANCH_PAGE_ELEMENT_SIZE,
    {
        let mut out: Vec<u8> = Vec::new();
        push_le(&mut out, self.position as u64, 4);
        push_le(&mut out, self.key_size as u64, 4);
        push_le(&mut out, self.page_id, 8);
        proof {
            lemma_le_bytes_len(self.position as nat, 4);
            lemma_le_bytes_len(self.key_size as nat, 4);
            lemma_le_bytes_len(self.page_id as nat, 8);
        }
        out
    }

    /// Reads element `index` of a branch page. Fails with `PageOutOfBounds`
    /// when the element does not lie inside the data of the page.
    pub fn from_page(page: &Page, index: u16) -> (r: Result<BranchPageElement, Error>)
        ensures
            (index + 1) * BRANCH_PAGE_ELEMENT_SIZE <= page.data@.len() ==> r == Ok::<
                BranchPageElement,
                Error,
            >(BranchPageElement::spec_from_page(page.data@, index as int)),
            (index + 1) * BRANCH_PAGE_ELEMENT_SIZE > page.data@.len() ==> r == Err::<
                BranchPageElement,
                Error,
            >(Error::PageOutOfBounds),
    {
        let at = (index as usize) * BRANCH_PAGE_ELEMENT_SIZE;
        if page.data.len() < BRANCH_PAGE_ELEMENT_SIZE || at > page.data.len()
            - BRANCH_PAGE_ELEMENT_SIZE {
            return Err(Error::PageOutOfBounds);
        }
        let ghost rest = page.data@.skip(at as int);
        proof {
            lemma_pow256_values();
            assert(rest.subrange(0, 4) =~= page.data@.subrange(at as int, at + 4));
            assert(rest.subrange(4, 8) =~= page.data@.subrange(at + 4, at + 8));
            assert(rest.subrange(8, 16) =~= page.data@.subrange(at + 8, at + 16));
            lemma_le_value_bound(rest.subrange(0, 4));
            lemma_le_value_bound(rest.subrange(4, 8));
        }
        Ok(
            BranchPageElement {
                position: get_le(page.data, at, 4) as u32,
                key_size: get_le(page.data, at + 4, 4) as u32,
                page_id: get_le(page.data, at + 8, 8),
            },
        )
    }
}

impl BranchPageElement {
    /// An element takes `BRANCH_PAGE_ELEMENT_SIZE` bytes.
    pub proof fn lemma_bytes_len(self)
        ensures
            self.bytes().len() == BRANCH_PAGE_ELEMENT_SIZE,
    {
        lemma_le_bytes_len(self.position as nat, 4);
        lemma_le_bytes_len(self.key_size as nat, 4);
        lemma_le_bytes_len(self.page_id as nat, 8);
    }

    /// An element read back from its own bytes, whatever follows them, is
    /// the element that was written.
    pub proof fn lemma_of_bytes(self, rest: Seq<u8>)
        ensures
            BranchPageElement::of_bytes(self.bytes() + rest) == self,
    {
        let s = self.bytes() + rest;
        self.lemma_bytes_len();
        lemma_pow256_values();
        lemma_le_bytes_len(self.position as nat, 4);
        lemma_le_bytes_len(self.key_size as nat, 4);
        lemma_le_bytes_len(self.page_id as nat, 8);
        lemma_number_read_back(self.position as nat, 4, s, 0);
        lemma_number_read_back(self.key_size as nat, 4, s, 4);
        lemma_number_read_back(self.page_id as nat, 8, s, 8);
    }
}

impl LeafPageElement {
    /// The element as it lies in the file.
    pub open spec fn bytes(self) -> Seq<u8> {
        le_bytes(self.flags as nat, 4) + le_bytes(self.position as nat, 4) + le_bytes(
            self.key_size as nat,
            4,
        ) + le_bytes(self.vsize as nat, 4)
    }

    /// The element that the first bytes of `s` spell.
    pub open spec fn of_bytes(s: Seq<u8>) -> LeafPageElement {
        LeafPageElement {
            flags: le_value(s.subrange(0, 4)) as u32,
            position: le_value(s.subrange(4, 8)) as u32,
            key_size: le_value(s.subrange(8, 12)) as u32,
            vsize: le_value(s.subrange(12, 16)) as u32,
        }
    }

    /// Element `index` of the data `data` of a leaf page.
    pub open spec fn spec_from_page(data: Seq<u8>, index: int) -> LeafPageElement {
        LeafPageElement::of_bytes(data.skip(index * LEAF_PAGE_ELEMENT_SIZE))
    }

    /// The key that the element points at in data `data`.
    pub open spec fn spec_key(self, data: Seq<u8>) -> Seq<u8> {
        data.subrange(self.position as int, self.position + self.key_size)
    }

    /// The value that the element points at in data `data`.
    pub open spec fn spec_value(self, data: Seq<u8>) -> Seq<u8> {
        data.subrange(
            self.position + self.key_size,
            self.position + self.key_size + self.vsize,
        )
    }

    /// Whether the key and the value that the element points at lie inside
    /// data of `len` bytes.
    pub open spec fn fits(self, len: nat) -> bool {
        self.position + self.key_size + self.vsize <= len
    }

    /// The element as it lies in the file.
    pub fn to_bytes(&self) -> (out: Vec<u8>)
        ensures
            out@ == self.bytes(),
            out@.len() == LEAF_PAGE_ELEMENT_SIZE,
    {
        let mut out: Vec<u8> = Vec::new();
        push_le(&mut out, self.flags as u64, 4);
        push_le(&mut out, self.position as u64, 4);
        push_le(&mut out, self.key_size as u64, 4);
        push_le(&mut out, self.vsize as u64, 4);
        proof {
            self.lemma_bytes_len();
        }
        out
    }

    /// Reads element `index` of a leaf page. Fails with `PageOutOfBounds`
    /// when the element does not lie inside the data of the page.
    pub fn from_page(page: &Page, index: u16) -> (r: Result<LeafPageElement, Error>)
        ensures
            (index + 1) * LEAF_PAGE_ELEMENT_SIZE <= page.data@.len() ==> r == Ok::<
                LeafPageElement,
                Error,
            >(LeafPageElement::spec_from_page(page.data@, index as int)),
            (index + 1) * LEAF_PAGE_ELEMENT_SIZE > page.data@.len() ==> r == Err::<
                LeafPageElement,
                Error,
            >(Error::PageOutOfBounds),
    {
        let at = (index as usize) * LEAF_PAGE_ELEMENT_SIZE;
        if page.data.len() < LEAF_PAGE_ELEMENT_SIZE || at > page.data.len()
            - LEAF_PAGE_ELEMENT_SIZE {
            return Err(Error::PageOutOfBounds);
        }
        let ghost rest = page.data@.skip(at as int);
        proof {
            lemma_pow256_values();
            assert(rest.subrange(0, 4) =~= page.data@.subrange(at as int, at + 4));
            assert(rest.subrange(4, 8) =~= page.data@.subrange(at + 4, at + 8));
            assert(rest.subrange(8, 12) =~= page.data@.subrange(at + 8, at + 12));
            assert(rest.subrange(12, 16) =~= page.data@.subrange(at + 12, at + 16));
            lemma_le_value_bound(rest.subrange(0, 4));
            lemma_le_value_bound(rest.subrange(4, 8));
            lemma_le_value_bound(rest.subrange(8, 12));
            lemma_le_value_bound(rest.subrange(12, 16));
        }
        Ok(
            LeafPageElement {
                flags: get_le(page.data, at, 4) as u32,
                position: get_le(page.data, at + 4, 4) as u32,
                key_size: get_le(page.data, at + 8, 4) as u32,
                vsize: get_le(page.data, at + 12, 4) as u32,
            },
        )
    }

    /// An element takes `LEAF_PAGE_ELEMENT_SIZE` bytes.
    pub proof fn lemma_bytes_len(self)
        ensures
            self.bytes().len() == LEAF_PAGE_ELEMENT_SIZE,
    {
        lemma_le_bytes_len(self.flags as nat, 4);
        lemma_le_bytes_len(self.position as nat, 4);
        lemma_le_bytes_len(self.key_size as nat, 4);
        lemma_le_bytes_len(self.vsize as nat, 4);
    }

    /// An element read back from its own bytes, whatever follows them, is
    /// the element that was written.
    pub proof fn lemma_of_bytes(self, rest: Seq<u8>)
        ensures
            LeafPageElement::of_bytes(self.bytes() + rest) == self,
    {
        let s = self.bytes() + rest;
        self.lemma_bytes_len();
        lemma_pow256_values();
        lemma_le_bytes_len(self.flags as nat, 4);
        lemma_le_bytes_len(self.position as nat, 4);
        lemma_le_bytes_len(self.key_size as nat, 4);
        lemma_le_bytes_len(self.vsize as nat, 4);
        lemma_number_read_back(self.flags as nat, 4, s, 0);
        lemma_number_read_back(self.position as nat, 4, s, 4);
        lemma_number_read_back(self.key_size as nat, 4, s, 8);
        lemma_number_read_back(self.vsize as nat, 4, s, 12);
    }
}

} // verus!
