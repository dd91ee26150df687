//! A table of 64-bit numbers in a byte image of its own: a header with the
//! stamp and the version of the format, and behind it the numbers, eight
//! bytes each.

use vstd::prelude::*;
use crate::constants::{MAGIC_KEY, MAGIC_KEY_SIZE, VERSION, VERSION_SIZE};
use crate::enc::{
    append_zeros, get_le, le_bytes, le_value, lemma_le_bytes_len, lemma_number_read_back,
    lemma_pow256_values, overwrite, put_le, zeros,
};
use crate::errors::Error;

verus! {

/// The number of bytes that the header of a table takes.
pub const HEADER_SIZE: u64 = MAGIC_KEY_SIZE + VERSION_SIZE;

/// The number of bytes that one entry of a table takes.
pub const ENTRY_SIZE: u64 = 8;

/// Entry `index` of the table with image `data`.
pub open spec fn entry_at(data: Seq<u8>, index: int) -> u64 {
    le_value(data.subrange(HEADER_SIZE + ENTRY_SIZE * index, HEADER_SIZE + ENTRY_SIZE * index + 8)) as u64
}

/// A table of numbers that are reached by their place.
#[derive(Debug)]
pub struct JumpTable {
    data: Vec<u8>,
    version: u32,
    magic: u32,
    length: u64,
}

impl JumpTable {
    /// The image of the table.
    pub closed spec fn image(&self) -> Seq<u8> {
        self.data@
    }

    /// The number of entries that the table has room for.
    pub closed spec fn capacity(&self) -> u64 {
        self.length
    }

    /// The entries of the table.
    pub open spec fn entries(&self) -> Seq<u64> {
        Seq::new(self.capacity() as nat, |i: int| entry_at(self.image(), i))
    }

    /// What holds of every table: its image is as long as header and
    /// entries take, and starts with the stamp and the version.
    pub closed spec fn wf(&self) -> bool {
        &&& self.data@.len() == HEADER_SIZE + ENTRY_SIZE * self.length
        &&& self.magic == MAGIC_KEY
        &&& self.version == VERSION
        &&& le_value(self.data@.subrange(0, 4)) == MAGIC_KEY
        &&& le_value(self.data@.subrange(MAGIC_KEY_SIZE as int, MAGIC_KEY_SIZE + 4)) == VERSION
    }

    /// The number of bytes that a table with room for `capacity` entries
    /// takes, or `None` when no image can be that long.
    pub fn calculate_length(capacity: u64) -> (r: Option<u64>)
        ensures
            HEADER_SIZE + ENTRY_SIZE * capacity <= usize::MAX ==> r == Some(
                (HEADER_SIZE + ENTRY_SIZE * capacity) as u64,
            ),
            HEADER_SIZE + ENTRY_SIZE * capacity > usize::MAX ==> r.is_none(),
    {
        if capacity > (usize::MAX as u64 - HEADER_SIZE) / ENTRY_SIZE {
            None
        } else {
            Some(HEADER_SIZE + ENTRY_SIZE * capacity)
        }
    }

    /// Makes a table with room for `capacity` entries of the image `image`
    /// of its file, which is empty for a new table: the image is made as
    /// long as the table has to be, and stamp and version are written. The
    /// entries that the image holds stay, all others are zero. Fails with
    /// `ValueTooLarge` when no image can be as long as the table would have
    /// to be, and with `PageOutOfBounds` when the image is longer than
    /// that, so that entries would be cut off.
    pub fn new(image: Vec<u8>, capacity: u64) -> (r: Result<JumpTable, Error>)
        ensures
            HEADER_SIZE + ENTRY_SIZE * capacity > usize::MAX ==> (r matches Err(e) && e
                == Error::ValueTooLarge),
            HEADER_SIZE + ENTRY_SIZE * capacity <= usize::MAX && image@.len() > HEADER_SIZE
                + ENTRY_SIZE * capacity ==> (r matches Err(e) && e == Error::PageOutOfBounds),
            image@.len() <= HEADER_SIZE + ENTRY_SIZE * capacity <= usize::MAX ==> (r matches Ok(t)
                && t.wf() && t.capacity() == capacity && t.image() == overwrite(
                overwrite(
                    image@ + zeros((HEADER_SIZE + ENTRY_SIZE * capacity - image@.len()) as nat),
                    0,
                    le_bytes(MAGIC_KEY as nat, 4),
                ),
                MAGIC_KEY_SIZE as int,
                le_bytes(VERSION as nat, 4),
            )),
    {
        let length = match JumpTable::calculate_length(capacity) {
            Some(n) => n as usize,
            None => {
                return Err(Error::ValueTooLarge);
            },
        };
        if image.len() > length {
            return Err(Error::PageOutOfBounds);
        }
        let mut data = image;
        let more = length - data.len();
        append_zeros(&mut data, more);
        put_le(&mut data, 0, MAGIC_KEY as u64, 4);
        put_le(&mut data, MAGIC_KEY_SIZE as usize, VERSION as u64, 4);
        proof {
            lemma_pow256_values();
            lemma_le_bytes_len(MAGIC_KEY as nat, 4);
            lemma_le_bytes_len(VERSION as nat, 4);
            lemma_number_read_back(MAGIC_KEY as nat, 4, data@, 0);
            lemma_number_read_back(VERSION as nat, 4, data@, MAGIC_KEY_SIZE as int);
        }
        Ok(JumpTable { data, version: VERSION, magic: MAGIC_KEY, length: capacity })
    }

    /// The image of the table.
    pub fn as_bytes(&self) -> (image: &[u8])
        ensures
            image@ == self.image(),
    {
        self.data.as_slice()
    }

    /// The number of entries that the table has room for.
    pub fn len(&self) -> (n: u64)
        ensures
            n == self.capacity(),
    {
        self.length
    }

    /// Makes room for `capacity` entries, if the table has room for fewer:
    /// the entries it has stay, the new ones are zero. Fails with
    /// `ValueTooLarge`, and changes nothing, when no image can be as long as
    /// the table would have to be.
    pub fn expand(&mut self, capacity: u64) -> (r: Result<(), Error>)
        requires
            old(self).wf(),
        ensures
            final(self).wf(),
            HEADER_SIZE + ENTRY_SIZE * capacity > usize::MAX ==> r == Err::<(), Error>(
                Error::ValueTooLarge,
            ) && final(self).image() == old(self).image() && final(self).capacity() == old(
                self,
            ).capacity(),
            HEADER_SIZE + ENTRY_SIZE * capacity <= usize::MAX ==> r == Ok::<(), Error>(())
                && final(self).capacity() == if capacity > old(self).capacity() {
                capacity
            } else {
                old(self).capacity()
            } && final(self).image() == old(self).image() + zeros(
                (ENTRY_SIZE * (final(self).capacity() - old(self).capacity())) as nat,
            ),
    {
        let length = match JumpTable::calculate_length(capacity) {
            Some(n) => n as usize,
            None => {
                return Err(Error::ValueTooLarge);
            },
        };
        let ghost before = self.data@;
        if capacity > self.length {
            let more = length - self.data.len();
            append_zeros(&mut self.data, more);
            self.length = capacity;
            proof {
                assert(self.data@.subrange(0, 4) =~= before.subrange(0, 4));
                assert(self.data@.subrange(MAGIC_KEY_SIZE as int, MAGIC_KEY_SIZE + 4)
                    =~= before.subrange(MAGIC_KEY_SIZE as int, MAGIC_KEY_SIZE + 4));
            }
        } else {
            proof {
                assert(before + zeros(0) =~= before);
            }
        }
        Ok(())
    }

    /// Sets entry `index` to `value`. Fails with `PageOutOfBounds`, and
    /// changes nothing, when the table has no such entry.
    pub fn set(&mut self, index: u64, value: u64) -> (r: Result<(), Error>)
        requires
            old(self).wf(),
        ensures
            final(self).wf(),
            final(self).capacity() == old(self).capacity(),
            index < old(self).capacity() ==> r == Ok::<(), Error>(()) && final(self).entries()
                == old(self).entries().update(index as int, value),
            index >= old(self).capacity() ==> r == Err::<(), Error>(Error::PageOutOfBounds)
                && final(self).image() == old(self).image(),
    {
        if index >= self.length {
            return Err(Error::PageOutOfBounds);
        }
        let ghost before = self.data@;
        let size = self.data.len();
        assert(HEADER_SIZE == 64 && ENTRY_SIZE == 8 && MAGIC_KEY_SIZE == 32);
        assert(size == 64 + 8 * self.length);
        let at = (HEADER_SIZE + ENTRY_SIZE * index) as usize;
        put_le(&mut self.data, at, value, 8);
        proof {
            let after = self.data@;
            lemma_pow256_values();
            lemma_le_bytes_len(value as nat, 8);
            assert(after.subrange(0, 4) =~= before.subrange(0, 4));
            assert(after.subrange(MAGIC_KEY_SIZE as int, MAGIC_KEY_SIZE + 4) =~= before.subrange(
                MAGIC_KEY_SIZE as int,
                MAGIC_KEY_SIZE + 4,
            ));
            lemma_number_read_back(value as nat, 8, after, at as int);
            assert forall|i: int| 0 <= i < self.length implies entry_at(after, i) == old(
                self,
            ).entries().update(index as int, value)[i] by {
                if i != index {
                    assert(after.subrange(HEADER_SIZE + ENTRY_SIZE * i, HEADER_SIZE + ENTRY_SIZE * i + 8)
                        =~= before.subrange(HEADER_SIZE + ENTRY_SIZE * i, HEADER_SIZE + ENTRY_SIZE * i + 8));
                }
            }
            assert(self.entries() =~= old(self).entries().update(index as int, value));
        }
        Ok(())
    }

    /// Entry `index`. Fails with `PageOutOfBounds` when the table has no
    /// such entry.
    pub fn get(&self, index: u64) -> (r: Result<u64, Error>)
        requires
            self.wf(),
        ensures
            index < self.capacity() ==> r == Ok::<u64, Error>(self.entries()[index as int]),
            index >= self.capacity() ==> r == Err::<u64, Error>(Error::PageOutOfBounds),
    {
        if index >= self.length {
            return Err(Error::PageOutOfBounds);
        }
        let size = self.data.len();
        assert(HEADER_SIZE == 64 && ENTRY_SIZE == 8);
        assert(size == 64 + 8 * self.length);
        let at = (HEADER_SIZE + ENTRY_SIZE * index) as usize;
        Ok(get_le(self.data.as_slice(), at, 8))
    }
}

} // verus!
