//! The backing volume as a byte store of indefinite growth, with positioned
//! reads and writes. The engine is the only writer; a host program loads the
//! bytes from its medium before mounting and saves them back afterwards.

use crate::error::FsError;
use vstd::prelude::*;

verus! {

/// The volume's bytes after writing `data` at `off`: the write lands in
/// place, a hole between the old end and `off` reads as zero, and the volume
/// grows when the write ends past the old end.
pub open spec fn spec_write(disk: Seq<u8>, off: int, data: Seq<u8>) -> Seq<u8>
    recommends
        0 <= off,
{
    let newlen = if disk.len() >= off + data.len() {
        disk.len() as int
    } else {
        off + data.len()
    };
    Seq::new(
        newlen as nat,
        |i: int|
            if off <= i < off + data.len() {
                data[i - off]
            } else if i < disk.len() {
                disk[i]
            } else {
                0u8
            },
    )
}

/// A byte-addressed volume held in memory.
#[derive(Debug)]
pub struct Storage {
    bytes: Vec<u8>,
}

impl View for Storage {
    type V = Seq<u8>;

    closed spec fn view(&self) -> Seq<u8> {
        self.bytes@
    }
}

impl Storage {
    /// A volume over the given bytes (empty for a fresh volume).
    pub fn new(bytes: Vec<u8>) -> (s: Self)
        ensures
            s@ == bytes@,
    {
        Storage { bytes }
    }

    /// The volume's bytes, for persisting them.
    pub fn as_bytes(&self) -> (r: &Vec<u8>)
        ensures
            r@ == self@,
    {
        &self.bytes
    }

    /// Read exactly `size` bytes starting at `offset`; fails when the region
    /// runs past the end of the volume.
    pub fn read(&self, offset: usize, size: usize) -> (r: Result<Vec<u8>, FsError>)
        ensures
            offset + size <= self@.len() ==> r is Ok && r.unwrap()@ == self@.subrange(
                offset as int,
                offset + size,
            ),
            offset + size > self@.len() ==> r == Err::<Vec<u8>, FsError>(FsError::IoError),
    {
        if offset > self.bytes.len() || size > self.bytes.len() - offset {
            return Err(FsError::IoError);
        }
        let mut out: Vec<u8> = Vec::new();
        let mut k: usize = 0;
        while k < size
            invariant
                k <= size,
                offset + size <= usize::MAX,
                offset + size <= self@.len(),
                out@ == self@.subrange(offset as int, offset + k),
            decreases size - k,
        {
            out.push(self.bytes[offset + k]);
            k = k + 1;
            proof {
                assert(out@ =~= self@.subrange(offset as int, offset + k));
            }
        }
        Ok(out)
    }

    /// Write `data` at `offset`, extending the volume when the write ends
    /// past its current end and zero-filling any hole before `offset`.
    /// Returns the number of bytes written.
    pub fn write(&mut self, offset: usize, data: &[u8]) -> (r: Result<usize, FsError>)
        requires
            offset + data@.len() <= usize::MAX,
        ensures
            r == Ok::<usize, FsError>(data@.len() as usize),
            final(self)@ == spec_write(old(self)@, offset as int, data@),
    {
        let ghost orig = self@;
        while self.bytes.len() < offset
            invariant
                orig.len() <= self@.len(),
                orig.len() >= offset ==> self@.len() == orig.len(),
                orig.len() < offset ==> self@.len() <= offset,
                forall|i: int| 0 <= i < orig.len() ==> self@[i] == orig[i],
                forall|i: int| orig.len() <= i < self@.len() ==> self@[i] == 0u8,
            decreases offset - self.bytes.len(),
        {
            self.bytes.push(0u8);
        }
        let ghost padded = self@;
        assert(padded.len() == if orig.len() >= offset {
            orig.len() as int
        } else {
            offset as int
        });
        let mut j: usize = 0;
        let size = data.len();
        while j < size
            invariant
                j <= size,
                size == data@.len(),
                offset + size <= usize::MAX,
                padded.len() >= offset,
                self@.len() == if padded.len() >= offset + j {
                    padded.len() as int
                } else {
                    offset + j
                },
                forall|i: int|
                    0 <= i < self@.len() ==> self@[i] == (if offset <= i < offset + j {
                        data@[i - offset]
                    } else if i < padded.len() {
                        padded[i]
                    } else {
                        0u8
                    }),
            decreases size - j,
        {
            let pos = offset + j;
            if pos < self.bytes.len() {
                self.bytes.set(pos, data[j]);
            } else {
                self.bytes.push(data[j]);
            }
            j = j + 1;
        }
        proof {
            assert(self@ =~= spec_write(orig, offset as int, data@));
        }
        Ok(size)
    }
}

} // verus!
