//! The on-volume structures: layout constants, the superblock, the inode, the
//! directory payload, and the two allocation bitmaps with their bit-level
//! specification.
//!
//! Bit ordering inside a bitmap byte is MSB-first: bit index `i` lives in byte
//! `i / 8` under mask `1 << (7 - i % 8)`.

use crate::error::FsError;
use vstd::prelude::*;

verus! {

/// Number of inode slots in a volume.
pub const INODES_COUNT: usize = 1024;

/// Bytes of one encoded inode: 8 for the size, 1 for the kind, 8 per direct pointer.
pub const INODE_SIZE: usize = 8 + 1 + 8 * INODE_LINKS;

/// Bytes of the inode bitmap.
pub const INODES_BITMAP_SIZE: usize = INODES_COUNT / 8;

/// Direct block pointers per inode; no indirect pointers exist.
pub const INODE_LINKS: usize = 12;

/// Number of data blocks in a volume.
pub const BLOCKS_COUNT: usize = 1024;

/// Bytes of one data block, the unit of allocation.
pub const BLOCK_SIZE: usize = 1024;

/// Bytes of the data-block bitmap.
pub const BLOCKS_BITMAP_SIZE: usize = BLOCKS_COUNT / 8;

/// Bytes of the encoded superblock: eight 8-byte fields.
pub const SUPERBLOCK_SIZE: usize = 64;

/// Volume offset of the data-block bitmap.
pub const DATA_BITMAP_OFFSET: usize = SUPERBLOCK_SIZE;

/// Volume offset of the inode bitmap.
pub const INODE_BITMAP_OFFSET: usize = SUPERBLOCK_SIZE + BLOCKS_BITMAP_SIZE;

/// Volume offset of the inode table.
pub const INODE_TABLE_OFFSET: usize = SUPERBLOCK_SIZE + BLOCKS_BITMAP_SIZE + INODES_BITMAP_SIZE;

/// Volume offset of the data-block region.
pub const DATA_BLOCKS_OFFSET: usize = SUPERBLOCK_SIZE + BLOCKS_BITMAP_SIZE + INODES_BITMAP_SIZE
    + INODES_COUNT * INODE_SIZE;

/// True when bit `k` (MSB-first) of byte `b` is set.
pub open spec fn byte_bit(b: u8, k: int) -> bool
    recommends
        0 <= k < 8,
{
    (b >> ((7 - k) as u8)) & 1u8 == 1u8
}

/// True when bit index `i` of the bitmap bytes is set (the unit is allocated).
/// An index past the end of the bytes reads as not taken.
pub open spec fn bit_taken(bytes: Seq<u8>, i: int) -> bool {
    &&& 0 <= i
    &&& i / 8 < bytes.len()
    &&& byte_bit(bytes[i / 8], i % 8)
}

/// The bitmap bytes after writing bit `i` (in range) to `taken`.
pub open spec fn spec_set_bit(bytes: Seq<u8>, i: int, taken: bool) -> Seq<u8>
    recommends
        0 <= i,
        i / 8 < bytes.len(),
{
    let s = (7 - i % 8) as u8;
    let b = bytes[i / 8];
    bytes.update(
        i / 8,
        if taken {
            b | (1u8 << s)
        } else {
            b & !(1u8 << s)
        },
    )
}

/// The smallest free bit index at or after `from`, if any lies within the bit range.
pub open spec fn spec_find_free_from(bytes: Seq<u8>, from: int) -> Option<int>
    recommends
        0 <= from,
    decreases 8 * bytes.len() - from,
{
    if from >= 8 * bytes.len() {
        None
    } else if !bit_taken(bytes, from) {
        Some(from)
    } else {
        spec_find_free_from(bytes, from + 1)
    }
}

proof fn lemma_or_bit(b: u8, s: u8, k: u8)
    by (bit_vector)
    requires
        s < 8,
        k < 8,
    ensures
        k == s ==> ((b | (1u8 << s)) >> k) & 1u8 == 1u8,
        k != s ==> ((b | (1u8 << s)) >> k) & 1u8 == (b >> k) & 1u8,
{
}

proof fn lemma_andnot_bit(b: u8, s: u8, k: u8)
    by (bit_vector)
    requires
        s < 8,
        k < 8,
    ensures
        k == s ==> ((b & !(1u8 << s)) >> k) & 1u8 == 0u8,
        k != s ==> ((b & !(1u8 << s)) >> k) & 1u8 == (b >> k) & 1u8,
{
}

/// Writing bit `i` changes exactly that bit and keeps the byte count.
pub proof fn lemma_spec_set_bit(bytes: Seq<u8>, i: int, taken: bool)
    requires
        0 <= i,
        i / 8 < bytes.len(),
    ensures
        spec_set_bit(bytes, i, taken).len() == bytes.len(),
        forall|j: int|
            #![trigger bit_taken(spec_set_bit(bytes, i, taken), j)]
            bit_taken(spec_set_bit(bytes, i, taken), j) == (if j == i {
                taken
            } else {
                bit_taken(bytes, j)
            }),
{
    let new = spec_set_bit(bytes, i, taken);
    assert forall|j: int|
        bit_taken(new, j) == (if j == i {
            taken
        } else {
            bit_taken(bytes, j)
        }) by {
        if 0 <= j && j / 8 < bytes.len() {
            let s = (7 - i % 8) as u8;
            let k = (7 - j % 8) as u8;
            if j / 8 == i / 8 {
                if taken {
                    lemma_or_bit(bytes[i / 8], s, k);
                } else {
                    lemma_andnot_bit(bytes[i / 8], s, k);
                }
                assert(j % 8 == i % 8 ==> j == i) by {
                    assert(j == 8 * (j / 8) + j % 8);
                    assert(i == 8 * (i / 8) + i % 8);
                }
            } else {
                assert(new[j / 8] == bytes[j / 8]);
            }
        }
    }
}

/// The bitmap bytes after writing every listed bit, in order, to `taken`.
pub open spec fn spec_set_bits_list(bytes: Seq<u8>, l: Seq<int>, taken: bool) -> Seq<u8>
    decreases l.len(),
{
    if l.len() == 0 {
        bytes
    } else {
        spec_set_bit(spec_set_bits_list(bytes, l.drop_last(), taken), l.last(), taken)
    }
}

/// Writing a list of in-range bits keeps the byte count and moves exactly
/// the listed bits.
pub proof fn lemma_set_bits_list_props(bytes: Seq<u8>, l: Seq<int>, taken: bool)
    requires
        forall|k: int| 0 <= k < l.len() ==> 0 <= #[trigger] l[k] && l[k] / 8 < bytes.len(),
    ensures
        spec_set_bits_list(bytes, l, taken).len() == bytes.len(),
        forall|j: int|
            #![trigger bit_taken(spec_set_bits_list(bytes, l, taken), j)]
            bit_taken(spec_set_bits_list(bytes, l, taken), j) == (if l.contains(j) {
                taken
            } else {
                bit_taken(bytes, j)
            }),
    decreases l.len(),
{
    if l.len() > 0 {
        lemma_set_bits_list_props(bytes, l.drop_last(), taken);
        let inner = spec_set_bits_list(bytes, l.drop_last(), taken);
        lemma_spec_set_bit(inner, l.last(), taken);
        assert forall|j: int|
            bit_taken(spec_set_bits_list(bytes, l, taken), j) == (if l.contains(j) {
                taken
            } else {
                bit_taken(bytes, j)
            }) by {
            if j == l.last() {
                assert(l.contains(j)) by {
                    assert(l[l.len() - 1] == j);
                }
            } else {
                assert(l.drop_last().contains(j) == l.contains(j)) by {
                    if l.drop_last().contains(j) {
                        let k = choose|k: int| 0 <= k < l.drop_last().len() && l.drop_last()[k] == j;
                        assert(l[k] == j);
                    }
                    if l.contains(j) {
                        let k = choose|k: int| 0 <= k < l.len() && l[k] == j;
                        assert(l.drop_last()[k] == j);
                    }
                }
            }
        }
    }
}

/// Law of the bitmap round trip: after writing bit `i` to taken the index
/// reads taken, after writing it to free the index reads free, and either
/// write leaves every other index as it was. (An out-of-range `set` fails
/// without writing, and an out-of-range index always reads free: so say the
/// contracts of `Bitmap::set` and `Bitmap::free_at`.)
pub proof fn lemma_bitmap_round_trip(bytes: Seq<u8>, i: int)
    requires
        0 <= i,
        i / 8 < bytes.len(),
    ensures
        bit_taken(spec_set_bit(bytes, i, true), i),
        !bit_taken(spec_set_bit(bytes, i, false), i),
        forall|j: int|
            j != i ==> #[trigger] bit_taken(spec_set_bit(bytes, i, true), j) == bit_taken(
                bytes,
                j,
            ),
        forall|j: int|
            j != i ==> #[trigger] bit_taken(spec_set_bit(bytes, i, false), j) == bit_taken(
                bytes,
                j,
            ),
{
    lemma_spec_set_bit(bytes, i, true);
    lemma_spec_set_bit(bytes, i, false);
}

/// `spec_find_free_from` returns the smallest free index at or after `from`
/// within the bit range, and `None` exactly when every such index is taken.
pub proof fn lemma_find_free_from_char(bytes: Seq<u8>, from: int)
    requires
        0 <= from,
    ensures
        match spec_find_free_from(bytes, from) {
            Some(i) => from <= i < 8 * bytes.len() && !bit_taken(bytes, i) && forall|j: int|
                from <= j < i ==> bit_taken(bytes, j),
            None => forall|j: int| from <= j < 8 * bytes.len() ==> bit_taken(bytes, j),
        },
    decreases 8 * bytes.len() - from,
{
    if from >= 8 * bytes.len() {
    } else if !bit_taken(bytes, from) {
    } else {
        lemma_find_free_from_char(bytes, from + 1);
    }
}

fn bits_free_at(inner: &Vec<u8>, ind: usize) -> (r: bool)
    ensures
        r == !bit_taken(inner@, ind as int),
{
    let byte: u8 = if ind / 8 < inner.len() {
        inner[ind / 8]
    } else {
        0u8
    };
    let shift: u8 = 7u8 - (ind % 8) as u8;
    proof {
        assert((0u8 >> shift) & 1u8 != 1u8) by (bit_vector);
    }
    ((byte >> shift) & 1u8) != 1u8
}

fn bits_set(inner: &mut Vec<u8>, ind: usize, is_taken: bool) -> (r: Result<(), FsError>)
    ensures
        final(inner)@.len() == old(inner)@.len(),
        r is Ok <==> ind / 8 < old(inner)@.len(),
        !(r is Ok) ==> r == Err::<(), FsError>(FsError::OutOfBoundsBitmap(ind)) && final(inner)@
            == old(inner)@,
        r is Ok ==> final(inner)@ == spec_set_bit(old(inner)@, ind as int, is_taken),
        r is Ok ==> forall|j: int|
            #![trigger bit_taken(final(inner)@, j)]
            bit_taken(final(inner)@, j) == (if j == ind as int {
                is_taken
            } else {
                bit_taken(old(inner)@, j)
            }),
{
    let byte_ind = ind / 8;
    if byte_ind >= inner.len() {
        return Err(FsError::OutOfBoundsBitmap(ind));
    }
    let b = inner[byte_ind];
    let shift: u8 = 7u8 - (ind % 8) as u8;
    let nb = if is_taken {
        b | (1u8 << shift)
    } else {
        b & !(1u8 << shift)
    };
    inner.set(byte_ind, nb);
    proof {
        lemma_spec_set_bit(old(inner)@, ind as int, is_taken);
    }
    Ok(())
}

fn bits_find_free_from(inner: &Vec<u8>, from: usize) -> (r: Option<usize>)
    requires
        inner@.len() * 8 <= usize::MAX,
    ensures
        r == match spec_find_free_from(inner@, from as int) {
            Some(i) => Some(i as usize),
            None => None::<usize>,
        },
        r is Some ==> from <= r.unwrap() < 8 * inner@.len() && !bit_taken(
            inner@,
            r.unwrap() as int,
        ) && forall|j: int| from <= j < r.unwrap() ==> bit_taken(inner@, j),
        r is None ==> forall|j: int| from <= j < 8 * inner@.len() ==> bit_taken(inner@, j),
{
    proof {
        lemma_find_free_from_char(inner@, from as int);
    }
    let total: usize = inner.len() * 8;
    let mut i: usize = from;
    while i < total
        invariant
            from <= i,
            total == 8 * inner@.len(),
            inner@.len() * 8 <= usize::MAX,
            spec_find_free_from(inner@, from as int) == spec_find_free_from(inner@, i as int),
        decreases total - i,
    {
        if bits_free_at(inner, i) {
            proof {
                assert(spec_find_free_from(inner@, i as int) == Some(i as int));
                lemma_find_free_from_char(inner@, from as int);
            }
            return Some(i);
        }
        i = i + 1;
    }
    None
}

/// The shared interface of the two allocation bitmaps: a fixed byte vector
/// read and written one bit at a time, MSB-first within each byte.
pub trait Bitmap: Sized {
    /// The bitmap's bytes, as the contracts speak of them.
    spec fn bits(&self) -> Seq<u8>;

    /// Read access to the raw bytes, for persisting the bitmap.
    fn immutable(&self) -> (r: &[u8])
        ensures
            r@ == self.bits(),
    ;

    /// Write bit `ind` to `is_taken`; fails (and changes nothing) when byte
    /// `ind / 8` lies past the end.
    fn set(&mut self, ind: usize, is_taken: bool) -> (r: Result<(), FsError>)
        ensures
            final(self).bits().len() == old(self).bits().len(),
            r is Ok <==> ind / 8 < old(self).bits().len(),
            !(r is Ok) ==> r == Err::<(), FsError>(FsError::OutOfBoundsBitmap(ind))
                && final(self).bits() == old(self).bits(),
            r is Ok ==> final(self).bits() == spec_set_bit(old(self).bits(), ind as int, is_taken),
            r is Ok ==> forall|j: int|
                #![trigger bit_taken(final(self).bits(), j)]
                bit_taken(final(self).bits(), j) == (if j == ind as int {
                    is_taken
                } else {
                    bit_taken(old(self).bits(), j)
                }),
    ;

    /// True when bit `ind` is clear; an index past the end reads as free.
    fn free_at(&self, ind: usize) -> (r: bool)
        ensures
            r == !bit_taken(self.bits(), ind as int),
    ;

    /// The smallest free bit index at or after `from` within the bit range.
    fn find_free_from(&self, from: usize) -> (r: Option<usize>)
        requires
            self.bits().len() * 8 <= usize::MAX,
        ensures
            r == match spec_find_free_from(self.bits(), from as int) {
                Some(i) => Some(i as usize),
                None => None::<usize>,
            },
            r is Some ==> from <= r.unwrap() < 8 * self.bits().len() && !bit_taken(
                self.bits(),
                r.unwrap() as int,
            ) && forall|j: int| from <= j < r.unwrap() ==> bit_taken(self.bits(), j),
            r is None ==> forall|j: int| from <= j < 8 * self.bits().len() ==> bit_taken(
                self.bits(),
                j,
            ),
    ;

    /// The smallest free bit index overall.
    fn find_free(&self) -> (r: Option<usize>)
        requires
            self.bits().len() * 8 <= usize::MAX,
        ensures
            r == match spec_find_free_from(self.bits(), 0) {
                Some(i) => Some(i as usize),
                None => None::<usize>,
            },
            r is Some ==> r.unwrap() < 8 * self.bits().len() && !bit_taken(
                self.bits(),
                r.unwrap() as int,
            ) && forall|j: int| 0 <= j < r.unwrap() ==> bit_taken(self.bits(), j),
            r is None ==> forall|j: int| 0 <= j < 8 * self.bits().len() ==> bit_taken(
                self.bits(),
                j,
            ),
    ;
}

/// Presence map of the inode table: bit `i` set means inode slot `i` is allocated.
#[derive(Debug)]
pub struct InodeBitmap {
    pub inner: Vec<u8>,
}

/// Presence map of the data-block region: bit `i` set means block `i` is allocated.
#[derive(Debug)]
pub struct DataBitmap {
    pub inner: Vec<u8>,
}

impl Bitmap for InodeBitmap {
    open spec fn bits(&self) -> Seq<u8> {
        self.inner@
    }

    fn immutable(&self) -> (r: &[u8]) {
        self.inner.as_slice()
    }

    fn set(&mut self, ind: usize, is_taken: bool) -> (r: Result<(), FsError>) {
        bits_set(&mut self.inner, ind, is_taken)
    }

    fn free_at(&self, ind: usize) -> (r: bool) {
        bits_free_at(&self.inner, ind)
    }

    fn find_free_from(&self, from: usize) -> (r: Option<usize>) {
        bits_find_free_from(&self.inner, from)
    }

    fn find_free(&self) -> (r: Option<usize>) {
        bits_find_free_from(&self.inner, 0)
    }
}

impl Bitmap for DataBitmap {
    open spec fn bits(&self) -> Seq<u8> {
        self.inner@
    }

    fn immutable(&self) -> (r: &[u8]) {
        self.inner.as_slice()
    }

    fn set(&mut self, ind: usize, is_taken: bool) -> (r: Result<(), FsError>) {
        bits_set(&mut self.inner, ind, is_taken)
    }

    fn free_at(&self, ind: usize) -> (r: bool) {
        bits_free_at(&self.inner, ind)
    }

    fn find_free_from(&self, from: usize) -> (r: Option<usize>) {
        bits_find_free_from(&self.inner, from)
    }

    fn find_free(&self) -> (r: Option<usize>) {
        bits_find_free_from(&self.inner, 0)
    }
}

impl Default for InodeBitmap {
    /// An all-zero inode bitmap: every slot free.
    fn default() -> (r: Self)
        ensures
            r.inner@ == Seq::new(INODES_BITMAP_SIZE as nat, |i: int| 0u8),
    {
        let r = InodeBitmap { inner: vec![0u8; INODES_BITMAP_SIZE] };
        proof {
            assert(r.inner@ =~= Seq::new(INODES_BITMAP_SIZE as nat, |i: int| 0u8));
        }
        r
    }
}

impl Default for DataBitmap {
    /// An all-zero data-block bitmap: every block free.
    fn default() -> (r: Self)
        ensures
            r.inner@ == Seq::new(BLOCKS_BITMAP_SIZE as nat, |i: int| 0u8),
    {
        let r = DataBitmap { inner: vec![0u8; BLOCKS_BITMAP_SIZE] };
        proof {
            assert(r.inner@ =~= Seq::new(BLOCKS_BITMAP_SIZE as nat, |i: int| 0u8));
        }
        r
    }
}

/// The metadata header describing the volume's geometry and region offsets.
/// Written once at mount of a fresh volume; thereafter read-only.
#[derive(Debug, Clone, Copy, PartialEq, Eq, Structural)]
pub struct Superblock {
    pub block_size: usize,
    pub inode_size: usize,
    pub blocks_count: usize,
    pub inodes_count: usize,
    pub data_bitmap: usize,
    pub inode_bitmap: usize,
    pub inode_table: usize,
    pub data_blocks: usize,
}

/// The superblock a fresh volume is created with: the fixed geometry constants
/// and the region offsets that follow from them.
pub open spec fn spec_default_superblock() -> Superblock {
    Superblock {
        block_size: BLOCK_SIZE,
        inode_size: INODE_SIZE,
        blocks_count: BLOCKS_COUNT,
        inodes_count: INODES_COUNT,
        data_bitmap: DATA_BITMAP_OFFSET,
        inode_bitmap: INODE_BITMAP_OFFSET,
        inode_table: INODE_TABLE_OFFSET,
        data_blocks: DATA_BLOCKS_OFFSET,
    }
}

impl Default for Superblock {
    fn default() -> (r: Self)
        ensures
            r == spec_default_superblock(),
    {
        Superblock {
            block_size: BLOCK_SIZE,
            inode_size: INODE_SIZE,
            blocks_count: BLOCKS_COUNT,
            inodes_count: INODES_COUNT,
            data_bitmap: DATA_BITMAP_OFFSET,
            inode_bitmap: INODE_BITMAP_OFFSET,
            inode_table: INODE_TABLE_OFFSET,
            data_blocks: DATA_BLOCKS_OFFSET,
        }
    }
}

/// The layout regions follow one another without gap: the data bitmap is
/// followed by the inode bitmap, that by the inode table, and that by the
/// data blocks.
pub proof fn lemma_layout_self_consistent(sb: Superblock)
    requires
        sb == spec_default_superblock(),
    ensures
        sb.data_bitmap + BLOCKS_COUNT / 8 == sb.inode_bitmap,
        sb.inode_bitmap + INODES_COUNT / 8 == sb.inode_table,
        sb.inode_table + INODES_COUNT * sb.inode_size == sb.data_blocks,
{
}

/// Fixed-size record describing one file or directory: its byte size, its
/// kind, and the indices of its data blocks. Only the first
/// `ceil(size / BLOCK_SIZE)` entries of `direct` are meaningful.
#[derive(Debug, Clone, Copy)]
pub struct Inode {
    pub size: usize,
    pub is_directory: bool,
    pub direct: [usize; 12],
}

/// Ghost image of an inode.
pub struct InodeV {
    pub size: int,
    pub is_directory: bool,
    pub direct: Seq<int>,
}

/// Ceiling division for non-negative dividend and positive divisor.
pub open spec fn ceil_div(a: int, b: int) -> int
    recommends
        a >= 0,
        b > 0,
{
    (a + b - 1) / b
}

impl Inode {
    /// The ghost image of this inode.
    pub open spec fn v(&self) -> InodeV {
        InodeV {
            size: self.size as int,
            is_directory: self.is_directory,
            direct: self.direct@.map_values(|x: usize| x as int),
        }
    }
}

impl InodeV {
    /// How many data blocks the payload of this inode occupies.
    pub open spec fn blocks(&self) -> int {
        ceil_div(self.size, BLOCK_SIZE as int)
    }

    /// Well-formed inode: the payload fits the direct pointers, and the
    /// meaningful pointers are strictly increasing indices of real blocks.
    pub open spec fn wf(&self) -> bool {
        &&& 0 <= self.size <= INODE_LINKS * BLOCK_SIZE
        &&& self.direct.len() == INODE_LINKS
        &&& forall|k: int| 0 <= k < self.blocks() ==> 0 <= #[trigger] self.direct[k] < BLOCKS_COUNT
        &&& forall|k1: int, k2: int|
            0 <= k1 < k2 < self.blocks() ==> #[trigger] self.direct[k1] < #[trigger] self.direct[k2]
    }
}

impl Default for Inode {
    /// An empty inode: no content, not a directory, no meaningful pointers.
    fn default() -> (r: Self)
        ensures
            r.v() == (InodeV { size: 0, is_directory: false, direct: Seq::new(12, |i: int| 0) }),
            r.v().wf(),
    {
        let r = Inode { size: 0, is_directory: false, direct: [0; 12] };
        proof {
            assert(r.v().direct =~= Seq::new(12, |i: int| 0));
        }
        r
    }
}

/// The payload of a directory inode: the optional parent inode index (the
/// root directory has none) and the ordered `(inode index, name)` entries.
/// Directory entries carry their name with a trailing `/`.
pub struct Directory {
    pub parent_inode_ind: Option<usize>,
    pub files: Vec<(usize, String)>,
}

/// Ghost image of a directory payload.
pub struct DirView {
    pub parent: Option<int>,
    pub files: Seq<(int, Seq<char>)>,
}

impl Directory {
    /// The ghost image of this directory.
    pub open spec fn v(&self) -> DirView {
        DirView {
            parent: match self.parent_inode_ind {
                Option::None => Option::None,
                Option::Some(p) => Option::Some(p as int),
            },
            files: self.files@.map_values(|e: (usize, String)| (e.0 as int, e.1@)),
        }
    }
}

impl DirView {
    /// The entry names, in insertion order.
    pub open spec fn names(&self) -> Seq<Seq<char>> {
        self.files.map_values(|e: (int, Seq<char>)| e.1)
    }

    /// Well-formed directory payload: entries point at real inode slots.
    pub open spec fn wf(&self) -> bool {
        &&& match self.parent {
            Option::None => true,
            Option::Some(p) => 0 <= p < INODES_COUNT as int,
        }
        &&& forall|k: int| 0 <= k < self.files.len() ==> 0 <= #[trigger] self.files[k].0 < INODES_COUNT as int
    }

    /// No two entries carry the same name.
    pub open spec fn names_unique(&self) -> bool {
        forall|k1: int, k2: int|
            0 <= k1 < k2 < self.files.len() ==> #[trigger] self.files[k1].1 != #[trigger] self.files[k2].1
    }
}

} // verus!
