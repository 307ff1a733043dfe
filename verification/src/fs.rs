//! The file-system engine: mounts a volume, keeps the in-memory superblock
//! and bitmaps, maintains the current-directory cursor, and implements
//! create/read/delete/list/navigate on top of the storage and the bitmaps.
//! Every mutation is persisted into the volume before the operation returns.

use crate::codec::decode_directory;
use crate::codec::decode_inode;
use crate::codec::decode_superblock;
use crate::codec::decode_text;
use crate::codec::encode_content;
use crate::codec::encode_directory;
use crate::codec::encode_inode;
use crate::codec::encode_superblock;
use crate::codec::spec_decode_dir;
use crate::codec::spec_decode_inode;
use crate::codec::spec_decode_text;
use crate::codec::spec_encode_content;
use crate::codec::spec_encode_dir;
use crate::codec::spec_encode_inode;
use crate::error::FsError;
use crate::storage::spec_write;
use crate::storage::Storage;
use crate::structure::bit_taken;
use crate::structure::ceil_div;
use crate::structure::spec_default_superblock;
use crate::structure::spec_find_free_from;
use crate::structure::spec_set_bit;
use crate::structure::spec_set_bits_list;
use crate::structure::Bitmap;
use crate::structure::DataBitmap;
use crate::structure::DirView;
use crate::structure::Directory;
use crate::structure::Inode;
use crate::structure::InodeBitmap;
use crate::structure::InodeV;
use crate::structure::Superblock;
use crate::structure::BLOCKS_BITMAP_SIZE;
use crate::structure::BLOCKS_COUNT;
use crate::structure::BLOCK_SIZE;
use crate::structure::DATA_BITMAP_OFFSET;
use crate::structure::DATA_BLOCKS_OFFSET;
use crate::structure::INODES_BITMAP_SIZE;
use crate::structure::INODES_COUNT;
use crate::structure::INODE_BITMAP_OFFSET;
use crate::structure::INODE_LINKS;
use crate::structure::INODE_SIZE;
use crate::structure::INODE_TABLE_OFFSET;
use crate::structure::SUPERBLOCK_SIZE;
use vstd::prelude::*;
use vstd::string::StrSliceExecFns;
use vstd::string::StringExecFns;
use vstd::utf8::decode_utf8;
use vstd::utf8::valid_utf8;

verus! {

// ---------------------------------------------------------------------------
// Ghost views of what the volume holds at each layout region.
// ---------------------------------------------------------------------------
/// Volume offset of inode slot `i`.
pub open spec fn inode_off(i: int) -> int {
    INODE_TABLE_OFFSET + i * INODE_SIZE
}

/// Volume offset of data block `b`.
pub open spec fn block_off(b: int) -> int {
    DATA_BLOCKS_OFFSET + b * BLOCK_SIZE
}

/// True when inode slot `i` lies inside the volume's bytes.
pub open spec fn inode_region_in_disk(disk: Seq<u8>, i: int) -> bool {
    inode_off(i) + INODE_SIZE <= disk.len()
}

/// The inode decoded from slot `i`, when its region is readable and decodes.
pub open spec fn spec_inode_at(disk: Seq<u8>, i: int) -> Option<InodeV> {
    if inode_region_in_disk(disk, i) {
        spec_decode_inode(disk.subrange(inode_off(i), inode_off(i) + INODE_SIZE))
    } else {
        None
    }
}

/// The error a failed inode read reports: the end of the volume or bytes
/// that do not decode.
pub open spec fn spec_inode_err(disk: Seq<u8>, i: int) -> FsError {
    if !inode_region_in_disk(disk, i) {
        FsError::IoError
    } else {
        FsError::CodecError
    }
}

/// Bytes of the `k`-th payload chunk of an inode of size `size`: a full block
/// except for the trailing chunk.
pub open spec fn chunk_len(size: int, k: int) -> int {
    if size - k * BLOCK_SIZE < BLOCK_SIZE {
        size - k * BLOCK_SIZE
    } else {
        BLOCK_SIZE as int
    }
}

/// True when every payload chunk of the inode lies inside the volume.
pub open spec fn payload_in_disk(disk: Seq<u8>, iv: InodeV) -> bool {
    forall|k: int|
        0 <= k < iv.blocks() ==> block_off(#[trigger] iv.direct[k]) + chunk_len(iv.size, k)
            <= disk.len()
}

/// The first `n` payload chunks of the inode, concatenated in order.
pub open spec fn spec_payload_prefix(disk: Seq<u8>, iv: InodeV, n: int) -> Seq<u8>
    decreases n,
{
    if n <= 0 {
        Seq::empty()
    } else {
        spec_payload_prefix(disk, iv, n - 1) + disk.subrange(
            block_off(iv.direct[n - 1]),
            block_off(iv.direct[n - 1]) + chunk_len(iv.size, n - 1),
        )
    }
}

/// The payload of the inode: its blocks read in order, trimmed to its size.
pub open spec fn spec_payload(disk: Seq<u8>, iv: InodeV) -> Seq<u8> {
    spec_payload_prefix(disk, iv, iv.blocks())
}

/// The directory held by the inode at slot `i`, when everything reads and
/// decodes.
pub open spec fn spec_dir_at(disk: Seq<u8>, i: int) -> Option<DirView> {
    match spec_inode_at(disk, i) {
        None => None,
        Some(iv) => if payload_in_disk(disk, iv) {
            spec_decode_dir(spec_payload(disk, iv))
        } else {
            None
        },
    }
}

/// The error a failed directory read reports.
pub open spec fn spec_dir_err(disk: Seq<u8>, i: int) -> FsError {
    match spec_inode_at(disk, i) {
        None => spec_inode_err(disk, i),
        Some(iv) => if payload_in_disk(disk, iv) {
            FsError::CodecError
        } else {
            FsError::IoError
        },
    }
}

/// True when the directory inode at slot `i` is backed by the allocators:
/// its own slot is marked in the inode bitmap and each of its payload blocks
/// is marked in the data bitmap. A mounted fresh volume's root satisfies
/// this, and it is what shields existing payloads from later allocations.
pub open spec fn dir_backed(disk: Seq<u8>, dbits: Seq<u8>, ibits: Seq<u8>, i: int) -> bool {
    match spec_inode_at(disk, i) {
        Some(iv) => bit_taken(ibits, i) && forall|k: int|
            0 <= k < iv.blocks() ==> bit_taken(dbits, #[trigger] iv.direct[k]),
        None => false,
    }
}

/// What a mount loads for a bitmap region: the stored bytes when the region
/// lies wholly inside the volume, the all-zero default otherwise (which the
/// mount also writes back at the region's offset).
pub open spec fn spec_loaded_bitmap(disk: Seq<u8>, off: int, len: int) -> Seq<u8> {
    if off + len <= disk.len() {
        disk.subrange(off, off + len)
    } else {
        Seq::new(len as nat, |i: int| 0u8)
    }
}

/// The textual path of a component stack: `/` followed by each component
/// with a trailing `/`.
pub open spec fn spec_path_text(names: Seq<Seq<char>>) -> Seq<char>
    decreases names.len(),
{
    if names.len() == 0 {
        seq!['/']
    } else {
        spec_path_text(names.drop_last()) + names.last() + seq!['/']
    }
}

/// The position of the first entry of this name, if any.
pub open spec fn spec_find_index(files: Seq<(int, Seq<char>)>, name: Seq<char>) -> Option<int>
    decreases files.len(),
{
    if files.len() == 0 {
        None
    } else if files[0].1 == name {
        Some(0int)
    } else {
        match spec_find_index(files.skip(1), name) {
            Some(k) => Some(k + 1),
            None => None,
        }
    }
}

/// `spec_find_index` returns the first position whose entry carries the name,
/// and `None` exactly when no entry does.
pub proof fn lemma_find_index_char(files: Seq<(int, Seq<char>)>, name: Seq<char>)
    ensures
        match spec_find_index(files, name) {
            Some(k) => 0 <= k < files.len() && files[k].1 == name && forall|j: int|
                0 <= j < k ==> #[trigger] files[j].1 != name,
            None => forall|j: int| 0 <= j < files.len() ==> #[trigger] files[j].1 != name,
        },
    decreases files.len(),
{
    if files.len() == 0 {
    } else if files[0].1 == name {
    } else {
        lemma_find_index_char(files.skip(1), name);
        assert(forall|j: int| 1 <= j < files.len() ==> #[trigger] files[j] == files.skip(1)[j - 1]);
    }
}

/// A position whose entry carries the name, with no earlier one, is where
/// `spec_find_index` points.
pub proof fn lemma_index_of_match(fv: Seq<(int, Seq<char>)>, name: Seq<char>, i: int)
    requires
        0 <= i < fv.len(),
        fv[i].1 == name,
        forall|j: int| 0 <= j < i ==> #[trigger] fv[j].1 != name,
    ensures
        spec_find_index(fv, name) == Some(i),
{
    lemma_find_index_char(fv, name);
    match spec_find_index(fv, name) {
        Some(k) => {
            if k < i {
                assert(fv[k].1 != name);
            }
            if k > i {
                assert(fv[i].1 != name);
            }
        },
        None => {
            assert(fv[i].1 != name);
        },
    }
}

/// When no entry carries the name, `spec_find_index` finds nothing.
pub proof fn lemma_index_of_none(fv: Seq<(int, Seq<char>)>, name: Seq<char>)
    requires
        forall|j: int| 0 <= j < fv.len() ==> #[trigger] fv[j].1 != name,
    ensures
        spec_find_index(fv, name) is None,
{
    lemma_find_index_char(fv, name);
    if spec_find_index(fv, name) is Some {
        let k = spec_find_index(fv, name).unwrap();
        assert(fv[k].1 != name);
    }
}

/// The entry `rm` removes for a given name: the first entry under the name
/// itself, or, when there is none, the first entry under the name with a
/// trailing `/` (a directory's stored form).
pub open spec fn spec_rm_index(d: DirView, name: Seq<char>) -> Option<int> {
    if spec_find_index(d.files, name) is Some {
        spec_find_index(d.files, name)
    } else {
        spec_find_index(d.files, name + seq!['/'])
    }
}

/// Bounds of a product of an index below `n` with a positive stride `m`.
proof fn lemma_mul_bound(i: int, n: int, m: int)
    by (nonlinear_arith)
    requires
        0 <= i < n,
        0 < m,
    ensures
        0 <= i * m,
        i * m + m <= n * m,
{
}

/// A product of non-negatives is non-negative.
proof fn lemma_mul_nonneg(a: int, b: int)
    by (nonlinear_arith)
    requires
        0 <= a,
        0 <= b,
    ensures
        0 <= a * b,
{
}

/// One distribution step of multiplication.
proof fn lemma_mul_succ(k: int, m: int)
    by (nonlinear_arith)
    ensures
        (k + 1) * m == k * m + m,
{
}

/// The blocks chosen for a payload of `needed` chunks: the first `taken` old
/// pointers are reused in place, and every further chunk gets the first free
/// block found strictly after the block chosen before it (after block 0 when
/// none was chosen yet).
pub open spec fn spec_choose_blocks(
    bits: Seq<u8>,
    direct: Seq<int>,
    taken: int,
    needed: int,
) -> Option<Seq<int>>
    decreases needed,
{
    if needed <= 0 {
        Some(Seq::empty())
    } else {
        match spec_choose_blocks(bits, direct, taken, needed - 1) {
            None => None,
            Some(pre) => {
                if needed - 1 < taken {
                    Some(pre.push(direct[needed - 1]))
                } else {
                    let from = (if pre.len() == 0 {
                        0
                    } else {
                        pre.last()
                    }) + 1;
                    match spec_find_free_from(bits, from) {
                        None => None,
                        Some(f) => Some(pre.push(f)),
                    }
                }
            },
        }
    }
}

/// A choice that only reuses old pointers never fails.
proof fn lemma_choose_reuse_only(bits: Seq<u8>, direct: Seq<int>, taken: int, needed: int)
    requires
        0 <= needed <= taken,
    ensures
        spec_choose_blocks(bits, direct, taken, needed) is Some,
    decreases needed,
{
    if needed > 0 {
        lemma_choose_reuse_only(bits, direct, taken, needed - 1);
    }
}

proof fn lemma_choose_none_mono(bits: Seq<u8>, direct: Seq<int>, taken: int, n: int, m: int)
    requires
        spec_choose_blocks(bits, direct, taken, n) is None,
        n <= m,
    ensures
        spec_choose_blocks(bits, direct, taken, m) is None,
    decreases m - n,
{
    if m > n {
        lemma_choose_none_mono(bits, direct, taken, n, m - 1);
    }
}

/// What holds of a successful block choice: one block per chunk, all real,
/// strictly increasing (hence pairwise distinct), the reused prefix taken
/// from the old pointers, and every fresh block free in the bitmap.
pub proof fn lemma_choose_blocks_props(bits: Seq<u8>, direct: Seq<int>, taken: int, needed: int)
    requires
        0 <= taken <= direct.len(),
        0 <= needed,
        8 * bits.len() <= BLOCKS_COUNT,
        forall|k: int| 0 <= k < taken ==> 0 <= #[trigger] direct[k] < BLOCKS_COUNT,
        forall|k1: int, k2: int|
            0 <= k1 < k2 < taken ==> #[trigger] direct[k1] < #[trigger] direct[k2],
    ensures
        match spec_choose_blocks(bits, direct, taken, needed) {
            Some(c) => {
                &&& c.len() == needed
                &&& forall|k: int| 0 <= k < needed ==> 0 <= #[trigger] c[k] < BLOCKS_COUNT
                &&& forall|k1: int, k2: int|
                    0 <= k1 < k2 < needed ==> #[trigger] c[k1] < #[trigger] c[k2]
                &&& forall|k: int| 0 <= k < needed && k < taken ==> #[trigger] c[k] == direct[k]
                &&& forall|k: int| taken <= k < needed ==> !bit_taken(bits, #[trigger] c[k])
            },
            None => true,
        },
    decreases needed,
{
    if needed > 0 {
        lemma_choose_blocks_props(bits, direct, taken, needed - 1);
        let prev = spec_choose_blocks(bits, direct, taken, needed - 1);
        if prev is Some {
            let pre = prev.unwrap();
            if needed - 1 < taken {
            } else {
                let from = (if pre.len() == 0 {
                    0
                } else {
                    pre.last()
                }) + 1;
                crate::structure::lemma_find_free_from_char(bits, from);
            }
        }
    }
}

/// The `k`-th chunk of a payload: a block-sized slice, short at the tail.
pub open spec fn spec_chunk(data: Seq<u8>, k: int) -> Seq<u8> {
    data.subrange(k * BLOCK_SIZE, k * BLOCK_SIZE + chunk_len(data.len() as int, k))
}

/// The volume after writing each chunk of the payload to its chosen block,
/// in order.
pub open spec fn spec_write_chunks(disk: Seq<u8>, c: Seq<int>, data: Seq<u8>) -> Seq<u8>
    decreases c.len(),
{
    if c.len() == 0 {
        disk
    } else {
        spec_write(
            spec_write_chunks(disk, c.drop_last(), data),
            block_off(c.last()),
            spec_chunk(data, c.len() - 1),
        )
    }
}

/// True when `j` is one of the surplus old pointers `direct[needed..taken]`.
pub open spec fn in_surplus(direct: Seq<int>, needed: int, taken: int, j: int) -> bool {
    exists|k: int| needed <= k < taken && #[trigger] direct[k] == j
}

/// The old pointers a payload rewrite gives back: `direct[needed..taken]`
/// when the payload shrinks, none otherwise.
pub open spec fn spec_surplus_list(direct: Seq<int>, taken: int, needed: int) -> Seq<int> {
    if needed < taken {
        direct.subrange(needed, taken)
    } else {
        Seq::empty()
    }
}

/// The data bitmap after a payload rewrite: the surplus pointers cleared,
/// then every chosen block set, in order.
pub open spec fn spec_update_bits(
    bits: Seq<u8>,
    direct: Seq<int>,
    taken: int,
    needed: int,
    c: Seq<int>,
) -> Seq<u8> {
    spec_set_bits_list(
        spec_set_bits_list(bits, spec_surplus_list(direct, taken, needed), false),
        c,
        true,
    )
}

/// True when `j` is one of the chosen blocks.
pub open spec fn in_chosen(c: Seq<int>, j: int) -> bool {
    exists|k: int| 0 <= k < c.len() && #[trigger] c[k] == j
}

/// A write that ends at or before `a`, or starts at or after `b`, leaves the
/// bytes of `[a, b)` as they were, and never shrinks the volume.
proof fn lemma_write_frame(disk: Seq<u8>, off: int, data: Seq<u8>, a: int, b: int)
    requires
        0 <= off,
        0 <= a <= b,
        b <= disk.len(),
        b <= off || off + data.len() <= a,
    ensures
        spec_write(disk, off, data).len() >= disk.len(),
        spec_write(disk, off, data).subrange(a, b) == disk.subrange(a, b),
{
    assert(spec_write(disk, off, data).subrange(a, b) =~= disk.subrange(a, b));
}

/// A write puts its bytes where it was aimed.
proof fn lemma_write_read(disk: Seq<u8>, off: int, data: Seq<u8>)
    requires
        0 <= off,
    ensures
        spec_write(disk, off, data).len() >= off + data.len(),
        spec_write(disk, off, data).len() >= disk.len(),
        spec_write(disk, off, data).subrange(off, off + data.len()) == data,
{
    assert(spec_write(disk, off, data).subrange(off, off + data.len()) =~= data);
}

proof fn lemma_block_disjoint(bj: int, bk: int)
    by (nonlinear_arith)
    requires
        0 <= bj < bk,
    ensures
        bj * BLOCK_SIZE + BLOCK_SIZE <= bk * BLOCK_SIZE,
{
}

/// Chunk writes land in the data-block region and leave everything below it
/// as it was.
proof fn lemma_chunks_below_frame(disk: Seq<u8>, c: Seq<int>, data: Seq<u8>, a: int, b: int)
    requires
        0 <= a <= b,
        b <= DATA_BLOCKS_OFFSET,
        b <= disk.len(),
        forall|k: int| 0 <= k < c.len() ==> 0 <= #[trigger] c[k],
    ensures
        spec_write_chunks(disk, c, data).len() >= disk.len(),
        spec_write_chunks(disk, c, data).subrange(a, b) == disk.subrange(a, b),
    decreases c.len(),
{
    if c.len() > 0 {
        lemma_chunks_below_frame(disk, c.drop_last(), data, a, b);
        let inner = spec_write_chunks(disk, c.drop_last(), data);
        lemma_mul_nonneg(c.last(), BLOCK_SIZE as int);
        lemma_write_frame(
            inner,
            block_off(c.last()),
            spec_chunk(data, c.len() - 1),
            a,
            b,
        );
    }
}

/// After every chunk is written, the region of chunk `j` holds chunk `j`.
proof fn lemma_chunk_content(disk: Seq<u8>, c: Seq<int>, data: Seq<u8>, j: int)
    requires
        0 <= j < c.len(),
        forall|k: int| 0 <= k < c.len() ==> 0 <= #[trigger] c[k] < BLOCKS_COUNT,
        forall|k1: int, k2: int| 0 <= k1 < k2 < c.len() ==> #[trigger] c[k1] < #[trigger] c[k2],
        forall|k: int|
            0 <= k < c.len() ==> 0 <= #[trigger] chunk_len(data.len() as int, k)
                <= BLOCK_SIZE as int,
    ensures
        spec_write_chunks(disk, c, data).len() >= block_off(c[j]) + chunk_len(
            data.len() as int,
            j,
        ),
        spec_write_chunks(disk, c, data).subrange(
            block_off(c[j]),
            block_off(c[j]) + chunk_len(data.len() as int, j),
        ) == spec_chunk(data, j),
    decreases c.len(),
{
    let inner = spec_write_chunks(disk, c.drop_last(), data);
    let last_off = block_off(c.last());
    let last_chunk = spec_chunk(data, c.len() - 1);
    if j == c.len() - 1 {
        lemma_write_read(inner, last_off, last_chunk);
        assert(last_chunk.len() == chunk_len(data.len() as int, j));
    } else {
        lemma_chunk_content(disk, c.drop_last(), data, j);
        assert(c.drop_last()[j] == c[j]);
        lemma_block_disjoint(c[j], c.last());
        lemma_write_frame(
            inner,
            last_off,
            last_chunk,
            block_off(c[j]),
            block_off(c[j]) + chunk_len(data.len() as int, j),
        );
    }
}

proof fn lemma_ceil_props(len: int, m: int, n: int)
    by (nonlinear_arith)
    requires
        m > 0,
        len >= 0,
        n == (len + m - 1) / m,
    ensures
        n * m >= len,
        n >= 0,
        forall|k: int| 0 <= k < n ==> 0 <= #[trigger] (k * m) < len,
{
}

/// Each chunk is at most a block and, below the chunk count, non-empty.
proof fn lemma_chunk_len_bounds(len: int, n: int)
    requires
        len >= 0,
        n == ceil_div(len, BLOCK_SIZE as int),
    ensures
        forall|k: int| 0 <= k < n ==> 0 < #[trigger] chunk_len(len, k) <= BLOCK_SIZE as int,
{
    lemma_ceil_props(len, BLOCK_SIZE as int, n);
    assert forall|k: int| 0 <= k < n implies 0 < #[trigger] chunk_len(len, k)
        <= BLOCK_SIZE as int by {
        assert(k * BLOCK_SIZE < len);
    }
}

/// Reading the chunks of a payload back, in order, reassembles the payload.
proof fn lemma_payload_reconstruct_prefix(disk: Seq<u8>, iv: InodeV, data: Seq<u8>, m: int)
    requires
        iv.size == data.len(),
        0 <= m <= iv.blocks(),
        forall|k: int|
            0 <= k < iv.blocks() ==> disk.subrange(
                block_off(#[trigger] iv.direct[k]),
                block_off(iv.direct[k]) + chunk_len(data.len() as int, k),
            ) == spec_chunk(data, k),
    ensures
        spec_payload_prefix(disk, iv, m) == data.take(
            if (m * BLOCK_SIZE) < data.len() {
                m * (BLOCK_SIZE as int)
            } else {
                data.len() as int
            },
        ),
    decreases m,
{
    lemma_ceil_props(data.len() as int, BLOCK_SIZE as int, iv.blocks());
    if m == 0 {
        assert(spec_payload_prefix(disk, iv, 0) =~= data.take(0));
    } else {
        lemma_payload_reconstruct_prefix(disk, iv, data, m - 1);
        lemma_mul_succ(m - 1, BLOCK_SIZE as int);
        assert((m - 1) * BLOCK_SIZE < data.len());
        assert(spec_payload_prefix(disk, iv, m) =~= data.take(
            if (m * BLOCK_SIZE) < data.len() {
                m * (BLOCK_SIZE as int)
            } else {
                data.len() as int
            },
        ));
    }
}

/// The law behind create-then-read: after a payload's chunks are written to
/// the chosen blocks and the data bitmap is dumped, the updated inode's
/// payload reads back as exactly that payload.
pub proof fn lemma_update_payload_round_trip(
    disk: Seq<u8>,
    c: Seq<int>,
    data: Seq<u8>,
    iv2: InodeV,
    bits2: Seq<u8>,
)
    requires
        forall|k: int| 0 <= k < c.len() ==> 0 <= #[trigger] c[k] < BLOCKS_COUNT,
        forall|k1: int, k2: int| 0 <= k1 < k2 < c.len() ==> #[trigger] c[k1] < #[trigger] c[k2],
        data.len() <= INODE_LINKS * BLOCK_SIZE,
        c.len() == ceil_div(data.len() as int, BLOCK_SIZE as int),
        iv2.size == data.len(),
        iv2.direct.len() == INODE_LINKS,
        forall|k: int| 0 <= k < c.len() ==> #[trigger] iv2.direct[k] == c[k],
        bits2.len() == BLOCKS_BITMAP_SIZE,
    ensures
        payload_in_disk(
            spec_write(spec_write_chunks(disk, c, data), DATA_BITMAP_OFFSET as int, bits2),
            iv2,
        ),
        spec_payload(
            spec_write(spec_write_chunks(disk, c, data), DATA_BITMAP_OFFSET as int, bits2),
            iv2,
        ) == data,
{
    let n = c.len() as int;
    let after_chunks = spec_write_chunks(disk, c, data);
    let d = spec_write(after_chunks, DATA_BITMAP_OFFSET as int, bits2);
    lemma_chunk_len_bounds(data.len() as int, n);
    lemma_ceil_props(data.len() as int, BLOCK_SIZE as int, n);
    assert(iv2.blocks() == n);
    assert forall|k: int|
        0 <= k < iv2.blocks() implies d.subrange(
        block_off(#[trigger] iv2.direct[k]),
        block_off(iv2.direct[k]) + chunk_len(data.len() as int, k),
    ) == spec_chunk(data, k) && block_off(iv2.direct[k]) + chunk_len(data.len() as int, k)
        <= d.len() by {
        lemma_chunk_content(disk, c, data, k);
        lemma_mul_bound(c[k], BLOCKS_COUNT as int, BLOCK_SIZE as int);
        lemma_write_frame(
            after_chunks,
            DATA_BITMAP_OFFSET as int,
            bits2,
            block_off(c[k]),
            block_off(c[k]) + chunk_len(data.len() as int, k),
        );
    }
    lemma_payload_reconstruct_prefix(d, iv2, data, n);
    assert(data.take(data.len() as int) =~= data);
    if n * BLOCK_SIZE < data.len() {
        assert(false);
    }
}

proof fn lemma_payload_prefix_agree(d1: Seq<u8>, d2: Seq<u8>, iv: InodeV, m: int)
    requires
        forall|k: int|
            0 <= k < m ==> d2.subrange(
                block_off(#[trigger] iv.direct[k]),
                block_off(iv.direct[k]) + chunk_len(iv.size, k),
            ) == d1.subrange(
                block_off(iv.direct[k]),
                block_off(iv.direct[k]) + chunk_len(iv.size, k),
            ),
    ensures
        spec_payload_prefix(d2, iv, m) == spec_payload_prefix(d1, iv, m),
    decreases m,
{
    if m > 0 {
        lemma_payload_prefix_agree(d1, d2, iv, m - 1);
    }
}

/// A write that ends below the data-block region does not move any payload.
proof fn lemma_payload_frame_low_write(d: Seq<u8>, off: int, b: Seq<u8>, iv: InodeV)
    requires
        0 <= off,
        off + b.len() <= DATA_BLOCKS_OFFSET,
        payload_in_disk(d, iv),
        iv.size >= 0,
        forall|k: int| 0 <= k < iv.blocks() ==> 0 <= #[trigger] iv.direct[k],
    ensures
        payload_in_disk(spec_write(d, off, b), iv),
        spec_payload(spec_write(d, off, b), iv) == spec_payload(d, iv),
{
    let d2 = spec_write(d, off, b);
    assert forall|k: int|
        0 <= k < iv.blocks() implies d2.subrange(
        block_off(#[trigger] iv.direct[k]),
        block_off(iv.direct[k]) + chunk_len(iv.size, k),
    ) == d.subrange(block_off(iv.direct[k]), block_off(iv.direct[k]) + chunk_len(iv.size, k))
        && block_off(iv.direct[k]) + chunk_len(iv.size, k) <= d2.len() by {
        lemma_mul_nonneg(iv.direct[k], BLOCK_SIZE as int);
        lemma_ceil_props(iv.size, BLOCK_SIZE as int, iv.blocks());
        lemma_write_frame(
            d,
            off,
            b,
            block_off(iv.direct[k]),
            block_off(iv.direct[k]) + chunk_len(iv.size, k),
        );
    }
    lemma_payload_prefix_agree(d, d2, iv, iv.blocks());
}

proof fn lemma_slot_disjoint(a: int, b: int)
    by (nonlinear_arith)
    requires
        0 <= a < b,
    ensures
        a * INODE_SIZE + INODE_SIZE <= b * INODE_SIZE,
{
}

/// Chunk writes aimed at blocks an inode does not use leave that inode's
/// payload untouched.
proof fn lemma_payload_frame_chunks(disk: Seq<u8>, c: Seq<int>, data: Seq<u8>, iv: InodeV)
    requires
        payload_in_disk(disk, iv),
        iv.size >= 0,
        forall|j: int| 0 <= j < iv.blocks() ==> 0 <= #[trigger] iv.direct[j] < BLOCKS_COUNT,
        forall|k: int| 0 <= k < c.len() ==> 0 <= #[trigger] c[k] < BLOCKS_COUNT,
        forall|k: int|
            0 <= k < c.len() ==> 0 <= #[trigger] chunk_len(data.len() as int, k)
                <= BLOCK_SIZE as int,
        forall|k: int, j: int|
            0 <= k < c.len() && 0 <= j < iv.blocks() ==> #[trigger] c[k] != #[trigger] iv.direct[j],
    ensures
        payload_in_disk(spec_write_chunks(disk, c, data), iv),
        spec_write_chunks(disk, c, data).len() >= disk.len(),
        spec_payload(spec_write_chunks(disk, c, data), iv) == spec_payload(disk, iv),
    decreases c.len(),
{
    lemma_ceil_props(iv.size, BLOCK_SIZE as int, iv.blocks());
    if c.len() > 0 {
        lemma_payload_frame_chunks(disk, c.drop_last(), data, iv);
        let inner = spec_write_chunks(disk, c.drop_last(), data);
        let after = spec_write_chunks(disk, c, data);
        let last_off = block_off(c.last());
        let last_chunk = spec_chunk(data, c.len() - 1);
        assert forall|j: int|
            0 <= j < iv.blocks() implies after.subrange(
            block_off(#[trigger] iv.direct[j]),
            block_off(iv.direct[j]) + chunk_len(iv.size, j),
        ) == inner.subrange(
            block_off(iv.direct[j]),
            block_off(iv.direct[j]) + chunk_len(iv.size, j),
        ) && block_off(iv.direct[j]) + chunk_len(iv.size, j) <= after.len() by {
            if c.last() < iv.direct[j] {
                lemma_block_disjoint(c.last(), iv.direct[j]);
            } else {
                lemma_block_disjoint(iv.direct[j], c.last());
            }
            lemma_write_frame(
                inner,
                last_off,
                last_chunk,
                block_off(iv.direct[j]),
                block_off(iv.direct[j]) + chunk_len(iv.size, j),
            );
        }
        lemma_payload_prefix_agree(inner, after, iv, iv.blocks());
    }
}

/// A write wholly outside inode slot `i` does not change what slot `i`
/// holds, as long as the slot was inside the volume.
proof fn lemma_inode_at_frame(d: Seq<u8>, off: int, b: Seq<u8>, i: int)
    requires
        0 <= off,
        0 <= i,
        inode_region_in_disk(d, i),
        off + b.len() <= inode_off(i) || inode_off(i) + INODE_SIZE <= off,
    ensures
        inode_region_in_disk(spec_write(d, off, b), i),
        spec_inode_at(spec_write(d, off, b), i) == spec_inode_at(d, i),
{
    lemma_mul_nonneg(i, INODE_SIZE as int);
    lemma_write_frame(d, off, b, inode_off(i), inode_off(i) + INODE_SIZE);
}

/// All-zero bitmap bytes hold no allocated unit.
proof fn lemma_zero_bits(bytes: Seq<u8>)
    requires
        forall|i: int| 0 <= i < bytes.len() ==> bytes[i] == 0u8,
    ensures
        forall|j: int| !bit_taken(bytes, j),
{
    assert forall|j: int| !bit_taken(bytes, j) by {
        if 0 <= j && j / 8 < bytes.len() {
            let k = (7 - j % 8) as u8;
            assert((0u8 >> k) & 1u8 != 1u8) by (bit_vector);
        }
    }
}

/// True when `j` is one of the first `n` direct pointers of the inode.
pub open spec fn in_block_prefix_n(iv: InodeV, n: int, j: int) -> bool {
    exists|k: int| 0 <= k < n && #[trigger] iv.direct[k] == j
}

/// True when `j` is one of the meaningful direct pointers of the inode.
pub open spec fn in_block_prefix(iv: InodeV, j: int) -> bool {
    in_block_prefix_n(iv, iv.blocks(), j)
}

/// Law of directory uniqueness: a directory whose names are distinct keeps
/// them distinct under the two listing mutations the engine performs, namely
/// appending an entry under a name the directory does not hold (`touch`,
/// `mkdir`) and removing an entry (`rm`).
pub proof fn lemma_unique_names_preserved(d: DirView, ind: int, name: Seq<char>, k: int)
    requires
        d.names_unique(),
    ensures
        spec_find_index(d.files, name) is None ==> (DirView {
            parent: d.parent,
            files: d.files.push((ind, name)),
        }).names_unique(),
        0 <= k < d.files.len() ==> (DirView {
            parent: d.parent,
            files: d.files.remove(k),
        }).names_unique(),
{
    lemma_find_index_char(d.files, name);
    let pushed = d.files.push((ind, name));
    if spec_find_index(d.files, name) is None {
        assert forall|k1: int, k2: int|
            0 <= k1 < k2 < pushed.len() implies #[trigger] pushed[k1].1 != #[trigger] pushed[k2].1 by {
            if k2 == d.files.len() {
                assert(pushed[k1].1 == d.files[k1].1);
            }
        }
    }
    if 0 <= k < d.files.len() {
        let removed = d.files.remove(k);
        assert forall|k1: int, k2: int|
            0 <= k1 < k2 < removed.len() implies #[trigger] removed[k1].1
            != #[trigger] removed[k2].1 by {
            let o1 = if k1 < k {
                k1
            } else {
                k1 + 1
            };
            let o2 = if k2 < k {
                k2
            } else {
                k2 + 1
            };
            assert(removed[k1] == d.files[o1]);
            assert(removed[k2] == d.files[o2]);
        }
    }
}

/// Law of the create/read round trip: in a volume where the current
/// directory holds its old entries followed by one created under a fresh
/// name (as `touch` ensures on success), and where that entry's inode holds
/// the encoding of `content` (as `touch` ensures of a backed directory),
/// looking the name up finds exactly the created entry, and its payload
/// decodes as the text of `content` whenever the content is valid UTF-8:
/// which is what `cat`'s contract then returns.
pub proof fn lemma_create_then_read(
    disk: Seq<u8>,
    cursor: int,
    d: DirView,
    name: Seq<char>,
    ind: int,
    content: Seq<u8>,
)
    requires
        spec_dir_at(disk, cursor) == Some(
            DirView { parent: d.parent, files: d.files.push((ind, name)) },
        ),
        spec_find_index(d.files, name) is None,
        spec_inode_at(disk, ind) is Some,
        payload_in_disk(disk, spec_inode_at(disk, ind).unwrap()),
        spec_payload(disk, spec_inode_at(disk, ind).unwrap()) == spec_encode_content(content),
        valid_utf8(content),
        content.len() < 0x1_0000_0000_0000_0000,
    ensures
        ({
            let d2 = spec_dir_at(disk, cursor).unwrap();
            &&& spec_find_index(d2.files, name) == Some(d.files.len() as int)
            &&& d2.files[d.files.len() as int].0 == ind
            &&& spec_decode_text(spec_payload(disk, spec_inode_at(disk, ind).unwrap())) == Some(
                decode_utf8(content),
            )
        }),
{
    let d2 = spec_dir_at(disk, cursor).unwrap();
    lemma_find_index_char(d.files, name);
    lemma_find_index_char(d2.files, name);
    assert(d2.files[d.files.len() as int].1 == name);
    match spec_find_index(d2.files, name) {
        Some(k) => {
            if k < d.files.len() {
                assert(d2.files[k].1 == d.files[k].1);
                assert(false);
            }
        },
        None => {
            assert(false);
        },
    }
    crate::codec::lemma_content_round_trip(content);
}

/// Rewriting the two bitmap regions does not move any directory.
proof fn lemma_dir_at_preserved_bitmap_dumps(disk: Seq<u8>, b1: Seq<u8>, b2: Seq<u8>, i: int)
    requires
        0 <= i,
        spec_dir_at(disk, i) is Some,
        b1.len() == BLOCKS_BITMAP_SIZE,
        b2.len() == INODES_BITMAP_SIZE,
    ensures
        spec_dir_at(
            spec_write(
                spec_write(disk, DATA_BITMAP_OFFSET as int, b1),
                INODE_BITMAP_OFFSET as int,
                b2,
            ),
            i,
        ) == spec_dir_at(disk, i),
{
    let iv = spec_inode_at(disk, i).unwrap();
    crate::codec::lemma_decoded_inode_wf(disk.subrange(inode_off(i), inode_off(i) + INODE_SIZE));
    let d1 = spec_write(disk, DATA_BITMAP_OFFSET as int, b1);
    lemma_inode_at_frame(disk, DATA_BITMAP_OFFSET as int, b1, i);
    lemma_payload_frame_low_write(disk, DATA_BITMAP_OFFSET as int, b1, iv);
    lemma_inode_at_frame(d1, INODE_BITMAP_OFFSET as int, b2, i);
    lemma_payload_frame_low_write(d1, INODE_BITMAP_OFFSET as int, b2, iv);
}

/// True when the name holds a `/` anywhere.
fn contains_slash(name: &String) -> (r: bool)
    ensures
        r == name@.contains('/'),
{
    let st = name.as_str();
    let n = st.unicode_len();
    let mut i: usize = 0;
    while i < n
        invariant
            i <= n,
            n == st@.len(),
            st@ == name@,
            forall|j: int| 0 <= j < i ==> st@[j] != '/',
        decreases n - i,
    {
        if st.get_char(i) == '/' {
            proof {
                assert(name@[i as int] == '/');
            }
            return true;
        }
        i = i + 1;
    }
    proof {
        if name@.contains('/') {
            let k = choose|k: int| 0 <= k < name@.len() && name@[k] == '/';
            assert(false);
        }
    }
    false
}

/// On a fresh volume the root bootstrap takes inode slot 0 and data block 1:
/// the first free inode, and the first free block strictly after block 0.
proof fn lemma_fresh_mount_allocs(fs0: Fs, data: Seq<u8>)
    requires
        fs0.wf(),
        forall|j: int| !bit_taken(fs0.data_bits(), j),
        forall|j: int| !bit_taken(fs0.inode_bits(), j),
        0 < data.len() <= BLOCK_SIZE,
    ensures
        spec_find_free_from(fs0.inode_bits(), 0) == Some(0int),
        spec_choose_blocks(
            fs0.data_bits(),
            Seq::new(INODE_LINKS as nat, |k: int| 0),
            0,
            ceil_div(data.len() as int, BLOCK_SIZE as int),
        ) == Some(seq![1int]),
{
    let needed = ceil_div(data.len() as int, BLOCK_SIZE as int);
    assert(needed == 1);
    let zd = Seq::new(INODE_LINKS as nat, |k: int| 0int);
    assert(spec_choose_blocks(fs0.data_bits(), zd, 0, 0) == Some(Seq::<int>::empty()));
    assert(spec_find_free_from(fs0.data_bits(), 1) == Some(1int));
    assert(spec_find_free_from(fs0.inode_bits(), 0) == Some(0int));
    assert(Seq::<int>::empty().push(1int) =~= seq![1int]);
}

// ---------------------------------------------------------------------------
// The engine.
// ---------------------------------------------------------------------------
/// A mounted volume: the in-memory superblock and bitmaps, the storage, and
/// the current-directory cursor.
#[derive(Debug)]
pub struct Fs {
    superblock: Superblock,
    data_bitmap: DataBitmap,
    inode_bitmap: InodeBitmap,
    storage: Storage,
    /// The textual path of the current directory, `/`-terminated.
    pub cur_dir: String,
    cur_inode_ind: usize,
    path_names: Vec<String>,
}

impl Fs {
    /// The volume's bytes.
    pub closed spec fn disk(&self) -> Seq<u8> {
        self.storage@
    }

    /// The in-memory data-block bitmap bytes.
    pub closed spec fn data_bits(&self) -> Seq<u8> {
        self.data_bitmap.bits()
    }

    /// The in-memory inode bitmap bytes.
    pub closed spec fn inode_bits(&self) -> Seq<u8> {
        self.inode_bitmap.bits()
    }

    /// The inode index of the current directory.
    pub closed spec fn cursor(&self) -> int {
        self.cur_inode_ind as int
    }

    /// The current directory's path components.
    pub closed spec fn path(&self) -> Seq<Seq<char>> {
        self.path_names@.map_values(|s: String| s@)
    }

    /// The cursor's textual path.
    pub closed spec fn dir_text(&self) -> Seq<char> {
        self.cur_dir@
    }

    /// The engine's invariant: the superblock is the fixed default layout,
    /// the bitmaps have their fixed sizes, the cursor indexes a real inode
    /// slot, and the textual path mirrors the component stack.
    pub closed spec fn wf(&self) -> bool {
        &&& self.superblock == spec_default_superblock()
        &&& self.data_bits().len() == BLOCKS_BITMAP_SIZE
        &&& self.inode_bits().len() == INODES_BITMAP_SIZE
        &&& self.cur_inode_ind < INODES_COUNT
        &&& self.cur_dir@ == spec_path_text(self.path())
    }

    /// The cursor (inode index, path components and textual path) is
    /// unchanged.
    pub open spec fn session_unchanged(pre: Fs, post: Fs) -> bool {
        &&& post.dir_text() == pre.dir_text()
        &&& post.cursor() == pre.cursor()
        &&& post.path() == pre.path()
    }

    /// Nothing observable changed: neither the cursor, nor the volume, nor
    /// either in-memory bitmap.
    pub open spec fn unchanged(pre: Fs, post: Fs) -> bool {
        &&& Fs::session_unchanged(pre, post)
        &&& post.disk() == pre.disk()
        &&& post.data_bits() == pre.data_bits()
        &&& post.inode_bits() == pre.inode_bits()
    }

    /// The cursor's textual path.
    pub fn pwd(&self) -> (r: &String)
        ensures
            r@ == self.dir_text(),
    {
        &self.cur_dir
    }

    /// The volume's bytes, for a host program to persist.
    pub fn volume_bytes(&self) -> (r: &Vec<u8>)
        ensures
            r@ == self.disk(),
    {
        self.storage.as_bytes()
    }

    fn read_inode(&self, inode_ind: usize) -> (r: Result<Inode, FsError>)
        requires
            self.wf(),
            inode_ind < INODES_COUNT,
        ensures
            match spec_inode_at(self.disk(), inode_ind as int) {
                Some(iv) => r is Ok && r.unwrap().v() == iv && iv.wf(),
                None => r == Err::<Inode, FsError>(spec_inode_err(self.disk(), inode_ind as int)),
            },
    {
        proof {
            lemma_mul_bound(inode_ind as int, INODES_COUNT as int, INODE_SIZE as int);
        }
        let offset = self.superblock.inode_table + inode_ind * INODE_SIZE;
        let bytes = match self.storage.read(offset, INODE_SIZE) {
            Ok(b) => b,
            Err(e) => {
                return Err(e);
            },
        };
        let r = decode_inode(&bytes);
        proof {
            if spec_decode_inode(bytes@) is Some {
                crate::codec::lemma_decoded_inode_wf(bytes@);
            }
        }
        r
    }

    fn update_inode(&mut self, inode_ind: usize, inode: &Inode) -> (r: Result<(), FsError>)
        requires
            old(self).wf(),
            inode_ind < INODES_COUNT,
        ensures
            r is Ok,
            final(self).wf(),
            Fs::session_unchanged(*old(self), *final(self)),
            final(self).data_bits() == old(self).data_bits(),
            final(self).inode_bits() == old(self).inode_bits(),
            final(self).disk() == spec_write(
                old(self).disk(),
                inode_off(inode_ind as int),
                spec_encode_inode(inode.v()),
            ),
    {
        let bytes = encode_inode(inode);
        proof {
            lemma_mul_bound(inode_ind as int, INODES_COUNT as int, INODE_SIZE as int);
        }
        let offset = self.superblock.inode_table + inode_ind * INODE_SIZE;
        match self.storage.write(offset, bytes.as_slice()) {
            Ok(_) => Ok(()),
            Err(e) => Err(e),
        }
    }

    fn dump_inode_bitmap(&mut self) -> (r: Result<(), FsError>)
        requires
            old(self).wf(),
        ensures
            r is Ok,
            final(self).wf(),
            Fs::session_unchanged(*old(self), *final(self)),
            final(self).data_bits() == old(self).data_bits(),
            final(self).inode_bits() == old(self).inode_bits(),
            final(self).disk() == spec_write(
                old(self).disk(),
                INODE_BITMAP_OFFSET as int,
                old(self).inode_bits(),
            ),
    {
        let offset = self.superblock.inode_bitmap;
        match self.storage.write(offset, self.inode_bitmap.immutable()) {
            Ok(_) => Ok(()),
            Err(e) => Err(e),
        }
    }

    fn dump_data_bitmap(&mut self) -> (r: Result<(), FsError>)
        requires
            old(self).wf(),
        ensures
            r is Ok,
            final(self).wf(),
            Fs::session_unchanged(*old(self), *final(self)),
            final(self).data_bits() == old(self).data_bits(),
            final(self).inode_bits() == old(self).inode_bits(),
            final(self).disk() == spec_write(
                old(self).disk(),
                DATA_BITMAP_OFFSET as int,
                old(self).data_bits(),
            ),
    {
        let offset = self.superblock.data_bitmap;
        match self.storage.write(offset, self.data_bitmap.immutable()) {
            Ok(_) => Ok(()),
            Err(e) => Err(e),
        }
    }

    fn write_new_inode(&mut self, inode: &Inode) -> (r: Result<usize, FsError>)
        requires
            old(self).wf(),
        ensures
            final(self).wf(),
            Fs::session_unchanged(*old(self), *final(self)),
            final(self).data_bits() == old(self).data_bits(),
            match spec_find_free_from(old(self).inode_bits(), 0) {
                None => r == Err::<usize, FsError>(FsError::NoFreeInode) && Fs::unchanged(
                    *old(self),
                    *final(self),
                ),
                Some(ind) => {
                    &&& r == Ok::<usize, FsError>(ind as usize)
                    &&& 0 <= ind < INODES_COUNT
                    &&& !bit_taken(old(self).inode_bits(), ind)
                    &&& final(self).inode_bits() == spec_set_bit(old(self).inode_bits(), ind, true)
                    &&& final(self).disk() == spec_write(
                        spec_write(old(self).disk(), inode_off(ind), spec_encode_inode(inode.v())),
                        INODE_BITMAP_OFFSET as int,
                        spec_set_bit(old(self).inode_bits(), ind, true),
                    )
                },
            },
    {
        proof {
            crate::structure::lemma_find_free_from_char(self.inode_bits(), 0);
        }
        let ind = match self.inode_bitmap.find_free() {
            None => {
                return Err(FsError::NoFreeInode);
            },
            Some(i) => i,
        };
        proof {
            lemma_mul_bound(ind as int, INODES_COUNT as int, INODE_SIZE as int);
        }
        let offset = self.superblock.inode_table + ind * self.superblock.inode_size;
        let bytes = encode_inode(inode);
        match self.storage.write(offset, bytes.as_slice()) {
            Ok(_) => (),
            Err(e) => {
                return Err(e);
            },
        };
        match self.inode_bitmap.set(ind, true) {
            Ok(_) => (),
            Err(e) => {
                return Err(e);
            },
        };
        match self.dump_inode_bitmap() {
            Ok(_) => (),
            Err(e) => {
                return Err(e);
            },
        };
        Ok(ind)
    }

    fn free_inode(&mut self, inode_ind: usize) -> (r: Result<(), FsError>)
        requires
            old(self).wf(),
            inode_ind < INODES_COUNT,
        ensures
            final(self).wf(),
            Fs::session_unchanged(*old(self), *final(self)),
            match spec_inode_at(old(self).disk(), inode_ind as int) {
                None => r == Err::<(), FsError>(spec_inode_err(old(self).disk(), inode_ind as int))
                    && Fs::unchanged(*old(self), *final(self)),
                Some(iv) => {
                    &&& r is Ok
                    &&& final(self).data_bits() == spec_set_bits_list(
                        old(self).data_bits(),
                        iv.direct.subrange(0, iv.blocks()),
                        false,
                    )
                    &&& forall|j: int|
                        #![trigger bit_taken(final(self).data_bits(), j)]
                        bit_taken(final(self).data_bits(), j) == (bit_taken(
                            old(self).data_bits(),
                            j,
                        ) && !in_block_prefix(iv, j))
                    &&& final(self).inode_bits() == spec_set_bit(
                        old(self).inode_bits(),
                        inode_ind as int,
                        false,
                    )
                    &&& final(self).disk() == spec_write(
                        spec_write(
                            old(self).disk(),
                            DATA_BITMAP_OFFSET as int,
                            final(self).data_bits(),
                        ),
                        INODE_BITMAP_OFFSET as int,
                        final(self).inode_bits(),
                    )
                },
            },
    {
        let ghost pre = *self;
        let inode = match self.read_inode(inode_ind) {
            Ok(i) => i,
            Err(e) => {
                return Err(e);
            },
        };
        let ghost iv = inode.v();
        let blocks_taken = (inode.size + BLOCK_SIZE - 1) / BLOCK_SIZE;
        let mut i: usize = 0;
        proof {
            assert(iv.direct.subrange(0, 0) =~= Seq::<int>::empty());
        }
        while i < blocks_taken
            invariant
                self.wf(),
                iv.wf(),
                inode.v() == iv,
                i <= blocks_taken,
                blocks_taken == iv.blocks(),
                Fs::session_unchanged(pre, *self),
                self.disk() == pre.disk(),
                self.inode_bits() == pre.inode_bits(),
                self.data_bits() == spec_set_bits_list(
                    pre.data_bits(),
                    iv.direct.subrange(0, i as int),
                    false,
                ),
                forall|j: int|
                    #![trigger bit_taken(self.data_bits(), j)]
                    bit_taken(self.data_bits(), j) == (bit_taken(pre.data_bits(), j)
                        && !in_block_prefix_n(iv, i as int, j)),
            decreases blocks_taken - i,
        {
            let ghost mid = *self;
            proof {
                assert(0 <= iv.direct[i as int] < BLOCKS_COUNT);
                assert(inode.direct@[i as int] as int == iv.direct[i as int]);
            }
            match self.data_bitmap.set(inode.direct[i], false) {
                Ok(_) => (),
                Err(e) => {
                    proof {
                        assert(false);
                    }
                    return Err(e);
                },
            };
            i = i + 1;
            proof {
                assert(iv.direct.subrange(0, i as int).drop_last() =~= iv.direct.subrange(
                    0,
                    i - 1,
                ));
                assert(iv.direct.subrange(0, i as int).last() == iv.direct[i - 1]);
                assert forall|j: int|
                    bit_taken(self.data_bits(), j) == (bit_taken(pre.data_bits(), j)
                        && !in_block_prefix_n(iv, i as int, j)) by {
                    if j == iv.direct[i - 1] {
                        assert(in_block_prefix_n(iv, i as int, j));
                    } else {
                        assert(in_block_prefix_n(iv, i as int, j) == in_block_prefix_n(
                            iv,
                            i - 1,
                            j,
                        ));
                        assert(bit_taken(self.data_bits(), j) == bit_taken(mid.data_bits(), j));
                    }
                }
            }
        }
        match self.inode_bitmap.set(inode_ind, false) {
            Ok(_) => (),
            Err(e) => {
                return Err(e);
            },
        };
        match self.dump_data_bitmap() {
            Ok(_) => (),
            Err(e) => {
                return Err(e);
            },
        };
        match self.dump_inode_bitmap() {
            Ok(_) => (),
            Err(e) => {
                return Err(e);
            },
        };
        Ok(())
    }

    fn read_data(&self, inode: &Inode) -> (r: Result<Vec<u8>, FsError>)
        requires
            self.wf(),
            inode.v().wf(),
        ensures
            payload_in_disk(self.disk(), inode.v()) ==> r is Ok && r.unwrap()@ == spec_payload(
                self.disk(),
                inode.v(),
            ),
            !payload_in_disk(self.disk(), inode.v()) ==> r == Err::<Vec<u8>, FsError>(
                FsError::IoError,
            ),
    {
        let ghost iv = inode.v();
        let blocks = (inode.size + BLOCK_SIZE - 1) / BLOCK_SIZE;
        let mut left: usize = inode.size;
        let mut bytes: Vec<u8> = Vec::new();
        let mut k: usize = 0;
        while k < blocks
            invariant
                self.wf(),
                iv.wf(),
                inode.v() == iv,
                k <= blocks,
                blocks == iv.blocks(),
                left == if k < blocks {
                    iv.size - k * (BLOCK_SIZE as int)
                } else {
                    0
                },
                bytes@ == spec_payload_prefix(self.disk(), iv, k as int),
                forall|j: int|
                    0 <= j < k ==> block_off(#[trigger] iv.direct[j]) + chunk_len(iv.size, j)
                        <= self.disk().len(),
            decreases blocks - k,
        {
            proof {
                lemma_mul_bound(k as int, iv.blocks(), BLOCK_SIZE as int);
                assert(0 <= iv.direct[k as int] < BLOCKS_COUNT);
                assert(inode.direct@[k as int] as int == iv.direct[k as int]);
                lemma_mul_bound(iv.direct[k as int], BLOCKS_COUNT as int, BLOCK_SIZE as int);
            }
            let read = if left < BLOCK_SIZE {
                left
            } else {
                BLOCK_SIZE
            };
            let off = self.superblock.data_blocks + inode.direct[k] * BLOCK_SIZE;
            proof {
                assert(chunk_len(iv.size, k as int) == read);
                assert(off as int == block_off(iv.direct[k as int]));
            }
            let mut batch = match self.storage.read(off, read) {
                Ok(b) => b,
                Err(e) => {
                    proof {
                        assert(block_off(iv.direct[k as int]) + chunk_len(iv.size, k as int)
                            > self.disk().len());
                        assert(!payload_in_disk(self.disk(), iv));
                    }
                    return Err(e);
                },
            };
            bytes.append(&mut batch);
            left = left - read;
            k = k + 1;
            proof {
                lemma_mul_succ(k - 1, BLOCK_SIZE as int);
            }
        }
        proof {
            assert(payload_in_disk(self.disk(), iv));
            assert(bytes@ == spec_payload(self.disk(), iv));
        }
        Ok(bytes)
    }

    fn update_data(&mut self, inode: &mut Inode, data: &Vec<u8>) -> (r: Result<(), FsError>)
        requires
            old(self).wf(),
            old(inode).v().wf(),
        ensures
            final(self).wf(),
            Fs::session_unchanged(*old(self), *final(self)),
            final(self).inode_bits() == old(self).inode_bits(),
            data@.len() > INODE_LINKS * BLOCK_SIZE ==> r == Err::<(), FsError>(FsError::FileTooBig)
                && Fs::unchanged(*old(self), *final(self)) && *final(inode) == *old(inode),
            data@.len() <= INODE_LINKS * BLOCK_SIZE ==> (match spec_choose_blocks(
                old(self).data_bits(),
                old(inode).v().direct,
                old(inode).v().blocks(),
                ceil_div(data@.len() as int, BLOCK_SIZE as int),
            ) {
                None => r == Err::<(), FsError>(FsError::NoFreeBlock) && Fs::unchanged(
                    *old(self),
                    *final(self),
                ) && *final(inode) == *old(inode),
                Some(c) => {
                    let needed = ceil_div(data@.len() as int, BLOCK_SIZE as int);
                    let taken = old(inode).v().blocks();
                    &&& r is Ok
                    &&& final(inode).v().size == data@.len()
                    &&& final(inode).v().is_directory == old(inode).v().is_directory
                    &&& final(inode).v().direct == Seq::new(
                        INODE_LINKS as nat,
                        |k: int|
                            if k < needed {
                                c[k]
                            } else {
                                0
                            },
                    )
                    &&& final(inode).v().wf()
                    &&& forall|j: int|
                        #![trigger bit_taken(final(self).data_bits(), j)]
                        bit_taken(final(self).data_bits(), j) == (in_chosen(c, j) || (bit_taken(
                            old(self).data_bits(),
                            j,
                        ) && !in_surplus(old(inode).v().direct, needed, taken, j)))
                    &&& final(self).data_bits() == spec_update_bits(
                        old(self).data_bits(),
                        old(inode).v().direct,
                        taken,
                        needed,
                        c,
                    )
                    &&& final(self).disk() == spec_write(
                        spec_write_chunks(old(self).disk(), c, data@),
                        DATA_BITMAP_OFFSET as int,
                        final(self).data_bits(),
                    )
                },
            }),
    {
        let ghost pre = *old(self);
        let ghost iv0 = old(inode).v();
        if data.len() > INODE_LINKS * BLOCK_SIZE {
            return Err(FsError::FileTooBig);
        }
        let blocks_taken = (inode.size + BLOCK_SIZE - 1) / BLOCK_SIZE;
        let blocks_needed = (data.len() + BLOCK_SIZE - 1) / BLOCK_SIZE;
        let ghost needed = blocks_needed as int;
        let ghost taken = blocks_taken as int;
        let mut indices: Vec<usize> = Vec::new();
        let mut i: usize = 0;
        proof {
            assert(indices@.map_values(|x: usize| x as int) =~= Seq::<int>::empty());
        }
        while i < blocks_needed
            invariant
                i <= blocks_needed,
                *self == pre,
                *inode == *old(inode),
                pre.wf(),
                iv0 == old(inode).v(),
                iv0.wf(),
                data@.len() <= INODE_LINKS * BLOCK_SIZE,
                blocks_needed == needed,
                blocks_taken == taken,
                taken == iv0.blocks(),
                needed == ceil_div(data@.len() as int, BLOCK_SIZE as int),
                spec_choose_blocks(pre.data_bits(), iv0.direct, taken, i as int) == Some(
                    indices@.map_values(|x: usize| x as int),
                ),
            decreases blocks_needed - i,
        {
            let ghost cpre = indices@.map_values(|x: usize| x as int);
            proof {
                lemma_choose_blocks_props(pre.data_bits(), iv0.direct, taken, i as int);
            }
            proof {
                assert(cpre.len() == i as int);
            }
            if i < blocks_taken {
                indices.push(inode.direct[i]);
                proof {
                    assert(indices@.map_values(|x: usize| x as int) =~= cpre.push(
                        iv0.direct[i as int],
                    ));
                    assert(spec_choose_blocks(pre.data_bits(), iv0.direct, taken, i + 1) == Some(
                        cpre.push(iv0.direct[i as int]),
                    ));
                }
            } else {
                let from = if indices.len() == 0 {
                    0
                } else {
                    indices[indices.len() - 1]
                };
                proof {
                    if indices.len() > 0 {
                        assert(cpre.last() == from as int);
                    }
                }
                match self.data_bitmap.find_free_from(from + 1) {
                    None => {
                        proof {
                            assert(spec_choose_blocks(
                                pre.data_bits(),
                                iv0.direct,
                                taken,
                                i + 1,
                            ) is None);
                            lemma_choose_none_mono(pre.data_bits(), iv0.direct, taken, i + 1, needed);
                        }
                        return Err(FsError::NoFreeBlock);
                    },
                    Some(f) => {
                        indices.push(f);
                        proof {
                            assert(indices@.map_values(|x: usize| x as int) =~= cpre.push(f as int));
                            crate::structure::lemma_find_free_from_char(
                                pre.data_bits(),
                                from as int + 1,
                            );
                            assert(f as int == spec_find_free_from(
                                pre.data_bits(),
                                from + 1,
                            ).unwrap());
                            assert(spec_choose_blocks(pre.data_bits(), iv0.direct, taken, i + 1)
                                == Some(cpre.push(f as int)));
                        }
                    },
                }
            }
            i = i + 1;
        }
        let ghost c = indices@.map_values(|x: usize| x as int);
        proof {
            lemma_choose_blocks_props(pre.data_bits(), iv0.direct, taken, needed);
        }
        if blocks_needed < blocks_taken {
            let mut k: usize = blocks_needed;
            proof {
                assert forall|j: int|
                    bit_taken(self.data_bits(), j) == (bit_taken(pre.data_bits(), j)
                        && !in_surplus(iv0.direct, needed, blocks_needed as int, j)) by {
                    assert(!in_surplus(iv0.direct, needed, blocks_needed as int, j));
                }
                assert(iv0.direct.subrange(needed, needed) =~= Seq::<int>::empty());
                assert(self.data_bits() == spec_set_bits_list(
                    pre.data_bits(),
                    iv0.direct.subrange(needed, needed),
                    false,
                ));
            }
            while k < blocks_taken
                invariant
                    blocks_needed <= k <= blocks_taken,
                    self.wf(),
                    *inode == *old(inode),
                    iv0 == old(inode).v(),
                    iv0.wf(),
                    blocks_taken == taken,
                    taken == iv0.blocks(),
                    needed == blocks_needed as int,
                    Fs::session_unchanged(pre, *self),
                    self.disk() == pre.disk(),
                    self.inode_bits() == pre.inode_bits(),
                    self.data_bits() == spec_set_bits_list(
                        pre.data_bits(),
                        iv0.direct.subrange(needed, k as int),
                        false,
                    ),
                    forall|j: int|
                        #![trigger bit_taken(self.data_bits(), j)]
                        bit_taken(self.data_bits(), j) == (bit_taken(pre.data_bits(), j)
                            && !in_surplus(iv0.direct, needed, k as int, j)),
                decreases blocks_taken - k,
            {
                let ghost mid = *self;
                proof {
                    assert(0 <= iv0.direct[k as int] < BLOCKS_COUNT);
                    assert(inode.direct@[k as int] as int == iv0.direct[k as int]);
                }
                match self.data_bitmap.set(inode.direct[k], false) {
                    Ok(_) => (),
                    Err(e) => {
                        proof {
                            assert(false);
                        }
                        return Err(e);
                    },
                };
                k = k + 1;
                proof {
                    assert(iv0.direct.subrange(needed, k as int).drop_last() =~= iv0.direct.subrange(
                        needed,
                        k - 1,
                    ));
                    assert(iv0.direct.subrange(needed, k as int).last() == iv0.direct[k - 1]);
                    assert forall|j: int|
                        bit_taken(self.data_bits(), j) == (bit_taken(pre.data_bits(), j)
                            && !in_surplus(iv0.direct, needed, k as int, j)) by {
                        if j == iv0.direct[k - 1] {
                            assert(in_surplus(iv0.direct, needed, k as int, j));
                        } else {
                            assert(in_surplus(iv0.direct, needed, k as int, j) == in_surplus(
                                iv0.direct,
                                needed,
                                k - 1,
                                j,
                            ));
                            assert(bit_taken(self.data_bits(), j) == bit_taken(
                                mid.data_bits(),
                                j,
                            ));
                        }
                    }
                }
            }
            proof {
                assert(self.data_bits() == spec_set_bits_list(
                    pre.data_bits(),
                    spec_surplus_list(iv0.direct, taken, needed),
                    false,
                ));
            }
        } else {
            proof {
                assert forall|j: int|
                    bit_taken(self.data_bits(), j) == (bit_taken(pre.data_bits(), j)
                        && !in_surplus(iv0.direct, needed, taken, j)) by {
                    assert(!in_surplus(iv0.direct, needed, taken, j));
                }
                assert(spec_surplus_list(iv0.direct, taken, needed) =~= Seq::<int>::empty());
                assert(self.data_bits() == spec_set_bits_list(
                    pre.data_bits(),
                    spec_surplus_list(iv0.direct, taken, needed),
                    false,
                ));
            }
        }
        let mut direct: [usize; 12] = [0; 12];
        let mut k2: usize = 0;
        while k2 < blocks_needed
            invariant
                k2 <= blocks_needed,
                blocks_needed == needed,
                needed <= INODE_LINKS,
                indices@.len() == needed,
                c == indices@.map_values(|x: usize| x as int),
                forall|j: int| 0 <= j < k2 ==> #[trigger] direct@[j] == indices@[j],
                forall|j: int| k2 <= j < INODE_LINKS ==> #[trigger] direct@[j] == 0usize,
            decreases blocks_needed - k2,
        {
            direct[k2] = indices[k2];
            k2 = k2 + 1;
        }
        let ghost cleared = self.data_bits();
        let mut k: usize = 0;
        proof {
            assert(c.take(0) =~= Seq::<int>::empty());
        }
        while k < blocks_needed
            invariant
                k <= blocks_needed,
                self.wf(),
                pre.wf(),
                blocks_needed == needed,
                needed <= INODE_LINKS,
                data@.len() <= INODE_LINKS * BLOCK_SIZE,
                needed == ceil_div(data@.len() as int, BLOCK_SIZE as int),
                indices@.len() == needed,
                c == indices@.map_values(|x: usize| x as int),
                forall|j: int| 0 <= j < needed ==> 0 <= #[trigger] c[j] < BLOCKS_COUNT,
                Fs::session_unchanged(pre, *self),
                self.inode_bits() == pre.inode_bits(),
                self.disk() == spec_write_chunks(pre.disk(), c.take(k as int), data@),
                cleared == spec_set_bits_list(
                    pre.data_bits(),
                    spec_surplus_list(iv0.direct, taken, needed),
                    false,
                ),
                self.data_bits() == spec_set_bits_list(cleared, c.take(k as int), true),
                forall|j: int|
                    #![trigger bit_taken(self.data_bits(), j)]
                    bit_taken(self.data_bits(), j) == (in_chosen(c.take(k as int), j) || (
                    bit_taken(cleared, j))),
                self.data_bits().len() == BLOCKS_BITMAP_SIZE,
            decreases blocks_needed - k,
        {
            let ghost mid = *self;
            let ind = indices[k];
            proof {
                assert(c[k as int] == ind as int);
                lemma_mul_bound(k as int, INODE_LINKS as int, BLOCK_SIZE as int);
                lemma_mul_bound(ind as int, BLOCKS_COUNT as int, BLOCK_SIZE as int);
            }
            let from_b = k * BLOCK_SIZE;
            let to_b = if data.len() < from_b + BLOCK_SIZE {
                data.len()
            } else {
                from_b + BLOCK_SIZE
            };
            proof {
                assert(needed * BLOCK_SIZE >= data@.len()) by (nonlinear_arith)
                    requires
                        needed == ceil_div(data@.len() as int, BLOCK_SIZE as int),
                        data@.len() >= 0,
                ;
                assert((k as int) * (BLOCK_SIZE as int) < data@.len()) by (nonlinear_arith)
                    requires
                        0 <= k < needed,
                        needed == ceil_div(data@.len() as int, BLOCK_SIZE as int),
                ;
            }
            let write_from = self.superblock.data_blocks + ind * BLOCK_SIZE;
            let slice = vstd::slice::slice_subrange(data.as_slice(), from_b, to_b);
            proof {
                assert(slice@ =~= spec_chunk(data@, k as int));
            }
            match self.storage.write(write_from, slice) {
                Ok(_) => (),
                Err(e) => {
                    proof {
                        assert(false);
                    }
                    return Err(e);
                },
            };
            match self.data_bitmap.set(ind, true) {
                Ok(_) => (),
                Err(e) => {
                    proof {
                        assert(false);
                    }
                    return Err(e);
                },
            };
            k = k + 1;
            proof {
                assert(c.take(k as int).drop_last() =~= c.take(k - 1));
                assert(c.take(k as int).last() == c[k - 1]);
                assert(self.disk() == spec_write_chunks(pre.disk(), c.take(k as int), data@));
                assert(self.data_bits() == spec_set_bits_list(cleared, c.take(k as int), true));
                assert forall|j: int|
                    bit_taken(self.data_bits(), j) == (in_chosen(c.take(k as int), j) || (
                    bit_taken(cleared, j))) by {
                    if j == c[k - 1] {
                        assert(c.take(k as int)[k - 1] == j);
                        assert(in_chosen(c.take(k as int), j));
                    } else {
                        assert(in_chosen(c.take(k as int), j) == in_chosen(c.take(k - 1), j));
                        assert(bit_taken(self.data_bits(), j) == bit_taken(mid.data_bits(), j));
                    }
                }
            }
        }
        match self.dump_data_bitmap() {
            Ok(_) => (),
            Err(e) => {
                proof {
                    assert(false);
                }
                return Err(e);
            },
        };
        inode.size = data.len();
        inode.direct = direct;
        proof {
            assert(c.take(needed) =~= c);
            assert(final(self).data_bits() == spec_update_bits(
                pre.data_bits(),
                iv0.direct,
                taken,
                needed,
                c,
            ));
            assert(final(inode).v().direct =~= Seq::new(
                INODE_LINKS as nat,
                |kk: int|
                    if kk < needed {
                        c[kk]
                    } else {
                        0
                    },
            ));
            assert forall|j: int|
                bit_taken(final(self).data_bits(), j) == (in_chosen(c, j) || (bit_taken(
                    pre.data_bits(),
                    j,
                ) && !in_surplus(iv0.direct, needed, taken, j))) by {
            }
            assert(final(inode).v().wf()) by {
                lemma_choose_blocks_props(pre.data_bits(), iv0.direct, taken, needed);
                assert(final(inode).v().blocks() == needed);
            }
        }
        Ok(())
    }

    fn write_data(&mut self, is_directory: bool, data: &Vec<u8>) -> (r: Result<
        (usize, Inode),
        FsError,
    >)
        requires
            old(self).wf(),
        ensures
            final(self).wf(),
            Fs::session_unchanged(*old(self), *final(self)),
            data@.len() > INODE_LINKS * BLOCK_SIZE ==> r == Err::<(usize, Inode), FsError>(
                FsError::FileTooBig,
            ) && Fs::unchanged(*old(self), *final(self)),
            data@.len() <= INODE_LINKS * BLOCK_SIZE ==> (match spec_choose_blocks(
                old(self).data_bits(),
                Seq::new(INODE_LINKS as nat, |k: int| 0),
                0,
                ceil_div(data@.len() as int, BLOCK_SIZE as int),
            ) {
                None => r == Err::<(usize, Inode), FsError>(FsError::NoFreeBlock) && Fs::unchanged(
                    *old(self),
                    *final(self),
                ),
                Some(c) => {
                    let needed = ceil_div(data@.len() as int, BLOCK_SIZE as int);
                    let iv2 = InodeV {
                        size: data@.len() as int,
                        is_directory,
                        direct: Seq::new(
                            INODE_LINKS as nat,
                            |k: int|
                                if k < needed {
                                    c[k]
                                } else {
                                    0
                                },
                        ),
                    };
                    let bitdump = spec_write(
                        spec_write_chunks(old(self).disk(), c, data@),
                        DATA_BITMAP_OFFSET as int,
                        final(self).data_bits(),
                    );
                    &&& iv2.wf()
                    &&& final(self).data_bits() == spec_set_bits_list(
                        old(self).data_bits(),
                        c,
                        true,
                    )
                    &&& (forall|j: int|
                        #![trigger bit_taken(final(self).data_bits(), j)]
                        bit_taken(final(self).data_bits(), j) == (in_chosen(c, j) || bit_taken(
                            old(self).data_bits(),
                            j,
                        )))
                    &&& (match spec_find_free_from(old(self).inode_bits(), 0) {
                        None => r == Err::<(usize, Inode), FsError>(FsError::NoFreeInode)
                            && final(self).disk() == bitdump
                            && final(self).inode_bits() == old(self).inode_bits(),
                        Some(ind) => {
                            &&& r is Ok
                            &&& r.unwrap().0 == ind as usize
                            &&& r.unwrap().1.v() == iv2
                            &&& 0 <= ind < INODES_COUNT
                            &&& !bit_taken(old(self).inode_bits(), ind)
                            &&& final(self).inode_bits() == spec_set_bit(
                                old(self).inode_bits(),
                                ind,
                                true,
                            )
                            &&& final(self).disk() == spec_write(
                                spec_write(bitdump, inode_off(ind), spec_encode_inode(iv2)),
                                INODE_BITMAP_OFFSET as int,
                                final(self).inode_bits(),
                            )
                        },
                    })
                },
            }),
    {
        let mut inode = Inode { size: 0, is_directory, direct: [0; 12] };
        proof {
            assert(inode.v().direct =~= Seq::new(INODE_LINKS as nat, |k: int| 0));
            assert(inode.v().blocks() == 0);
        }
        match self.update_data(&mut inode, data) {
            Ok(_) => (),
            Err(e) => {
                return Err(e);
            },
        };
        let inode_ind = match self.write_new_inode(&inode) {
            Ok(i) => i,
            Err(e) => {
                return Err(e);
            },
        };
        proof {
            assert(spec_set_bits_list(old(self).data_bits(), Seq::<int>::empty(), false) == old(
                self,
            ).data_bits());
        }
        Ok((inode_ind, inode))
    }

    fn read_cur_dir(&self) -> (r: Result<(Inode, Directory), FsError>)
        requires
            self.wf(),
        ensures
            match spec_dir_at(self.disk(), self.cursor()) {
                Some(d) => {
                    &&& r is Ok
                    &&& r.unwrap().1.v() == d
                    &&& Some(r.unwrap().0.v()) == spec_inode_at(self.disk(), self.cursor())
                    &&& r.unwrap().0.v().wf()
                    &&& d.wf()
                },
                None => r == Err::<(Inode, Directory), FsError>(
                    spec_dir_err(self.disk(), self.cursor()),
                ),
            },
    {
        let inode = match self.read_inode(self.cur_inode_ind) {
            Ok(i) => i,
            Err(e) => {
                return Err(e);
            },
        };
        let bytes = match self.read_data(&inode) {
            Ok(b) => b,
            Err(e) => {
                return Err(e);
            },
        };
        let r = decode_directory(&bytes);
        proof {
            if spec_decode_dir(bytes@) is Some {
                crate::codec::lemma_decoded_dir_wf(bytes@);
            }
        }
        match r {
            Ok(d) => Ok((inode, d)),
            Err(e) => Err(e),
        }
    }

    fn find_entry(files: &Vec<(usize, String)>, name: &String) -> (r: Option<usize>)
        ensures
            match r {
                Some(i) => i < files@.len() && files@[i as int].1@ == name@ && forall|j: int|
                    0 <= j < i ==> #[trigger] files@[j].1@ != name@,
                None => forall|j: int| 0 <= j < files@.len() ==> #[trigger] files@[j].1@ != name@,
            },
    {
        let n = files.len();
        let mut i: usize = 0;
        while i < n
            invariant
                i <= n,
                n == files@.len(),
                forall|j: int| 0 <= j < i ==> #[trigger] files@[j].1@ != name@,
            decreases n - i,
        {
            if files[i].1 == *name {
                return Some(i);
            }
            i = i + 1;
        }
        None
    }

    /// The names of the current directory's entries, in insertion order,
    /// followed by `..` when the directory has a parent.
    pub fn ls(&self) -> (r: Result<Vec<String>, FsError>)
        requires
            self.wf(),
        ensures
            match spec_dir_at(self.disk(), self.cursor()) {
                Some(d) => r is Ok && r.unwrap()@.map_values(|s: String| s@) == d.names() + (
                if d.parent is Some {
                    seq![".."@]
                } else {
                    Seq::<Seq<char>>::empty()
                }),
                None => r == Err::<Vec<String>, FsError>(
                    spec_dir_err(self.disk(), self.cursor()),
                ),
            },
    {
        let (_inode, dir) = match self.read_cur_dir() {
            Ok(p) => p,
            Err(e) => {
                return Err(e);
            },
        };
        let ghost d = dir.v();
        let mut names: Vec<String> = Vec::new();
        let n = dir.files.len();
        let mut i: usize = 0;
        proof {
            assert(names@.map_values(|s: String| s@) =~= d.names().take(0));
        }
        while i < n
            invariant
                i <= n,
                n == dir.files@.len(),
                d == dir.v(),
                d.names().len() == n,
                names@.len() == i,
                names@.map_values(|s: String| s@) == d.names().take(i as int),
            decreases n - i,
        {
            names.push(dir.files[i].1.clone());
            i = i + 1;
            proof {
                assert(names@[i - 1] == dir.files@[i - 1].1);
                assert(d.files[i - 1] == crate::codec::entry_view(dir.files@[i - 1]));
                assert(d.names()[i - 1] == dir.files@[i - 1].1@);
                assert(names@.map_values(|s: String| s@) =~= d.names().take(i as int));
            }
        }
        proof {
            assert(d.names().take(n as int) =~= d.names());
        }
        if dir.parent_inode_ind.is_some() {
            names.push(String::from_str(".."));
            proof {
                assert(names@.map_values(|s: String| s@) =~= d.names() + seq![".."@]);
            }
        } else {
            proof {
                assert(names@.map_values(|s: String| s@) =~= d.names() + Seq::<Seq<char>>::empty());
            }
        }
        Ok(names)
    }

    /// The content of the named file in the current directory, as text.
    pub fn cat(&self, filename: String) -> (r: Result<String, FsError>)
        requires
            self.wf(),
        ensures
            match spec_dir_at(self.disk(), self.cursor()) {
                Some(d) => (match spec_find_index(d.files, filename@) {
                    None => r == Err::<String, FsError>(FsError::NotFound(filename)),
                    Some(k) => (match spec_inode_at(self.disk(), d.files[k].0) {
                        None => r == Err::<String, FsError>(
                            spec_inode_err(self.disk(), d.files[k].0),
                        ),
                        Some(iv) => if !payload_in_disk(self.disk(), iv) {
                            r == Err::<String, FsError>(FsError::IoError)
                        } else {
                            match spec_decode_text(spec_payload(self.disk(), iv)) {
                                Some(t) => r is Ok && r.unwrap()@ == t,
                                None => r == Err::<String, FsError>(FsError::CodecError),
                            }
                        },
                    }),
                }),
                None => r == Err::<String, FsError>(spec_dir_err(self.disk(), self.cursor())),
            },
    {
        let (_inode, dir) = match self.read_cur_dir() {
            Ok(p) => p,
            Err(e) => {
                return Err(e);
            },
        };
        let ghost d = dir.v();
        let i = match Self::find_entry(&dir.files, &filename) {
            Some(i) => {
                proof {
                    assert forall|j: int| 0 <= j < i implies #[trigger] d.files[j].1
                        != filename@ by {
                        assert(d.files[j] == crate::codec::entry_view(dir.files@[j]));
                    }
                    assert(d.files[i as int] == crate::codec::entry_view(dir.files@[i as int]));
                    lemma_index_of_match(d.files, filename@, i as int);
                }
                i
            },
            None => {
                proof {
                    assert forall|j: int| 0 <= j < d.files.len() implies #[trigger] d.files[j].1
                        != filename@ by {
                        assert(d.files[j] == crate::codec::entry_view(dir.files@[j]));
                    }
                    lemma_index_of_none(d.files, filename@);
                }
                return Err(FsError::NotFound(filename));
            },
        };
        proof {
            lemma_find_index_char(d.files, filename@);
            assert(d.files[i as int].0 == dir.files@[i as int].0 as int);
        }
        let data_inode_ind = dir.files[i].0;
        let data_inode = match self.read_inode(data_inode_ind) {
            Ok(inode) => inode,
            Err(e) => {
                return Err(e);
            },
        };
        let bytes = match self.read_data(&data_inode) {
            Ok(b) => b,
            Err(e) => {
                return Err(e);
            },
        };
        decode_text(&bytes)
    }

    /// Create an entry named `filename` in the current directory, holding the
    /// given encoded payload. Fails when an entry of that name already
    /// exists; on success the current directory decodes afterwards to its old
    /// entries followed by the new one, whose inode is the first slot that
    /// was free.
    #[verifier::rlimit(100)]
    pub fn new_file(&mut self, filename: String, payload: &Vec<u8>, is_directory: bool) -> (r:
        Result<(), FsError>)
        requires
            old(self).wf(),
        ensures
            final(self).wf(),
            Fs::session_unchanged(*old(self), *final(self)),
            match spec_dir_at(old(self).disk(), old(self).cursor()) {
                None => r == Err::<(), FsError>(spec_dir_err(old(self).disk(), old(self).cursor()))
                    && Fs::unchanged(*old(self), *final(self)),
                Some(d) => (match spec_find_index(d.files, filename@) {
                    Some(_) => r == Err::<(), FsError>(FsError::AlreadyExists(filename))
                        && Fs::unchanged(*old(self), *final(self)),
                    None => {
                        &&& (r is Err ==> (r == Err::<(), FsError>(FsError::FileTooBig) || r
                            == Err::<(), FsError>(FsError::NoFreeBlock) || r == Err::<(), FsError>(
                            FsError::NoFreeInode,
                        )))
                        &&& (r is Ok ==> spec_find_free_from(old(self).inode_bits(), 0) is Some
                            && spec_dir_at(final(self).disk(), old(self).cursor()) == Some(
                            DirView {
                                parent: d.parent,
                                files: d.files.push(
                                    (
                                        spec_find_free_from(old(self).inode_bits(), 0).unwrap(),
                                        filename@,
                                    ),
                                ),
                            },
                        ))
                        &&& (r is Ok && dir_backed(
                            old(self).disk(),
                            old(self).data_bits(),
                            old(self).inode_bits(),
                            old(self).cursor(),
                        ) ==> ({
                            let c1 = spec_choose_blocks(
                                old(self).data_bits(),
                                Seq::new(INODE_LINKS as nat, |k: int| 0),
                                0,
                                ceil_div(payload@.len() as int, BLOCK_SIZE as int),
                            ).unwrap();
                            let new_ind = spec_find_free_from(old(self).inode_bits(), 0).unwrap();
                            let iv_file = InodeV {
                                size: payload@.len() as int,
                                is_directory,
                                direct: Seq::new(
                                    INODE_LINKS as nat,
                                    |k: int|
                                        if k < ceil_div(payload@.len() as int, BLOCK_SIZE as int) {
                                            c1[k]
                                        } else {
                                            0
                                        },
                                ),
                            };
                            &&& spec_inode_at(final(self).disk(), new_ind) == Some(iv_file)
                            &&& payload_in_disk(final(self).disk(), iv_file)
                            &&& spec_payload(final(self).disk(), iv_file) == payload@
                        }))
                        &&& ((payload@.len() <= INODE_LINKS * BLOCK_SIZE && spec_choose_blocks(
                            old(self).data_bits(),
                            Seq::new(INODE_LINKS as nat, |k: int| 0),
                            0,
                            ceil_div(payload@.len() as int, BLOCK_SIZE as int),
                        ) is Some && spec_find_free_from(old(self).inode_bits(), 0) is Some
                            && spec_encode_dir(
                            DirView {
                                parent: d.parent,
                                files: d.files.push(
                                    (
                                        spec_find_free_from(old(self).inode_bits(), 0).unwrap(),
                                        filename@,
                                    ),
                                ),
                            },
                        ).len() <= spec_inode_at(old(self).disk(), old(self).cursor()).unwrap().blocks()
                            * (BLOCK_SIZE as int)) ==> r is Ok)
                        &&& (r is Ok ==> ({
                            let new_ind = spec_find_free_from(old(self).inode_bits(), 0).unwrap();
                            let iv_dir = spec_inode_at(
                                old(self).disk(),
                                old(self).cursor(),
                            ).unwrap();
                            let c1 = spec_choose_blocks(
                                old(self).data_bits(),
                                Seq::new(INODE_LINKS as nat, |k: int| 0),
                                0,
                                ceil_div(payload@.len() as int, BLOCK_SIZE as int),
                            ).unwrap();
                            let mid_bits = spec_set_bits_list(old(self).data_bits(), c1, true);
                            let needed2 = ceil_div(
                                spec_encode_dir(
                                    DirView {
                                        parent: d.parent,
                                        files: d.files.push((new_ind, filename@)),
                                    },
                                ).len() as int,
                                BLOCK_SIZE as int,
                            );
                            let c2 = spec_choose_blocks(
                                mid_bits,
                                iv_dir.direct,
                                iv_dir.blocks(),
                                needed2,
                            ).unwrap();
                            &&& final(self).inode_bits() == spec_set_bit(
                                old(self).inode_bits(),
                                new_ind,
                                true,
                            )
                            &&& bit_taken(final(self).inode_bits(), new_ind)
                            &&& final(self).data_bits() == spec_update_bits(
                                mid_bits,
                                iv_dir.direct,
                                iv_dir.blocks(),
                                needed2,
                                c2,
                            )
                            &&& final(self).disk().subrange(
                                DATA_BITMAP_OFFSET as int,
                                DATA_BITMAP_OFFSET + BLOCKS_BITMAP_SIZE,
                            ) == final(self).data_bits()
                            &&& final(self).disk().subrange(
                                INODE_BITMAP_OFFSET as int,
                                INODE_BITMAP_OFFSET + INODES_BITMAP_SIZE,
                            ) == final(self).inode_bits()
                        }))
                        &&& (r is Ok ==> (forall|i2: int|
                            #![trigger spec_inode_at(final(self).disk(), i2)]
                            0 <= i2 < INODES_COUNT && i2 != old(self).cursor() && i2
                                != spec_find_free_from(old(self).inode_bits(), 0).unwrap()
                                && inode_region_in_disk(old(self).disk(), i2)
                                ==> spec_inode_at(final(self).disk(), i2) == spec_inode_at(
                                old(self).disk(),
                                i2,
                            )))
                    },
                }),
            },
    {
        let ghost pre = *old(self);
        let (mut cur_dir_inode, mut cur_dir) = match self.read_cur_dir() {
            Ok(p) => p,
            Err(e) => {
                return Err(e);
            },
        };
        let ghost d = cur_dir.v();
        let ghost iv_dir = cur_dir_inode.v();
        match Self::find_entry(&cur_dir.files, &filename) {
            Some(i) => {
                proof {
                    assert forall|j: int| 0 <= j < i implies #[trigger] d.files[j].1
                        != filename@ by {
                        assert(d.files[j] == crate::codec::entry_view(cur_dir.files@[j]));
                    }
                    assert(d.files[i as int] == crate::codec::entry_view(cur_dir.files@[i as int]));
                    lemma_index_of_match(d.files, filename@, i as int);
                }
                return Err(FsError::AlreadyExists(filename));
            },
            None => {
                proof {
                    assert forall|j: int| 0 <= j < d.files.len() implies #[trigger] d.files[j].1
                        != filename@ by {
                        assert(d.files[j] == crate::codec::entry_view(cur_dir.files@[j]));
                    }
                    lemma_index_of_none(d.files, filename@);
                }
            },
        };
        let (data_inode_ind, _new_inode) = match self.write_data(is_directory, payload) {
            Ok(p) => p,
            Err(e) => {
                return Err(e);
            },
        };
        let ghost s1 = *self;
        let ghost new_ind = spec_find_free_from(pre.inode_bits(), 0).unwrap();
        cur_dir.files.push((data_inode_ind, filename));
        let ghost dnew = cur_dir.v();
        proof {
            assert(dnew.files =~= d.files.push((data_inode_ind as int, filename@)));
        }
        let dirbytes = encode_directory(&cur_dir);
        match self.update_data(&mut cur_dir_inode, &dirbytes) {
            Ok(_) => (),
            Err(e) => {
                proof {
                    if spec_encode_dir(
                        DirView { parent: d.parent, files: d.files.push((new_ind, filename@)) },
                    ).len() <= iv_dir.blocks() * (BLOCK_SIZE as int) {
                        assert(new_ind == data_inode_ind as int);
                        assert(dnew == (DirView {
                            parent: d.parent,
                            files: d.files.push((new_ind, filename@)),
                        }));
                        assert(dirbytes@.len() <= iv_dir.blocks() * (BLOCK_SIZE as int));
                        lemma_mul_bound(iv_dir.blocks() - 1, INODE_LINKS as int, BLOCK_SIZE as int);
                        assert(ceil_div(dirbytes@.len() as int, BLOCK_SIZE as int)
                            <= iv_dir.blocks()) by (nonlinear_arith)
                            requires
                                dirbytes@.len() <= iv_dir.blocks() * (BLOCK_SIZE as int),
                                dirbytes@.len() >= 0,
                                iv_dir.blocks() >= 0,
                        ;
                        lemma_choose_reuse_only(
                            s1.data_bits(),
                            iv_dir.direct,
                            iv_dir.blocks(),
                            ceil_div(dirbytes@.len() as int, BLOCK_SIZE as int),
                        );
                        assert(false);
                    }
                }
                return Err(e);
            },
        };
        let ghost s2 = *self;
        let ghost iv2 = cur_dir_inode.v();
        let ci = self.cur_inode_ind;
        match self.update_inode(ci, &cur_dir_inode) {
            Ok(_) => (),
            Err(e) => {
                return Err(e);
            },
        };
        proof {
            let data = dirbytes@;
            let needed = ceil_div(data.len() as int, BLOCK_SIZE as int);
            let taken = iv_dir.blocks();
            let c2 = spec_choose_blocks(s1.data_bits(), iv_dir.direct, taken, needed).unwrap();
            lemma_choose_blocks_props(s1.data_bits(), iv_dir.direct, taken, needed);
            assert(iv2.blocks() == needed);
            assert(forall|k: int| 0 <= k < needed ==> #[trigger] iv2.direct[k] == c2[k]);
            crate::codec::lemma_inode_round_trip(iv2);
            lemma_update_payload_round_trip(s1.disk(), c2, data, iv2, s2.data_bits());
            lemma_mul_bound(pre.cursor(), INODES_COUNT as int, INODE_SIZE as int);
            let bitdump = spec_write(
                spec_write_chunks(s1.disk(), c2, data),
                DATA_BITMAP_OFFSET as int,
                s2.data_bits(),
            );
            lemma_payload_frame_low_write(
                bitdump,
                inode_off(pre.cursor()),
                spec_encode_inode(iv2),
                iv2,
            );
            lemma_write_read(bitdump, inode_off(pre.cursor()), spec_encode_inode(iv2));
            assert(spec_inode_at(self.disk(), pre.cursor()) == Some(iv2));
            crate::codec::lemma_dir_round_trip(dnew);
            assert(spec_dir_at(self.disk(), pre.cursor()) == Some(dnew));
            let zdu = Seq::new(INODE_LINKS as nat, |k: int| 0int);
            let needed1u = ceil_div(payload@.len() as int, BLOCK_SIZE as int);
            let c1u = spec_choose_blocks(pre.data_bits(), zdu, 0, needed1u).unwrap();
            let ivfu = InodeV {
                size: payload@.len() as int,
                is_directory,
                direct: Seq::new(
                    INODE_LINKS as nat,
                    |k: int|
                        if k < needed1u {
                            c1u[k]
                        } else {
                            0
                        },
                ),
            };
            assert(new_ind == data_inode_ind as int);
            assert(final(self).inode_bits() == spec_set_bit(pre.inode_bits(), new_ind, true));
            assert(0 <= new_ind < INODES_COUNT);
            crate::structure::lemma_spec_set_bit(pre.inode_bits(), new_ind, true);
            assert(bit_taken(final(self).inode_bits(), new_ind));
            assert(s1.data_bits() == spec_set_bits_list(pre.data_bits(), c1u, true));
            assert(iv_dir == spec_inode_at(pre.disk(), pre.cursor()).unwrap());
            assert(dnew == (DirView {
                parent: d.parent,
                files: d.files.push((new_ind, filename@)),
            }));
            assert(data.len() == spec_encode_dir(dnew).len());
            assert(final(self).data_bits() == spec_update_bits(
                s1.data_bits(),
                iv_dir.direct,
                taken,
                needed,
                c2,
            ));
            let chunked2 = spec_write_chunks(s1.disk(), c2, data);
            lemma_write_read(chunked2, DATA_BITMAP_OFFSET as int, s2.data_bits());
            lemma_write_frame(
                s2.disk(),
                inode_off(pre.cursor()),
                spec_encode_inode(iv2),
                DATA_BITMAP_OFFSET as int,
                INODE_BITMAP_OFFSET as int,
            );
            assert(final(self).disk().subrange(
                DATA_BITMAP_OFFSET as int,
                DATA_BITMAP_OFFSET + BLOCKS_BITMAP_SIZE,
            ) == final(self).data_bits());
            let bitdump1u = spec_write(
                spec_write_chunks(pre.disk(), c1u, payload@),
                DATA_BITMAP_OFFSET as int,
                s1.data_bits(),
            );
            let x1 = spec_write(bitdump1u, inode_off(new_ind), spec_encode_inode(ivfu));
            assert(s1.disk() == spec_write(x1, INODE_BITMAP_OFFSET as int, s1.inode_bits()));
            lemma_write_read(x1, INODE_BITMAP_OFFSET as int, s1.inode_bits());
            lemma_chunks_below_frame(
                s1.disk(),
                c2,
                data,
                INODE_BITMAP_OFFSET as int,
                INODE_TABLE_OFFSET as int,
            );
            lemma_write_frame(
                chunked2,
                DATA_BITMAP_OFFSET as int,
                s2.data_bits(),
                INODE_BITMAP_OFFSET as int,
                INODE_TABLE_OFFSET as int,
            );
            lemma_write_frame(
                s2.disk(),
                inode_off(pre.cursor()),
                spec_encode_inode(iv2),
                INODE_BITMAP_OFFSET as int,
                INODE_TABLE_OFFSET as int,
            );
            assert(final(self).disk().subrange(
                INODE_BITMAP_OFFSET as int,
                INODE_BITMAP_OFFSET + INODES_BITMAP_SIZE,
            ) == final(self).inode_bits());
            lemma_choose_blocks_props(pre.data_bits(), zdu, 0, needed1u);
            crate::codec::lemma_inode_round_trip(ivfu);
            let chunked1 = spec_write_chunks(pre.disk(), c1u, payload@);
            assert forall|i2: int|
                0 <= i2 < INODES_COUNT && i2 != pre.cursor() && i2 != new_ind
                    && inode_region_in_disk(pre.disk(), i2) implies spec_inode_at(
                self.disk(),
                i2,
            ) == spec_inode_at(pre.disk(), i2) by {
                lemma_mul_bound(i2, INODES_COUNT as int, INODE_SIZE as int);
                let a = inode_off(i2);
                let b = inode_off(i2) + INODE_SIZE;
                lemma_chunks_below_frame(pre.disk(), c1u, payload@, a, b);
                lemma_write_frame(chunked1, DATA_BITMAP_OFFSET as int, s1.data_bits(), a, b);
                if i2 < new_ind {
                    lemma_slot_disjoint(i2, new_ind);
                } else {
                    lemma_slot_disjoint(new_ind, i2);
                }
                lemma_write_frame(bitdump1u, inode_off(new_ind), spec_encode_inode(ivfu), a, b);
                lemma_write_frame(x1, INODE_BITMAP_OFFSET as int, s1.inode_bits(), a, b);
                assert(s1.disk().subrange(a, b) == pre.disk().subrange(a, b));
                lemma_chunks_below_frame(s1.disk(), c2, data, a, b);
                lemma_write_frame(chunked2, DATA_BITMAP_OFFSET as int, s2.data_bits(), a, b);
                if i2 < pre.cursor() {
                    lemma_slot_disjoint(i2, pre.cursor());
                } else {
                    lemma_slot_disjoint(pre.cursor(), i2);
                }
                lemma_write_frame(s2.disk(), inode_off(pre.cursor()), spec_encode_inode(iv2), a, b);
                assert(self.disk().subrange(a, b) == pre.disk().subrange(a, b));
            }
            if dir_backed(pre.disk(), pre.data_bits(), pre.inode_bits(), pre.cursor()) {
                let needed1 = ceil_div(payload@.len() as int, BLOCK_SIZE as int);
                let zd = Seq::new(INODE_LINKS as nat, |k: int| 0int);
                let c1 = spec_choose_blocks(pre.data_bits(), zd, 0, needed1).unwrap();
                let ind = spec_find_free_from(pre.inode_bits(), 0).unwrap();
                let iv_f = InodeV {
                    size: payload@.len() as int,
                    is_directory,
                    direct: Seq::new(
                        INODE_LINKS as nat,
                        |k: int|
                            if k < needed1 {
                                c1[k]
                            } else {
                                0
                            },
                    ),
                };
                lemma_choose_blocks_props(pre.data_bits(), zd, 0, needed1);
                crate::codec::lemma_inode_round_trip(iv_f);
                let bitdump1 = spec_write(
                    spec_write_chunks(pre.disk(), c1, payload@),
                    DATA_BITMAP_OFFSET as int,
                    s1.data_bits(),
                );
                lemma_update_payload_round_trip(pre.disk(), c1, payload@, iv_f, s1.data_bits());
                lemma_mul_bound(ind, INODES_COUNT as int, INODE_SIZE as int);
                lemma_write_read(bitdump1, inode_off(ind), spec_encode_inode(iv_f));
                let d1b = spec_write(bitdump1, inode_off(ind), spec_encode_inode(iv_f));
                lemma_payload_frame_low_write(bitdump1, inode_off(ind), spec_encode_inode(iv_f), iv_f);
                lemma_inode_at_frame(d1b, INODE_BITMAP_OFFSET as int, s1.inode_bits(), ind);
                lemma_payload_frame_low_write(d1b, INODE_BITMAP_OFFSET as int, s1.inode_bits(), iv_f);
                assert(spec_inode_at(s1.disk(), ind) == Some(iv_f));
                assert(spec_payload(s1.disk(), iv_f) == payload@);
                assert(payload_in_disk(s1.disk(), iv_f));
                assert(spec_inode_at(pre.disk(), pre.cursor()).unwrap() == iv_dir);
                lemma_chunk_len_bounds(data.len() as int, needed);
                assert forall|k: int, j: int|
                    0 <= k < c2.len() && 0 <= j < iv_f.blocks() implies #[trigger] c2[k]
                    != #[trigger] iv_f.direct[j] by {
                    assert(iv_f.direct[j] == c1[j]);
                    assert(!bit_taken(pre.data_bits(), c1[j]));
                    if k < taken {
                        assert(c2[k] == iv_dir.direct[k]);
                        assert(bit_taken(pre.data_bits(), iv_dir.direct[k]));
                    } else {
                        assert(!bit_taken(s1.data_bits(), c2[k]));
                        assert(in_chosen(c1, c1[j]));
                        assert(bit_taken(s1.data_bits(), c1[j]));
                    }
                }
                let chunked = spec_write_chunks(s1.disk(), c2, data);
                lemma_payload_frame_chunks(s1.disk(), c2, data, iv_f);
                lemma_chunks_below_frame(s1.disk(), c2, data, inode_off(ind), inode_off(ind) + INODE_SIZE);
                assert(spec_inode_at(chunked, ind) == Some(iv_f));
                lemma_inode_at_frame(chunked, DATA_BITMAP_OFFSET as int, s2.data_bits(), ind);
                lemma_payload_frame_low_write(chunked, DATA_BITMAP_OFFSET as int, s2.data_bits(), iv_f);
                assert(spec_inode_at(s2.disk(), ind) == Some(iv_f));
                assert(ind != pre.cursor());
                if ind < pre.cursor() {
                    lemma_slot_disjoint(ind, pre.cursor());
                } else {
                    lemma_slot_disjoint(pre.cursor(), ind);
                }
                lemma_inode_at_frame(s2.disk(), inode_off(pre.cursor()), spec_encode_inode(iv2), ind);
                lemma_payload_frame_low_write(
                    s2.disk(),
                    inode_off(pre.cursor()),
                    spec_encode_inode(iv2),
                    iv_f,
                );
                assert(spec_inode_at(self.disk(), ind) == Some(iv_f));
                assert(spec_payload(self.disk(), iv_f) == payload@);
                assert(payload_in_disk(self.disk(), iv_f));
            }
        }
        Ok(())
    }

    /// Create a file named `filename` with the given content in the current
    /// directory. Names containing `/` are rejected.
    pub fn touch(&mut self, filename: String, content: &[u8]) -> (r: Result<(), FsError>)
        requires
            old(self).wf(),
        ensures
            final(self).wf(),
            Fs::session_unchanged(*old(self), *final(self)),
            filename@.contains('/') ==> r == Err::<(), FsError>(FsError::IllegalName(filename))
                && Fs::unchanged(*old(self), *final(self)),
            !filename@.contains('/') ==> (match spec_dir_at(old(self).disk(), old(self).cursor()) {
                None => r == Err::<(), FsError>(spec_dir_err(old(self).disk(), old(self).cursor()))
                    && Fs::unchanged(*old(self), *final(self)),
                Some(d) => (match spec_find_index(d.files, filename@) {
                    Some(_) => r == Err::<(), FsError>(FsError::AlreadyExists(filename))
                        && Fs::unchanged(*old(self), *final(self)),
                    None => {
                        &&& (r is Err ==> (r == Err::<(), FsError>(FsError::FileTooBig) || r
                            == Err::<(), FsError>(FsError::NoFreeBlock) || r == Err::<(), FsError>(
                            FsError::NoFreeInode,
                        )))
                        &&& (r is Ok ==> spec_find_free_from(old(self).inode_bits(), 0) is Some
                            && spec_dir_at(final(self).disk(), old(self).cursor()) == Some(
                            DirView {
                                parent: d.parent,
                                files: d.files.push(
                                    (
                                        spec_find_free_from(old(self).inode_bits(), 0).unwrap(),
                                        filename@,
                                    ),
                                ),
                            },
                        ))
                        &&& (r is Ok && dir_backed(
                            old(self).disk(),
                            old(self).data_bits(),
                            old(self).inode_bits(),
                            old(self).cursor(),
                        ) ==> ({
                            let pl = spec_encode_content(content@);
                            let c1 = spec_choose_blocks(
                                old(self).data_bits(),
                                Seq::new(INODE_LINKS as nat, |k: int| 0),
                                0,
                                ceil_div(pl.len() as int, BLOCK_SIZE as int),
                            ).unwrap();
                            let new_ind = spec_find_free_from(old(self).inode_bits(), 0).unwrap();
                            let iv_file = InodeV {
                                size: pl.len() as int,
                                is_directory: false,
                                direct: Seq::new(
                                    INODE_LINKS as nat,
                                    |k: int|
                                        if k < ceil_div(pl.len() as int, BLOCK_SIZE as int) {
                                            c1[k]
                                        } else {
                                            0
                                        },
                                ),
                            };
                            &&& spec_inode_at(final(self).disk(), new_ind) == Some(iv_file)
                            &&& payload_in_disk(final(self).disk(), iv_file)
                            &&& spec_payload(final(self).disk(), iv_file) == pl
                        }))
                        &&& ((spec_encode_content(content@).len() <= INODE_LINKS * BLOCK_SIZE
                            && spec_choose_blocks(
                            old(self).data_bits(),
                            Seq::new(INODE_LINKS as nat, |k: int| 0),
                            0,
                            ceil_div(spec_encode_content(content@).len() as int, BLOCK_SIZE as int),
                        ) is Some && spec_find_free_from(old(self).inode_bits(), 0) is Some
                            && spec_encode_dir(
                            DirView {
                                parent: d.parent,
                                files: d.files.push(
                                    (
                                        spec_find_free_from(old(self).inode_bits(), 0).unwrap(),
                                        filename@,
                                    ),
                                ),
                            },
                        ).len() <= spec_inode_at(old(self).disk(), old(self).cursor()).unwrap().blocks()
                            * (BLOCK_SIZE as int)) ==> r is Ok)
                        &&& (r is Ok ==> ({
                            let new_ind = spec_find_free_from(old(self).inode_bits(), 0).unwrap();
                            let iv_dir = spec_inode_at(
                                old(self).disk(),
                                old(self).cursor(),
                            ).unwrap();
                            let c1 = spec_choose_blocks(
                                old(self).data_bits(),
                                Seq::new(INODE_LINKS as nat, |k: int| 0),
                                0,
                                ceil_div(spec_encode_content(content@).len() as int, BLOCK_SIZE as int),
                            ).unwrap();
                            let mid_bits = spec_set_bits_list(old(self).data_bits(), c1, true);
                            let needed2 = ceil_div(
                                spec_encode_dir(
                                    DirView {
                                        parent: d.parent,
                                        files: d.files.push((new_ind, filename@)),
                                    },
                                ).len() as int,
                                BLOCK_SIZE as int,
                            );
                            let c2 = spec_choose_blocks(
                                mid_bits,
                                iv_dir.direct,
                                iv_dir.blocks(),
                                needed2,
                            ).unwrap();
                            &&& final(self).inode_bits() == spec_set_bit(
                                old(self).inode_bits(),
                                new_ind,
                                true,
                            )
                            &&& bit_taken(final(self).inode_bits(), new_ind)
                            &&& final(self).data_bits() == spec_update_bits(
                                mid_bits,
                                iv_dir.direct,
                                iv_dir.blocks(),
                                needed2,
                                c2,
                            )
                            &&& final(self).disk().subrange(
                                DATA_BITMAP_OFFSET as int,
                                DATA_BITMAP_OFFSET + BLOCKS_BITMAP_SIZE,
                            ) == final(self).data_bits()
                            &&& final(self).disk().subrange(
                                INODE_BITMAP_OFFSET as int,
                                INODE_BITMAP_OFFSET + INODES_BITMAP_SIZE,
                            ) == final(self).inode_bits()
                        }))
                        &&& (r is Ok ==> (forall|i2: int|
                            #![trigger spec_inode_at(final(self).disk(), i2)]
                            0 <= i2 < INODES_COUNT && i2 != old(self).cursor() && i2
                                != spec_find_free_from(old(self).inode_bits(), 0).unwrap()
                                && inode_region_in_disk(old(self).disk(), i2)
                                ==> spec_inode_at(final(self).disk(), i2) == spec_inode_at(
                                old(self).disk(),
                                i2,
                            )))
                    },
                }),
            }),
    {
        if contains_slash(&filename) {
            return Err(FsError::IllegalName(filename));
        }
        let payload = encode_content(content);
        self.new_file(filename, &payload, false)
    }

    /// Create an empty directory named `name` (stored with a trailing `/`)
    /// in the current directory. Names containing `/` are rejected.
    pub fn mkdir(&mut self, name: String) -> (r: Result<(), FsError>)
        requires
            old(self).wf(),
        ensures
            final(self).wf(),
            Fs::session_unchanged(*old(self), *final(self)),
            name@.contains('/') ==> r == Err::<(), FsError>(FsError::IllegalDirectoryName(name))
                && Fs::unchanged(*old(self), *final(self)),
            !name@.contains('/') ==> (match spec_dir_at(old(self).disk(), old(self).cursor()) {
                None => r == Err::<(), FsError>(spec_dir_err(old(self).disk(), old(self).cursor()))
                    && Fs::unchanged(*old(self), *final(self)),
                Some(d) => (match spec_find_index(d.files, name@ + seq!['/']) {
                    Some(_) => (r matches Err(FsError::AlreadyExists(n2)) && n2@ == name@
                        + seq!['/']) && Fs::unchanged(*old(self), *final(self)),
                    None => {
                        &&& (r is Err ==> (r == Err::<(), FsError>(FsError::FileTooBig) || r
                            == Err::<(), FsError>(FsError::NoFreeBlock) || r == Err::<(), FsError>(
                            FsError::NoFreeInode,
                        )))
                        &&& (r is Ok ==> spec_find_free_from(old(self).inode_bits(), 0) is Some
                            && spec_dir_at(final(self).disk(), old(self).cursor()) == Some(
                            DirView {
                                parent: d.parent,
                                files: d.files.push(
                                    (
                                        spec_find_free_from(old(self).inode_bits(), 0).unwrap(),
                                        name@ + seq!['/'],
                                    ),
                                ),
                            },
                        ))
                        &&& (r is Ok && dir_backed(
                            old(self).disk(),
                            old(self).data_bits(),
                            old(self).inode_bits(),
                            old(self).cursor(),
                        ) ==> ({
                            let new_ind = spec_find_free_from(old(self).inode_bits(), 0).unwrap();
                            &&& spec_inode_at(final(self).disk(), new_ind) is Some
                            &&& spec_inode_at(final(self).disk(), new_ind).unwrap().is_directory
                            &&& spec_dir_at(final(self).disk(), new_ind) == Some(
                                DirView {
                                    parent: Some(old(self).cursor()),
                                    files: Seq::<(int, Seq<char>)>::empty(),
                                },
                            )
                        }))
                        &&& ((spec_choose_blocks(
                            old(self).data_bits(),
                            Seq::new(INODE_LINKS as nat, |k: int| 0),
                            0,
                            1,
                        ) is Some && spec_find_free_from(old(self).inode_bits(), 0) is Some
                            && spec_encode_dir(
                            DirView {
                                parent: d.parent,
                                files: d.files.push(
                                    (
                                        spec_find_free_from(old(self).inode_bits(), 0).unwrap(),
                                        name@ + seq!['/'],
                                    ),
                                ),
                            },
                        ).len() <= spec_inode_at(old(self).disk(), old(self).cursor()).unwrap().blocks()
                            * (BLOCK_SIZE as int)) ==> r is Ok)
                        &&& (r is Ok ==> ({
                            let new_ind = spec_find_free_from(old(self).inode_bits(), 0).unwrap();
                            let iv_dir = spec_inode_at(
                                old(self).disk(),
                                old(self).cursor(),
                            ).unwrap();
                            let c1 = spec_choose_blocks(
                                old(self).data_bits(),
                                Seq::new(INODE_LINKS as nat, |k: int| 0),
                                0,
                                ceil_div(spec_encode_dir(
                                    DirView {
                                        parent: Some(old(self).cursor()),
                                        files: Seq::<(int, Seq<char>)>::empty(),
                                    },
                                ).len() as int, BLOCK_SIZE as int),
                            ).unwrap();
                            let mid_bits = spec_set_bits_list(old(self).data_bits(), c1, true);
                            let needed2 = ceil_div(
                                spec_encode_dir(
                                    DirView {
                                        parent: d.parent,
                                        files: d.files.push((new_ind, name@ + seq!['/'])),
                                    },
                                ).len() as int,
                                BLOCK_SIZE as int,
                            );
                            let c2 = spec_choose_blocks(
                                mid_bits,
                                iv_dir.direct,
                                iv_dir.blocks(),
                                needed2,
                            ).unwrap();
                            &&& final(self).inode_bits() == spec_set_bit(
                                old(self).inode_bits(),
                                new_ind,
                                true,
                            )
                            &&& bit_taken(final(self).inode_bits(), new_ind)
                            &&& final(self).data_bits() == spec_update_bits(
                                mid_bits,
                                iv_dir.direct,
                                iv_dir.blocks(),
                                needed2,
                                c2,
                            )
                            &&& final(self).disk().subrange(
                                DATA_BITMAP_OFFSET as int,
                                DATA_BITMAP_OFFSET + BLOCKS_BITMAP_SIZE,
                            ) == final(self).data_bits()
                            &&& final(self).disk().subrange(
                                INODE_BITMAP_OFFSET as int,
                                INODE_BITMAP_OFFSET + INODES_BITMAP_SIZE,
                            ) == final(self).inode_bits()
                        }))
                        &&& (r is Ok ==> (forall|i2: int|
                            #![trigger spec_inode_at(final(self).disk(), i2)]
                            0 <= i2 < INODES_COUNT && i2 != old(self).cursor() && i2
                                != spec_find_free_from(old(self).inode_bits(), 0).unwrap()
                                && inode_region_in_disk(old(self).disk(), i2)
                                ==> spec_inode_at(final(self).disk(), i2) == spec_inode_at(
                                old(self).disk(),
                                i2,
                            )))
                    },
                }),
            }),
    {
        if contains_slash(&name) {
            return Err(FsError::IllegalDirectoryName(name));
        }
        let ghost name0 = name@;
        let mut dirname = name;
        dirname.append("/");
        proof {
            reveal_strlit("/");
            assert(dirname@ =~= name0 + seq!['/']);
        }
        let dir = Directory { parent_inode_ind: Some(self.cur_inode_ind), files: Vec::new() };
        let ghost newv = dir.v();
        let payload = encode_directory(&dir);
        proof {
            vstd::bytes::lemma_auto_spec_u64_to_from_le_bytes();
            assert(newv.files =~= Seq::<(int, Seq<char>)>::empty());
            assert(crate::codec::spec_encode_entries(Seq::<(int, Seq<char>)>::empty())
                == Seq::<u8>::empty());
            assert(payload@.len() == 17);
        }
        let r = self.new_file(dirname, &payload, true);
        proof {
            if r is Ok && dir_backed(
                old(self).disk(),
                old(self).data_bits(),
                old(self).inode_bits(),
                old(self).cursor(),
            ) {
                assert(newv.files =~= Seq::<(int, Seq<char>)>::empty());
                crate::codec::lemma_dir_round_trip(newv);
            }
        }
        r
    }

    /// Remove the named entry from the current directory. A removed
    /// directory also frees the inodes of its immediate children (one level
    /// deep). On success the current directory decodes afterwards to its old
    /// entries with the named one taken out.
    #[verifier::rlimit(100)]
    pub fn rm(&mut self, filename: String) -> (r: Result<(), FsError>)
        requires
            old(self).wf(),
        ensures
            final(self).wf(),
            Fs::session_unchanged(*old(self), *final(self)),
            match spec_dir_at(old(self).disk(), old(self).cursor()) {
                None => r == Err::<(), FsError>(spec_dir_err(old(self).disk(), old(self).cursor()))
                    && Fs::unchanged(*old(self), *final(self)),
                Some(d) => (match spec_rm_index(d, filename@) {
                    None => r == Err::<(), FsError>(FsError::NotFound(filename)) && Fs::unchanged(
                        *old(self),
                        *final(self),
                    ),
                    Some(k) => {
                        &&& (r is Err ==> (r == Err::<(), FsError>(FsError::IoError) || r
                            == Err::<(), FsError>(FsError::CodecError) || r == Err::<(), FsError>(
                            FsError::FileTooBig,
                        ) || r == Err::<(), FsError>(FsError::NoFreeBlock)))
                        &&& (r is Ok ==> spec_dir_at(final(self).disk(), old(self).cursor())
                            == Some(DirView { parent: d.parent, files: d.files.remove(k) }))
                        &&& (r is Ok ==> !bit_taken(final(self).inode_bits(), d.files[k].0))
                        &&& (r is Ok ==> (forall|j: int|
                            #![trigger bit_taken(final(self).inode_bits(), j)]
                            bit_taken(final(self).inode_bits(), j) ==> bit_taken(
                                old(self).inode_bits(),
                                j,
                            )))
                        &&& (r is Ok ==> final(self).disk().subrange(
                            DATA_BITMAP_OFFSET as int,
                            DATA_BITMAP_OFFSET + BLOCKS_BITMAP_SIZE,
                        ) == final(self).data_bits())
                        &&& (r is Ok ==> final(self).disk().subrange(
                            INODE_BITMAP_OFFSET as int,
                            INODE_BITMAP_OFFSET + INODES_BITMAP_SIZE,
                        ) == final(self).inode_bits())
                        &&& (r is Ok ==> (forall|i2: int|
                            #![trigger spec_inode_at(final(self).disk(), i2)]
                            0 <= i2 < INODES_COUNT && i2 != old(self).cursor()
                                && inode_region_in_disk(old(self).disk(), i2)
                                ==> spec_inode_at(final(self).disk(), i2) == spec_inode_at(
                                old(self).disk(),
                                i2,
                            )))
                        &&& ((spec_encode_dir(
                            DirView { parent: d.parent, files: d.files.remove(k) },
                        ).len() <= spec_inode_at(old(self).disk(), old(self).cursor()).unwrap().blocks()
                            * (BLOCK_SIZE as int) && spec_inode_at(
                            old(self).disk(),
                            d.files[k].0,
                        ) is Some && !spec_inode_at(old(self).disk(), d.files[k].0).unwrap().is_directory
                            && d.files[k].0 != old(self).cursor()) ==> ({
                            let t = d.files[k].0;
                            let iv_t = spec_inode_at(old(self).disk(), t).unwrap();
                            let iv_dir = spec_inode_at(
                                old(self).disk(),
                                old(self).cursor(),
                            ).unwrap();
                            let needed2 = ceil_div(
                                spec_encode_dir(
                                    DirView { parent: d.parent, files: d.files.remove(k) },
                                ).len() as int,
                                BLOCK_SIZE as int,
                            );
                            let c2 = spec_choose_blocks(
                                old(self).data_bits(),
                                iv_dir.direct,
                                iv_dir.blocks(),
                                needed2,
                            ).unwrap();
                            &&& r is Ok
                            &&& final(self).inode_bits() == spec_set_bit(
                                old(self).inode_bits(),
                                t,
                                false,
                            )
                            &&& final(self).data_bits() == spec_set_bits_list(
                                spec_update_bits(
                                    old(self).data_bits(),
                                    iv_dir.direct,
                                    iv_dir.blocks(),
                                    needed2,
                                    c2,
                                ),
                                iv_t.direct.subrange(0, iv_t.blocks()),
                                false,
                            )
                        }))
                        &&& ((r is Ok && d.files[k].0 != old(self).cursor() && spec_dir_at(
                            old(self).disk(),
                            d.files[k].0,
                        ) is Some && spec_inode_at(
                            old(self).disk(),
                            d.files[k].0,
                        ).unwrap().is_directory && (forall|b: int|
                            !(in_block_prefix(
                                spec_inode_at(old(self).disk(), old(self).cursor()).unwrap(),
                                b,
                            ) && in_block_prefix(
                                #[trigger] spec_inode_at(old(self).disk(), d.files[k].0).unwrap(),
                                b,
                            ))) && (forall|kk: int|
                            0 <= kk < spec_inode_at(old(self).disk(), d.files[k].0).unwrap().blocks()
                                ==> bit_taken(
                                old(self).data_bits(),
                                #[trigger] spec_inode_at(
                                    old(self).disk(),
                                    d.files[k].0,
                                ).unwrap().direct[kk],
                            ))) ==> (forall|jj: int|
                            0 <= jj < spec_dir_at(old(self).disk(), d.files[k].0).unwrap().files.len()
                                ==> !bit_taken(
                                final(self).inode_bits(),
                                #[trigger] spec_dir_at(
                                    old(self).disk(),
                                    d.files[k].0,
                                ).unwrap().files[jj].0,
                            )))
                    },
                }),
            },
    {
        let ghost pre = *old(self);
        let (mut cur_dir_inode, mut cur) = match self.read_cur_dir() {
            Ok(p) => p,
            Err(e) => {
                return Err(e);
            },
        };
        let ghost d = cur.v();
        let ghost iv_dir = cur_dir_inode.v();
        let i = match Self::find_entry(&cur.files, &filename) {
            Some(i) => {
                proof {
                    assert forall|j: int| 0 <= j < i implies #[trigger] d.files[j].1
                        != filename@ by {
                        assert(d.files[j] == crate::codec::entry_view(cur.files@[j]));
                    }
                    assert(d.files[i as int] == crate::codec::entry_view(cur.files@[i as int]));
                    lemma_index_of_match(d.files, filename@, i as int);
                    assert(spec_rm_index(d, filename@) == Some(i as int));
                }
                i
            },
            None => {
                proof {
                    assert forall|j: int| 0 <= j < d.files.len() implies #[trigger] d.files[j].1
                        != filename@ by {
                        assert(d.files[j] == crate::codec::entry_view(cur.files@[j]));
                    }
                    lemma_index_of_none(d.files, filename@);
                }
                let mut dirname = filename.clone();
                dirname.append("/");
                proof {
                    reveal_strlit("/");
                    assert(dirname@ =~= filename@ + seq!['/']);
                }
                match Self::find_entry(&cur.files, &dirname) {
                    Some(i) => {
                        proof {
                    assert forall|j: int| 0 <= j < i implies #[trigger] d.files[j].1
                        != dirname@ by {
                        assert(d.files[j] == crate::codec::entry_view(cur.files@[j]));
                    }
                    assert(d.files[i as int] == crate::codec::entry_view(cur.files@[i as int]));
                    lemma_index_of_match(d.files, dirname@, i as int);
                            assert(spec_rm_index(d, filename@) == Some(i as int));
                        }
                        i
                    },
                    None => {
                        proof {
                    assert forall|j: int| 0 <= j < d.files.len() implies #[trigger] d.files[j].1
                        != dirname@ by {
                        assert(d.files[j] == crate::codec::entry_view(cur.files@[j]));
                    }
                    lemma_index_of_none(d.files, dirname@);
                            assert(spec_rm_index(d, filename@) is None);
                        }
                        return Err(FsError::NotFound(filename));
                    },
                }
            },
        };
        proof {
            lemma_find_index_char(d.files, filename@);
            lemma_find_index_char(d.files, filename@ + seq!['/']);
            assert(d.files[i as int].0 == cur.files@[i as int].0 as int);
        }
        let data_inode_ind = cur.files[i].0;
        cur.files.remove(i);
        let ghost dnew = cur.v();
        proof {
            assert(dnew.files =~= d.files.remove(i as int));
        }
        let dirbytes = encode_directory(&cur);
        match self.update_data(&mut cur_dir_inode, &dirbytes) {
            Ok(_) => (),
            Err(e) => {
                proof {
                    if spec_encode_dir(dnew).len() <= iv_dir.blocks() * (BLOCK_SIZE as int) {
                        assert(dirbytes@.len() <= iv_dir.blocks() * (BLOCK_SIZE as int));
                        lemma_mul_bound(iv_dir.blocks() - 1, INODE_LINKS as int, BLOCK_SIZE as int);
                        assert(ceil_div(dirbytes@.len() as int, BLOCK_SIZE as int)
                            <= iv_dir.blocks()) by (nonlinear_arith)
                            requires
                                dirbytes@.len() <= iv_dir.blocks() * (BLOCK_SIZE as int),
                                dirbytes@.len() >= 0,
                                iv_dir.blocks() >= 0,
                        ;
                        lemma_choose_reuse_only(
                            pre.data_bits(),
                            iv_dir.direct,
                            iv_dir.blocks(),
                            ceil_div(dirbytes@.len() as int, BLOCK_SIZE as int),
                        );
                        assert(false);
                    }
                }
                return Err(e);
            },
        };
        let ghost s2 = *self;
        let ghost iv2 = cur_dir_inode.v();
        let ci = self.cur_inode_ind;
        match self.update_inode(ci, &cur_dir_inode) {
            Ok(_) => (),
            Err(e) => {
                return Err(e);
            },
        };
        proof {
            let data = dirbytes@;
            let needed = ceil_div(data.len() as int, BLOCK_SIZE as int);
            let taken = iv_dir.blocks();
            let c2 = spec_choose_blocks(pre.data_bits(), iv_dir.direct, taken, needed).unwrap();
            lemma_choose_blocks_props(pre.data_bits(), iv_dir.direct, taken, needed);
            crate::codec::lemma_inode_round_trip(iv2);
            lemma_update_payload_round_trip(pre.disk(), c2, data, iv2, s2.data_bits());
            lemma_mul_bound(pre.cursor(), INODES_COUNT as int, INODE_SIZE as int);
            let bitdump = spec_write(
                spec_write_chunks(pre.disk(), c2, data),
                DATA_BITMAP_OFFSET as int,
                s2.data_bits(),
            );
            lemma_payload_frame_low_write(
                bitdump,
                inode_off(pre.cursor()),
                spec_encode_inode(iv2),
                iv2,
            );
            lemma_write_read(bitdump, inode_off(pre.cursor()), spec_encode_inode(iv2));
            crate::codec::lemma_dir_round_trip(dnew);
            assert(spec_dir_at(self.disk(), pre.cursor()) == Some(dnew));
            let t = d.files[i as int].0;
            if spec_inode_at(pre.disk(), t) is Some && t != pre.cursor() {
                let chunked = spec_write_chunks(pre.disk(), c2, data);
                assert(0 <= t < INODES_COUNT);
                lemma_mul_bound(t, INODES_COUNT as int, INODE_SIZE as int);
                lemma_chunks_below_frame(
                    pre.disk(),
                    c2,
                    data,
                    inode_off(t),
                    inode_off(t) + INODE_SIZE,
                );
                assert(spec_inode_at(chunked, t) == spec_inode_at(pre.disk(), t));
                lemma_inode_at_frame(chunked, DATA_BITMAP_OFFSET as int, s2.data_bits(), t);
                if t < pre.cursor() {
                    lemma_slot_disjoint(t, pre.cursor());
                } else {
                    lemma_slot_disjoint(pre.cursor(), t);
                }
                lemma_inode_at_frame(s2.disk(), inode_off(pre.cursor()), spec_encode_inode(iv2), t);
                assert(spec_inode_at(self.disk(), t) == spec_inode_at(pre.disk(), t));
            }
            let chunked2 = spec_write_chunks(pre.disk(), c2, data);
            assert forall|i2: int|
                0 <= i2 < INODES_COUNT && i2 != pre.cursor() && inode_region_in_disk(
                    pre.disk(),
                    i2,
                ) implies spec_inode_at(self.disk(), i2) == spec_inode_at(pre.disk(), i2) by {
                lemma_mul_bound(i2, INODES_COUNT as int, INODE_SIZE as int);
                let a = inode_off(i2);
                let b = inode_off(i2) + INODE_SIZE;
                lemma_chunks_below_frame(pre.disk(), c2, data, a, b);
                lemma_write_frame(chunked2, DATA_BITMAP_OFFSET as int, s2.data_bits(), a, b);
                if i2 < pre.cursor() {
                    lemma_slot_disjoint(i2, pre.cursor());
                } else {
                    lemma_slot_disjoint(pre.cursor(), i2);
                }
                lemma_write_frame(s2.disk(), inode_off(pre.cursor()), spec_encode_inode(iv2), a, b);
                assert(self.disk().subrange(a, b) == pre.disk().subrange(a, b));
            }
            lemma_chunks_below_frame(pre.disk(), c2, data, 0, 0);
            assert(pre.disk().len() <= chunked2.len());
            assert(pre.disk().len() <= self.disk().len());
            if t != pre.cursor() && spec_dir_at(pre.disk(), t) is Some && spec_inode_at(
                pre.disk(),
                t,
            ).unwrap().is_directory && (forall|b: int|
                !(in_block_prefix(iv_dir, b) && in_block_prefix(
                    #[trigger] spec_inode_at(pre.disk(), t).unwrap(),
                    b,
                ))) && (forall|kk: int|
                0 <= kk < spec_inode_at(pre.disk(), t).unwrap().blocks() ==> bit_taken(
                    pre.data_bits(),
                    #[trigger] spec_inode_at(pre.disk(), t).unwrap().direct[kk],
                )) {
                let iv_t = spec_inode_at(pre.disk(), t).unwrap();
                crate::codec::lemma_decoded_inode_wf(
                    pre.disk().subrange(inode_off(t), inode_off(t) + INODE_SIZE),
                );
                lemma_chunk_len_bounds(data.len() as int, needed);
                assert forall|kk: int, j2: int|
                    0 <= kk < c2.len() && 0 <= j2 < iv_t.blocks() implies #[trigger] c2[kk]
                    != #[trigger] iv_t.direct[j2] by {
                    assert(in_block_prefix(iv_t, iv_t.direct[j2]));
                    if kk < taken {
                        assert(c2[kk] == iv_dir.direct[kk]);
                        assert(in_block_prefix(iv_dir, iv_dir.direct[kk]));
                    } else {
                        assert(!bit_taken(pre.data_bits(), c2[kk]));
                        assert(bit_taken(pre.data_bits(), iv_t.direct[j2]));
                    }
                }
                lemma_payload_frame_chunks(pre.disk(), c2, data, iv_t);
                lemma_payload_frame_low_write(
                    chunked2,
                    DATA_BITMAP_OFFSET as int,
                    s2.data_bits(),
                    iv_t,
                );
                lemma_payload_frame_low_write(
                    s2.disk(),
                    inode_off(pre.cursor()),
                    spec_encode_inode(iv2),
                    iv_t,
                );
                assert(spec_payload(self.disk(), iv_t) == spec_payload(pre.disk(), iv_t));
                assert(payload_in_disk(self.disk(), iv_t));
                assert(spec_dir_at(self.disk(), t) == spec_dir_at(pre.disk(), t));
            }
        }
        let data_inode = match self.read_inode(data_inode_ind) {
            Ok(x) => x,
            Err(e) => {
                return Err(e);
            },
        };
        proof {
            let t = d.files[i as int].0;
            if spec_inode_at(pre.disk(), t) is Some && t != pre.cursor() {
                assert(data_inode.v() == spec_inode_at(pre.disk(), t).unwrap());
            }
        }
        if data_inode.is_directory {
            let bytes = match self.read_data(&data_inode) {
                Ok(b) => b,
                Err(e) => {
                    return Err(e);
                },
            };
            let sub = match decode_directory(&bytes) {
                Ok(x) => x,
                Err(e) => {
                    return Err(e);
                },
            };
            proof {
                crate::codec::lemma_decoded_dir_wf(bytes@);
                assert(sub.files@.map_values(|e: (usize, String)| crate::codec::entry_view(e))
                    =~= sub.v().files);
                let t = d.files[i as int].0;
                if t != pre.cursor() && spec_dir_at(pre.disk(), t) is Some && spec_inode_at(
                    pre.disk(),
                    t,
                ).unwrap().is_directory && (forall|b: int|
                    !(in_block_prefix(iv_dir, b) && in_block_prefix(
                        #[trigger] spec_inode_at(pre.disk(), t).unwrap(),
                        b,
                    ))) && (forall|kk: int|
                    0 <= kk < spec_inode_at(pre.disk(), t).unwrap().blocks() ==> bit_taken(
                        pre.data_bits(),
                        #[trigger] spec_inode_at(pre.disk(), t).unwrap().direct[kk],
                    )) {
                    assert(sub.v() == spec_dir_at(pre.disk(), t).unwrap());
                }
            }
            let nchild = sub.files.len();
            let mut j: usize = 0;
            while j < nchild
                invariant
                    j <= nchild,
                    nchild == sub.files@.len(),
                    self.wf(),
                    pre == *old(self),
                    pre.wf(),
                    Fs::session_unchanged(pre, *self),
                    spec_dir_at(pre.disk(), pre.cursor()) == Some(d),
                    spec_rm_index(d, filename@) == Some(i as int),
                    0 <= i < d.files.len(),
                    dnew == (DirView { parent: d.parent, files: d.files.remove(i as int) }),
                    spec_inode_at(pre.disk(), d.files[i as int].0) is Some && d.files[
                        i as int
                    ].0 != pre.cursor() ==> spec_inode_at(
                        pre.disk(),
                        d.files[i as int].0,
                    ).unwrap().is_directory,
                    forall|k: int|
                        0 <= k < nchild ==> 0 <= #[trigger] sub.v().files[k].0 < INODES_COUNT,
                    sub.v().files == sub.files@.map_values(
                        |e: (usize, String)| crate::codec::entry_view(e),
                    ),
                    spec_dir_at(self.disk(), pre.cursor()) == Some(dnew),
                    pre.disk().len() <= self.disk().len(),
                    forall|i2: int|
                        #![trigger spec_inode_at(self.disk(), i2)]
                        0 <= i2 < INODES_COUNT && i2 != pre.cursor() && inode_region_in_disk(
                            pre.disk(),
                            i2,
                        ) ==> spec_inode_at(self.disk(), i2) == spec_inode_at(pre.disk(), i2),
                    forall|jb: int|
                        #![trigger bit_taken(self.inode_bits(), jb)]
                        bit_taken(self.inode_bits(), jb) ==> bit_taken(pre.inode_bits(), jb),
                    forall|jj: int|
                        0 <= jj < j ==> !bit_taken(
                            self.inode_bits(),
                            #[trigger] sub.v().files[jj].0,
                        ),
                decreases nchild - j,
            {
                let child = sub.files[j].0;
                proof {
                    assert(sub.v().files[j as int].0 == child as int);
                }
                let ghost mid = *self;
                match self.free_inode(child) {
                    Ok(_) => (),
                    Err(e) => {
                        return Err(e);
                    },
                };
                proof {
                    lemma_dir_at_preserved_bitmap_dumps(
                        mid.disk(),
                        self.data_bits(),
                        self.inode_bits(),
                        pre.cursor(),
                    );
                    crate::structure::lemma_spec_set_bit(
                        mid.inode_bits(),
                        child as int,
                        false,
                    );
                    let innerf = spec_write(
                        mid.disk(),
                        DATA_BITMAP_OFFSET as int,
                        self.data_bits(),
                    );
                    assert forall|i2: int|
                        0 <= i2 < INODES_COUNT && i2 != pre.cursor() && inode_region_in_disk(
                            pre.disk(),
                            i2,
                        ) implies spec_inode_at(self.disk(), i2) == spec_inode_at(
                        pre.disk(),
                        i2,
                    ) by {
                        lemma_mul_bound(i2, INODES_COUNT as int, INODE_SIZE as int);
                        let a = inode_off(i2);
                        let b = inode_off(i2) + INODE_SIZE;
                        assert(inode_region_in_disk(mid.disk(), i2));
                        lemma_write_frame(mid.disk(), DATA_BITMAP_OFFSET as int, self.data_bits(), a, b);
                        lemma_write_frame(innerf, INODE_BITMAP_OFFSET as int, self.inode_bits(), a, b);
                        assert(self.disk().subrange(a, b) == mid.disk().subrange(a, b));
                        assert(inode_region_in_disk(self.disk(), i2));
                        assert(spec_inode_at(self.disk(), i2) == spec_inode_at(mid.disk(), i2));
                    }
                }
                j = j + 1;
            }
            proof {
                let t = d.files[i as int].0;
                if t != pre.cursor() && spec_dir_at(pre.disk(), t) is Some && spec_inode_at(
                    pre.disk(),
                    t,
                ).unwrap().is_directory && (forall|b: int|
                    !(in_block_prefix(iv_dir, b) && in_block_prefix(
                        #[trigger] spec_inode_at(pre.disk(), t).unwrap(),
                        b,
                    ))) && (forall|kk: int|
                    0 <= kk < spec_inode_at(pre.disk(), t).unwrap().blocks() ==> bit_taken(
                        pre.data_bits(),
                        #[trigger] spec_inode_at(pre.disk(), t).unwrap().direct[kk],
                    )) {
                    let dt = spec_dir_at(pre.disk(), t).unwrap();
                    assert(sub.v() == dt);
                    assert(forall|jj: int|
                        0 <= jj < dt.files.len() ==> !bit_taken(
                            self.inode_bits(),
                            #[trigger] dt.files[jj].0,
                        ));
                }
            }
        }
        let ghost mid2 = *self;
        match self.free_inode(data_inode_ind) {
            Ok(_) => (),
            Err(e) => {
                return Err(e);
            },
        };
        proof {
            lemma_dir_at_preserved_bitmap_dumps(
                mid2.disk(),
                self.data_bits(),
                self.inode_bits(),
                pre.cursor(),
            );
            let t = d.files[i as int].0;
            assert(t == data_inode_ind as int);
            assert(self.inode_bits() == spec_set_bit(mid2.inode_bits(), t, false));
            crate::structure::lemma_spec_set_bit(mid2.inode_bits(), t, false);
            assert(!bit_taken(self.inode_bits(), t));
            let inner = spec_write(mid2.disk(), DATA_BITMAP_OFFSET as int, self.data_bits());
            assert(self.disk() == spec_write(inner, INODE_BITMAP_OFFSET as int, self.inode_bits()));
            lemma_write_read(mid2.disk(), DATA_BITMAP_OFFSET as int, self.data_bits());
            lemma_write_read(inner, INODE_BITMAP_OFFSET as int, self.inode_bits());
            lemma_write_frame(
                inner,
                INODE_BITMAP_OFFSET as int,
                self.inode_bits(),
                DATA_BITMAP_OFFSET as int,
                INODE_BITMAP_OFFSET as int,
            );
            assert(self.disk().subrange(
                DATA_BITMAP_OFFSET as int,
                DATA_BITMAP_OFFSET + BLOCKS_BITMAP_SIZE,
            ) == self.data_bits());
            assert(self.disk().subrange(
                INODE_BITMAP_OFFSET as int,
                INODE_BITMAP_OFFSET + INODES_BITMAP_SIZE,
            ) == self.inode_bits());
            let innerf2 = spec_write(mid2.disk(), DATA_BITMAP_OFFSET as int, self.data_bits());
            assert forall|i2: int|
                0 <= i2 < INODES_COUNT && i2 != pre.cursor() && inode_region_in_disk(
                    pre.disk(),
                    i2,
                ) implies spec_inode_at(self.disk(), i2) == spec_inode_at(pre.disk(), i2) by {
                lemma_mul_bound(i2, INODES_COUNT as int, INODE_SIZE as int);
                let a = inode_off(i2);
                let b = inode_off(i2) + INODE_SIZE;
                assert(inode_region_in_disk(mid2.disk(), i2));
                lemma_write_frame(mid2.disk(), DATA_BITMAP_OFFSET as int, self.data_bits(), a, b);
                lemma_write_frame(innerf2, INODE_BITMAP_OFFSET as int, self.inode_bits(), a, b);
                assert(self.disk().subrange(a, b) == mid2.disk().subrange(a, b));
                assert(inode_region_in_disk(self.disk(), i2));
                assert(spec_inode_at(self.disk(), i2) == spec_inode_at(mid2.disk(), i2));
            }
            if spec_inode_at(pre.disk(), t) is Some && t != pre.cursor()
                && !spec_inode_at(pre.disk(), t).unwrap().is_directory {
                let iv_t = spec_inode_at(pre.disk(), t).unwrap();
                assert(mid2.inode_bits() == pre.inode_bits());
                assert(self.data_bits() == spec_set_bits_list(
                    mid2.data_bits(),
                    iv_t.direct.subrange(0, iv_t.blocks()),
                    false,
                ));
            }
            if t != pre.cursor() && spec_dir_at(pre.disk(), t) is Some && spec_inode_at(
                pre.disk(),
                t,
            ).unwrap().is_directory && (forall|b: int|
                !(in_block_prefix(iv_dir, b) && in_block_prefix(
                    #[trigger] spec_inode_at(pre.disk(), t).unwrap(),
                    b,
                ))) && (forall|kk: int|
                0 <= kk < spec_inode_at(pre.disk(), t).unwrap().blocks() ==> bit_taken(
                    pre.data_bits(),
                    #[trigger] spec_inode_at(pre.disk(), t).unwrap().direct[kk],
                )) {
                let dt = spec_dir_at(pre.disk(), t).unwrap();
                assert forall|jj: int|
                    0 <= jj < dt.files.len() implies !bit_taken(
                    self.inode_bits(),
                    #[trigger] dt.files[jj].0,
                ) by {
                    assert(!bit_taken(mid2.inode_bits(), dt.files[jj].0));
                }
            }
        }
        Ok(())
    }

    /// Move the cursor. `cd ..` goes to the parent, failing at the root; any
    /// other name resolves `name/` in the current directory and the entry
    /// must be a directory. The inode cursor and the textual path move
    /// together.
    #[verifier::rlimit(50)]
    pub fn cd(&mut self, name: String) -> (r: Result<(), FsError>)
        requires
            old(self).wf(),
        ensures
            final(self).wf(),
            final(self).disk() == old(self).disk(),
            final(self).data_bits() == old(self).data_bits(),
            final(self).inode_bits() == old(self).inode_bits(),
            match spec_dir_at(old(self).disk(), old(self).cursor()) {
                None => r == Err::<(), FsError>(spec_dir_err(old(self).disk(), old(self).cursor()))
                    && Fs::unchanged(*old(self), *final(self)),
                Some(d) => if name@ == ".."@ {
                    match d.parent {
                        None => r == Err::<(), FsError>(FsError::AtRoot) && Fs::unchanged(
                            *old(self),
                            *final(self),
                        ),
                        Some(p) => {
                            &&& r is Ok
                            &&& final(self).cursor() == p
                            &&& final(self).path() == (if old(self).path().len() == 0 {
                                old(self).path()
                            } else {
                                old(self).path().drop_last()
                            })
                            &&& final(self).dir_text() == spec_path_text(final(self).path())
                        },
                    }
                } else {
                    match spec_find_index(d.files, name@ + seq!['/']) {
                        None => (r matches Err(FsError::NotFoundDirectory(n2)) && n2@ == name@
                            + seq!['/']) && Fs::unchanged(*old(self), *final(self)),
                        Some(k) => (match spec_inode_at(old(self).disk(), d.files[k].0) {
                            None => r == Err::<(), FsError>(
                                spec_inode_err(old(self).disk(), d.files[k].0),
                            ) && Fs::unchanged(*old(self), *final(self)),
                            Some(iv) => if !iv.is_directory {
                                (r matches Err(FsError::NotADirectory(n2)) && n2@ == name@)
                                    && Fs::unchanged(*old(self), *final(self))
                            } else {
                                &&& r is Ok
                                &&& final(self).cursor() == d.files[k].0
                                &&& final(self).path() == old(self).path().push(name@)
                                &&& final(self).dir_text() == old(self).dir_text() + name@
                                    + seq!['/']
                            },
                        }),
                    }
                },
            },
    {
        let ghost pre = *old(self);
        let (_dir_inode, cur) = match self.read_cur_dir() {
            Ok(p) => p,
            Err(e) => {
                return Err(e);
            },
        };
        let ghost d = cur.v();
        let dotdot = String::from_str("..");
        if name == dotdot {
            match cur.parent_inode_ind {
                None => {
                    return Err(FsError::AtRoot);
                },
                Some(inode_ind) => {
                    self.cur_inode_ind = inode_ind;
                    if self.path_names.len() > 0 {
                        self.path_names.pop();
                    }
                    let mut text = String::from_str("/");
                    proof {
                        reveal_strlit("/");
                        assert(self.path().take(0) =~= Seq::<Seq<char>>::empty());
                        assert(text@ =~= spec_path_text(self.path().take(0)));
                    }
                    let m = self.path_names.len();
                    let mut i: usize = 0;
                    while i < m
                        invariant
                            i <= m,
                            m == self.path_names@.len(),
                            text@ == spec_path_text(self.path().take(i as int)),
                        decreases m - i,
                    {
                        text.append(self.path_names[i].as_str());
                        text.append("/");
                        i = i + 1;
                        proof {
                            reveal_strlit("/");
                            assert(self.path().take(i as int).drop_last() =~= self.path().take(
                                i - 1,
                            ));
                            assert(self.path().take(i as int).last() == self.path()[i - 1]);
                            assert(text@ =~= spec_path_text(self.path().take(i as int)));
                        }
                    }
                    proof {
                        assert(self.path().take(m as int) =~= self.path());
                    }
                    self.cur_dir = text;
                    proof {
                        if pre.path().len() > 0 {
                            assert(self.path() =~= pre.path().drop_last());
                        } else {
                            assert(self.path() =~= pre.path());
                        }
                    }
                    return Ok(());
                },
            }
        }
        let mut dirname = name.clone();
        dirname.append("/");
        proof {
            reveal_strlit("/");
            assert(dirname@ =~= name@ + seq!['/']);
        }
        let i = match Self::find_entry(&cur.files, &dirname) {
            Some(i) => {
                proof {
                    assert forall|j: int| 0 <= j < i implies #[trigger] d.files[j].1
                        != dirname@ by {
                        assert(d.files[j] == crate::codec::entry_view(cur.files@[j]));
                    }
                    assert(d.files[i as int] == crate::codec::entry_view(cur.files@[i as int]));
                    lemma_index_of_match(d.files, dirname@, i as int);
                }
                i
            },
            None => {
                proof {
                    assert forall|j: int| 0 <= j < d.files.len() implies #[trigger] d.files[j].1
                        != dirname@ by {
                        assert(d.files[j] == crate::codec::entry_view(cur.files@[j]));
                    }
                    lemma_index_of_none(d.files, dirname@);
                }
                return Err(FsError::NotFoundDirectory(dirname));
            },
        };
        proof {
            lemma_find_index_char(d.files, dirname@);
            assert(d.files[i as int].0 == cur.files@[i as int].0 as int);
        }
        let data_inode_ind = cur.files[i].0;
        let data_inode = match self.read_inode(data_inode_ind) {
            Ok(x) => x,
            Err(e) => {
                proof {
                    assert(spec_inode_at(self.disk(), d.files[i as int].0) is None);
                    assert(e == spec_inode_err(self.disk(), d.files[i as int].0));
                }
                return Err(e);
            },
        };
        proof {
            assert(spec_inode_at(self.disk(), d.files[i as int].0) == Some(data_inode.v()));
        }
        if !data_inode.is_directory {
            return Err(FsError::NotADirectory(name));
        }
        self.cur_dir.append(name.as_str());
        self.cur_dir.append("/");
        self.cur_inode_ind = data_inode_ind;
        self.path_names.push(name);
        proof {
            reveal_strlit("/");
            assert(self.path().drop_last() =~= pre.path());
            assert(self.path().last() == self.path_names@.last()@);
            assert(self.cur_dir@ =~= spec_path_text(self.path()));
            assert(self.path() =~= pre.path().push(self.path_names@.last()@));
        }
        Ok(())
    }

    /// Mount a volume: decode the superblock and the two bitmaps, writing the
    /// defaults back for any region that does not read or decode as expected,
    /// then bootstrap a root directory and point the cursor at inode 0 with
    /// path `/`. The root bootstrap is unconditional, as the volume format
    /// prescribes; a volume that already holds data is re-bootstrapped.
    ///
    /// The stored superblock counts as valid only when it decodes to exactly
    /// the fixed default geometry: the layout constants admit no other
    /// volume, so a 64-byte prefix that decodes to different values is
    /// rewritten with the default like any unreadable one. Each bitmap is
    /// used as stored whenever its region lies inside the volume, and is
    /// otherwise the all-zero default, written back at its offset; the
    /// mounted bitmaps are then the loaded ones plus the root bootstrap's
    /// two allocations.
    pub fn new(storage: Storage) -> (r: Result<Fs, FsError>)
        ensures
            match r {
                Ok(fs) => fs.wf() && fs.cursor() == 0 && fs.dir_text() == seq!['/'] && fs.path()
                    == Seq::<Seq<char>>::empty(),
                Err(e) => e == FsError::NoFreeInode || e == FsError::NoFreeBlock,
            },
            r is Ok ==> ({
                let loaded_d = spec_loaded_bitmap(
                    storage@,
                    DATA_BITMAP_OFFSET as int,
                    BLOCKS_BITMAP_SIZE as int,
                );
                let loaded_i = spec_loaded_bitmap(
                    storage@,
                    INODE_BITMAP_OFFSET as int,
                    INODES_BITMAP_SIZE as int,
                );
                let c = spec_choose_blocks(
                    loaded_d,
                    Seq::new(INODE_LINKS as nat, |k: int| 0),
                    0,
                    1,
                ).unwrap();
                let root_ind = spec_find_free_from(loaded_i, 0).unwrap();
                &&& spec_choose_blocks(loaded_d, Seq::new(INODE_LINKS as nat, |k: int| 0), 0, 1) is Some
                &&& spec_find_free_from(loaded_i, 0) is Some
                &&& r.unwrap().data_bits() == spec_set_bits_list(loaded_d, c, true)
                &&& r.unwrap().inode_bits() == spec_set_bit(loaded_i, root_ind, true)
            }),
            storage@.len() == 0 ==> r is Ok,
            storage@.len() == 0 && r is Ok ==> spec_dir_at(r.unwrap().disk(), 0) == Some(
                DirView { parent: Option::None, files: Seq::empty() },
            ),
            storage@.len() == 0 && r is Ok ==> (forall|j: int|
                #![trigger bit_taken(r.unwrap().inode_bits(), j)]
                bit_taken(r.unwrap().inode_bits(), j) <==> j == 0),
            storage@.len() == 0 && r is Ok ==> (forall|j: int|
                #![trigger bit_taken(r.unwrap().data_bits(), j)]
                bit_taken(r.unwrap().data_bits(), j) <==> j == 1),
            storage@.len() == 0 && r is Ok ==> dir_backed(
                r.unwrap().disk(),
                r.unwrap().data_bits(),
                r.unwrap().inode_bits(),
                0,
            ),
    {
        let ghost disk0 = storage@;
        let mut storage = storage;
        let default_sb = Superblock::default();
        let sb_valid = match storage.read(0, SUPERBLOCK_SIZE) {
            Ok(b) => match decode_superblock(&b) {
                Ok(s) => s == default_sb,
                Err(_) => false,
            },
            Err(_) => false,
        };
        if !sb_valid {
            let bytes = encode_superblock(&default_sb);
            match storage.write(0, bytes.as_slice()) {
                Ok(_) => (),
                Err(e) => {
                    proof {
                        assert(false);
                    }
                    return Err(FsError::IoError);
                },
            };
            proof {
                if DATA_BITMAP_OFFSET + BLOCKS_BITMAP_SIZE <= disk0.len() {
                    lemma_write_frame(
                        disk0,
                        0,
                        bytes@,
                        DATA_BITMAP_OFFSET as int,
                        INODE_BITMAP_OFFSET as int,
                    );
                }
                if INODE_BITMAP_OFFSET + INODES_BITMAP_SIZE <= disk0.len() {
                    lemma_write_frame(
                        disk0,
                        0,
                        bytes@,
                        INODE_BITMAP_OFFSET as int,
                        INODE_TABLE_OFFSET as int,
                    );
                }
            }
        }
        let ghost loaded_d = spec_loaded_bitmap(
            disk0,
            DATA_BITMAP_OFFSET as int,
            BLOCKS_BITMAP_SIZE as int,
        );
        let ghost loaded_i = spec_loaded_bitmap(
            disk0,
            INODE_BITMAP_OFFSET as int,
            INODES_BITMAP_SIZE as int,
        );
        proof {
            assert(disk0.len() <= storage@.len());
            assert(DATA_BITMAP_OFFSET + BLOCKS_BITMAP_SIZE <= disk0.len() ==> storage@.subrange(
                DATA_BITMAP_OFFSET as int,
                INODE_BITMAP_OFFSET as int,
            ) == disk0.subrange(DATA_BITMAP_OFFSET as int, INODE_BITMAP_OFFSET as int));
            assert(INODE_BITMAP_OFFSET + INODES_BITMAP_SIZE <= disk0.len() ==> storage@.subrange(
                INODE_BITMAP_OFFSET as int,
                INODE_TABLE_OFFSET as int,
            ) == disk0.subrange(INODE_BITMAP_OFFSET as int, INODE_TABLE_OFFSET as int));
            assert(INODE_BITMAP_OFFSET <= storage@.len() ==> INODE_BITMAP_OFFSET <= disk0.len());
            assert(INODE_TABLE_OFFSET <= storage@.len() ==> INODE_TABLE_OFFSET <= disk0.len());
        }
        let data_bitmap = match storage.read(default_sb.data_bitmap, BLOCKS_BITMAP_SIZE) {
            Ok(b) => {
                proof {
                    assert(b@ == loaded_d);
                }
                DataBitmap { inner: b }
            },
            Err(_) => {
                let d = DataBitmap::default();
                proof {
                    assert(d.inner@ == loaded_d);
                }
                match storage.write(default_sb.data_bitmap, d.immutable()) {
                    Ok(_) => (),
                    Err(e) => {
                        proof {
                            assert(false);
                        }
                        return Err(FsError::IoError);
                    },
                };
                d
            },
        };
        proof {
            assert(INODE_TABLE_OFFSET <= storage@.len() ==> INODE_TABLE_OFFSET <= disk0.len());
            assert(INODE_BITMAP_OFFSET + INODES_BITMAP_SIZE <= disk0.len() ==> storage@.subrange(
                INODE_BITMAP_OFFSET as int,
                INODE_TABLE_OFFSET as int,
            ) == disk0.subrange(INODE_BITMAP_OFFSET as int, INODE_TABLE_OFFSET as int));
        }
        let inode_bitmap = match storage.read(default_sb.inode_bitmap, INODES_BITMAP_SIZE) {
            Ok(b) => {
                proof {
                    assert(b@ == loaded_i);
                }
                InodeBitmap { inner: b }
            },
            Err(_) => {
                let d = InodeBitmap::default();
                proof {
                    assert(d.inner@ == loaded_i);
                }
                match storage.write(default_sb.inode_bitmap, d.immutable()) {
                    Ok(_) => (),
                    Err(e) => {
                        proof {
                            assert(false);
                        }
                        return Err(FsError::IoError);
                    },
                };
                d
            },
        };
        let mut fs = Fs {
            superblock: default_sb,
            data_bitmap,
            inode_bitmap,
            storage,
            cur_dir: String::from_str("/"),
            cur_inode_ind: 0,
            path_names: Vec::new(),
        };
        proof {
            reveal_strlit("/");
            assert("/"@ =~= seq!['/']);
            assert(fs.path() =~= Seq::<Seq<char>>::empty());
            assert(fs.wf());
            assert(fs.data_bits() == loaded_d);
            assert(fs.inode_bits() == loaded_i);
            if disk0.len() == 0 {
                lemma_zero_bits(fs.data_bits());
                lemma_zero_bits(fs.inode_bits());
            }
        }
        let ghost fs0 = fs;
        let root = Directory { parent_inode_ind: None, files: Vec::new() };
        let dirbytes = encode_directory(&root);
        proof {
            assert(root.v().files =~= Seq::<(int, Seq<char>)>::empty());
            vstd::bytes::lemma_auto_spec_u64_to_from_le_bytes();
            assert(crate::codec::spec_encode_entries(Seq::<(int, Seq<char>)>::empty())
                == Seq::<u8>::empty());
            assert(dirbytes@.len() == 9);
        }
        match fs.write_data(true, &dirbytes) {
            Ok(_) => (),
            Err(e) => {
                proof {
                    if disk0.len() == 0 {
                        lemma_fresh_mount_allocs(fs0, dirbytes@);
                        assert(false);
                    }
                }
                return Err(e);
            },
        };
        proof {
            if disk0.len() == 0 {
                lemma_fresh_mount_allocs(fs0, dirbytes@);
                let data = dirbytes@;
                let needed = ceil_div(data.len() as int, BLOCK_SIZE as int);
                let c = seq![1int];
                let iv2 = InodeV {
                    size: data.len() as int,
                    is_directory: true,
                    direct: Seq::new(
                        INODE_LINKS as nat,
                        |k: int|
                            if k < needed {
                                c[k]
                            } else {
                                0
                            },
                    ),
                };
                let bitdump = spec_write(
                    spec_write_chunks(fs0.disk(), c, data),
                    DATA_BITMAP_OFFSET as int,
                    fs.data_bits(),
                );
                crate::codec::lemma_inode_round_trip(iv2);
                lemma_update_payload_round_trip(fs0.disk(), c, data, iv2, fs.data_bits());
                lemma_mul_bound(0, 1, INODE_SIZE as int);
                assert(inode_off(0) == INODE_TABLE_OFFSET as int);
                lemma_payload_frame_low_write(
                    bitdump,
                    inode_off(0),
                    spec_encode_inode(iv2),
                    iv2,
                );
                let d2 = spec_write(bitdump, inode_off(0), spec_encode_inode(iv2));
                lemma_payload_frame_low_write(
                    d2,
                    INODE_BITMAP_OFFSET as int,
                    fs.inode_bits(),
                    iv2,
                );
                lemma_write_read(bitdump, inode_off(0), spec_encode_inode(iv2));
                assert(spec_inode_at(d2, 0) == Some(iv2));
                lemma_inode_at_frame(d2, INODE_BITMAP_OFFSET as int, fs.inode_bits(), 0);
                crate::codec::lemma_dir_round_trip(root.v());
                assert(spec_dir_at(fs.disk(), 0) == Some(
                    DirView { parent: Option::None, files: Seq::empty() },
                ));
                crate::structure::lemma_spec_set_bit(fs0.inode_bits(), 0, true);
                assert forall|j: int| bit_taken(fs.data_bits(), j) <==> j == 1 by {
                    if j == 1 {
                        assert(c[0] == 1);
                        assert(in_chosen(c, j));
                    } else {
                        if in_chosen(c, j) {
                            let kk = choose|kk: int| 0 <= kk < c.len() && c[kk] == j;
                            assert(false);
                        }
                    }
                }
                assert(iv2.blocks() == 1);
                assert(dir_backed(fs.disk(), fs.data_bits(), fs.inode_bits(), 0)) by {
                    assert(bit_taken(fs.inode_bits(), 0));
                    assert(iv2.direct[0] == 1);
                    assert(bit_taken(fs.data_bits(), 1));
                }
            }
        }
        Ok(fs)
    }
}

} // verus!
