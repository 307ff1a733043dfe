//! The volume's binary codec: deterministic, little-endian, length-prefixed
//! encodings of the superblock, the inode, the directory payload and file
//! content. Fixed-size integers are encoded in place as 8-byte little-endian
//! words; the variable-length entry list of a directory is prefixed with its
//! element count. Anything written at volume creation decodes identically at
//! every later mount.

use crate::error::FsError;
use crate::structure::DirView;
use crate::structure::Directory;
use crate::structure::Inode;
use crate::structure::InodeV;
use crate::structure::INODES_COUNT;
use crate::structure::Superblock;
use crate::structure::BLOCKS_COUNT;
use crate::structure::BLOCK_SIZE;
use crate::structure::INODE_LINKS;
use crate::structure::INODE_SIZE;
use crate::structure::SUPERBLOCK_SIZE;
use vstd::bytes::*;
use vstd::prelude::*;
use vstd::utf8::*;

verus! {

/// The 8-byte little-endian encoding of a non-negative integer below 2^64.
pub open spec fn spec_le8(x: int) -> Seq<u8>
    recommends
        0 <= x < 0x1_0000_0000_0000_0000,
{
    spec_u64_to_le_bytes(x as u64)
}

/// The integer held by the 8 bytes at `off`, little-endian.
pub open spec fn spec_u64_at(bytes: Seq<u8>, off: int) -> int
    recommends
        0 <= off,
        off + 8 <= bytes.len(),
{
    spec_u64_from_le_bytes(bytes.subrange(off, off + 8)) as int
}

/// Append the 8-byte little-endian encoding of `x`.
fn push_u64(out: &mut Vec<u8>, x: u64)
    ensures
        final(out)@ == old(out)@ + spec_u64_to_le_bytes(x),
{
    let mut b = u64_to_le_bytes(x);
    out.append(&mut b);
}

/// Append the 8-byte little-endian encoding of `x`.
fn push_usize(out: &mut Vec<u8>, x: usize)
    ensures
        final(out)@ == old(out)@ + spec_le8(x as int),
{
    push_u64(out, x as u64);
}

/// Read the 8-byte little-endian word at `off`.
fn read_u64_at(bytes: &Vec<u8>, off: usize) -> (r: u64)
    requires
        off + 8 <= bytes@.len(),
    ensures
        r as int == spec_u64_at(bytes@, off as int),
{
    // Binding the length records that it is a machine word, so that `off + 8`
    // cannot overflow.
    let _n = bytes.len();
    let s = vstd::slice::slice_subrange(bytes.as_slice(), off, off + 8);
    u64_from_le_bytes(s)
}

/// Relies on `String::from_utf8`: it returns the string whose UTF-8 encoding
/// is the given bytes, and rejects exactly the byte sequences that are not
/// valid UTF-8.
#[verifier::external_body]
fn string_from_utf8(bytes: Vec<u8>) -> (r: Option<String>)
    ensures
        r is Some <==> valid_utf8(bytes@),
        r is Some ==> encode_utf8(r.unwrap()@) == bytes@ && r.unwrap()@ == decode_utf8(bytes@),
{
    match std::string::String::from_utf8(bytes) {
        Ok(s) => Some(s),
        Err(_) => None,
    }
}

// ---------------------------------------------------------------------------
// File content: an 8-byte length prefix followed by the raw bytes.
// ---------------------------------------------------------------------------
/// The encoding of file content.
pub open spec fn spec_encode_content(data: Seq<u8>) -> Seq<u8> {
    spec_le8(data.len() as int) + data
}

/// The content held by an encoded payload: the length prefix must match the
/// remaining byte count exactly.
pub open spec fn spec_decode_content(bytes: Seq<u8>) -> Option<Seq<u8>> {
    if bytes.len() >= 8 && spec_u64_at(bytes, 0) == bytes.len() - 8 {
        Some(bytes.skip(8))
    } else {
        None
    }
}

/// The text held by an encoded payload, when its bytes form valid UTF-8.
pub open spec fn spec_decode_text(bytes: Seq<u8>) -> Option<Seq<char>> {
    match spec_decode_content(bytes) {
        Some(b) => if valid_utf8(b) {
            Some(decode_utf8(b))
        } else {
            None
        },
        None => None,
    }
}

/// Content encoding decodes back to the same bytes.
pub proof fn lemma_content_round_trip(data: Seq<u8>)
    requires
        data.len() < 0x1_0000_0000_0000_0000,
    ensures
        spec_decode_content(spec_encode_content(data)) == Some(data),
{
    lemma_auto_spec_u64_to_from_le_bytes();
    let e = spec_encode_content(data);
    assert(e.subrange(0, 8) =~= spec_le8(data.len() as int));
    assert(e.skip(8) =~= data);
}

/// Encode file content.
pub fn encode_content(data: &[u8]) -> (r: Vec<u8>)
    ensures
        r@ == spec_encode_content(data@),
{
    let mut out: Vec<u8> = Vec::new();
    push_usize(&mut out, data.len());
    let mut tail = vstd::slice::slice_to_vec(data);
    out.append(&mut tail);
    proof {
        assert(out@ =~= spec_encode_content(data@));
    }
    out
}

/// Decode an encoded payload as text.
pub fn decode_text(bytes: &Vec<u8>) -> (r: Result<String, FsError>)
    ensures
        match spec_decode_text(bytes@) {
            Some(t) => r is Ok && r.unwrap()@ == t,
            None => r == Err::<String, FsError>(FsError::CodecError),
        },
{
    if bytes.len() < 8 {
        return Err(FsError::CodecError);
    }
    let len = read_u64_at(bytes, 0);
    if len != (bytes.len() - 8) as u64 {
        proof {
            assert(bytes@.len() <= usize::MAX);
        }
        return Err(FsError::CodecError);
    }
    let content = vstd::slice::slice_to_vec(
        vstd::slice::slice_subrange(bytes.as_slice(), 8, bytes.len()),
    );
    proof {
        assert(content@ =~= bytes@.skip(8));
    }
    match string_from_utf8(content) {
        Some(s) => Ok(s),
        None => Err(FsError::CodecError),
    }
}

// ---------------------------------------------------------------------------
// Superblock: eight 8-byte words in declaration order.
// ---------------------------------------------------------------------------
/// The encoding of a superblock.
pub open spec fn spec_encode_superblock(sb: Superblock) -> Seq<u8> {
    spec_le8(sb.block_size as int) + spec_le8(sb.inode_size as int) + spec_le8(
        sb.blocks_count as int,
    ) + spec_le8(sb.inodes_count as int) + spec_le8(sb.data_bitmap as int) + spec_le8(
        sb.inode_bitmap as int,
    ) + spec_le8(sb.inode_table as int) + spec_le8(sb.data_blocks as int)
}

/// The superblock held by 64 encoded bytes; fails when a word does not fit
/// the machine's word size.
pub open spec fn spec_decode_superblock(bytes: Seq<u8>) -> Option<Superblock>
    recommends
        bytes.len() == SUPERBLOCK_SIZE,
{
    if spec_u64_at(bytes, 0) <= usize::MAX && spec_u64_at(bytes, 8) <= usize::MAX && spec_u64_at(
        bytes,
        16,
    ) <= usize::MAX && spec_u64_at(bytes, 24) <= usize::MAX && spec_u64_at(bytes, 32) <= usize::MAX
        && spec_u64_at(bytes, 40) <= usize::MAX && spec_u64_at(bytes, 48) <= usize::MAX
        && spec_u64_at(bytes, 56) <= usize::MAX {
        Some(
            Superblock {
                block_size: spec_u64_at(bytes, 0) as usize,
                inode_size: spec_u64_at(bytes, 8) as usize,
                blocks_count: spec_u64_at(bytes, 16) as usize,
                inodes_count: spec_u64_at(bytes, 24) as usize,
                data_bitmap: spec_u64_at(bytes, 32) as usize,
                inode_bitmap: spec_u64_at(bytes, 40) as usize,
                inode_table: spec_u64_at(bytes, 48) as usize,
                data_blocks: spec_u64_at(bytes, 56) as usize,
            },
        )
    } else {
        None
    }
}

/// A superblock decodes back to itself.
pub proof fn lemma_superblock_round_trip(sb: Superblock)
    ensures
        spec_encode_superblock(sb).len() == SUPERBLOCK_SIZE,
        spec_decode_superblock(spec_encode_superblock(sb)) == Some(sb),
{
    lemma_auto_spec_u64_to_from_le_bytes();
    let e = spec_encode_superblock(sb);
    assert(e.subrange(0, 8) =~= spec_le8(sb.block_size as int));
    assert(e.subrange(8, 16) =~= spec_le8(sb.inode_size as int));
    assert(e.subrange(16, 24) =~= spec_le8(sb.blocks_count as int));
    assert(e.subrange(24, 32) =~= spec_le8(sb.inodes_count as int));
    assert(e.subrange(32, 40) =~= spec_le8(sb.data_bitmap as int));
    assert(e.subrange(40, 48) =~= spec_le8(sb.inode_bitmap as int));
    assert(e.subrange(48, 56) =~= spec_le8(sb.inode_table as int));
    assert(e.subrange(56, 64) =~= spec_le8(sb.data_blocks as int));
}

/// Encode a superblock.
pub fn encode_superblock(sb: &Superblock) -> (r: Vec<u8>)
    ensures
        r@ == spec_encode_superblock(*sb),
        r@.len() == SUPERBLOCK_SIZE,
{
    let mut out: Vec<u8> = Vec::new();
    push_usize(&mut out, sb.block_size);
    push_usize(&mut out, sb.inode_size);
    push_usize(&mut out, sb.blocks_count);
    push_usize(&mut out, sb.inodes_count);
    push_usize(&mut out, sb.data_bitmap);
    push_usize(&mut out, sb.inode_bitmap);
    push_usize(&mut out, sb.inode_table);
    push_usize(&mut out, sb.data_blocks);
    proof {
        lemma_auto_spec_u64_to_from_le_bytes();
        assert(out@ =~= spec_encode_superblock(*sb));
    }
    out
}

/// Decode a superblock from its 64-byte region.
pub fn decode_superblock(bytes: &Vec<u8>) -> (r: Result<Superblock, FsError>)
    requires
        bytes@.len() == SUPERBLOCK_SIZE,
    ensures
        match spec_decode_superblock(bytes@) {
            Some(sb) => r == Ok::<Superblock, FsError>(sb),
            None => r == Err::<Superblock, FsError>(FsError::CodecError),
        },
{
    let v0 = read_u64_at(bytes, 0);
    let v1 = read_u64_at(bytes, 8);
    let v2 = read_u64_at(bytes, 16);
    let v3 = read_u64_at(bytes, 24);
    let v4 = read_u64_at(bytes, 32);
    let v5 = read_u64_at(bytes, 40);
    let v6 = read_u64_at(bytes, 48);
    let v7 = read_u64_at(bytes, 56);
    let max = usize::MAX as u64;
    if v0 > max || v1 > max || v2 > max || v3 > max || v4 > max || v5 > max || v6 > max || v7
        > max {
        return Err(FsError::CodecError);
    }
    Ok(
        Superblock {
            block_size: v0 as usize,
            inode_size: v1 as usize,
            blocks_count: v2 as usize,
            inodes_count: v3 as usize,
            data_bitmap: v4 as usize,
            inode_bitmap: v5 as usize,
            inode_table: v6 as usize,
            data_blocks: v7 as usize,
        },
    )
}

// ---------------------------------------------------------------------------
// Inode: 8-byte size, 1-byte kind, then INODE_LINKS 8-byte direct pointers.
// ---------------------------------------------------------------------------
/// The in-place encoding of a row of direct pointers.
pub open spec fn spec_encode_ptrs(direct: Seq<int>) -> Seq<u8>
    decreases direct.len(),
{
    if direct.len() == 0 {
        Seq::empty()
    } else {
        spec_encode_ptrs(direct.drop_last()) + spec_le8(direct.last())
    }
}

proof fn lemma_encode_ptrs_len(s: Seq<int>)
    ensures
        spec_encode_ptrs(s).len() == 8 * s.len(),
    decreases s.len(),
{
    if s.len() > 0 {
        lemma_encode_ptrs_len(s.drop_last());
        lemma_auto_spec_u64_to_from_le_bytes();
    }
}

proof fn lemma_encode_ptrs_index(s: Seq<int>, k: int)
    requires
        0 <= k < s.len(),
    ensures
        spec_encode_ptrs(s).subrange(8 * k, 8 * k + 8) == spec_le8(s[k]),
    decreases s.len(),
{
    lemma_auto_spec_u64_to_from_le_bytes();
    lemma_encode_ptrs_len(s.drop_last());
    if k == s.len() - 1 {
        assert(spec_encode_ptrs(s).subrange(8 * k, 8 * k + 8) =~= spec_le8(s[k]));
    } else {
        lemma_encode_ptrs_index(s.drop_last(), k);
        assert(spec_encode_ptrs(s).subrange(8 * k, 8 * k + 8) =~= spec_encode_ptrs(
            s.drop_last(),
        ).subrange(8 * k, 8 * k + 8));
    }
}

/// The value of the `k`-th direct pointer inside an encoded inode.
pub open spec fn spec_ptr_at(bytes: Seq<u8>, k: int) -> int
    recommends
        0 <= k < INODE_LINKS,
        bytes.len() == INODE_SIZE,
{
    spec_u64_at(bytes, 9 + 8 * k)
}

/// The encoding of an inode.
pub open spec fn spec_encode_inode(iv: InodeV) -> Seq<u8> {
    spec_le8(iv.size) + seq![
        if iv.is_directory {
            1u8
        } else {
            0u8
        },
    ] + spec_encode_ptrs(iv.direct)
}

/// The inode held by an encoded 105-byte row. Decoding enforces the inode
/// invariant: the payload fits the direct pointers and the meaningful
/// pointers are strictly increasing indices of real blocks.
pub open spec fn spec_decode_inode(bytes: Seq<u8>) -> Option<InodeV>
    recommends
        bytes.len() == INODE_SIZE,
{
    let size = spec_u64_at(bytes, 0);
    let kind = bytes[8];
    let direct = Seq::new(INODE_LINKS as nat, |k: int| spec_ptr_at(bytes, k));
    let iv = InodeV { size, is_directory: kind == 1u8, direct };
    if size <= (INODE_LINKS * BLOCK_SIZE) as int && (kind == 0u8 || kind == 1u8) && (forall|k: int|
        0 <= k < INODE_LINKS ==> #[trigger] direct[k] <= usize::MAX) && (forall|k: int|
        0 <= k < iv.blocks() ==> 0 <= #[trigger] direct[k] < BLOCKS_COUNT) && (forall|
        k1: int,
        k2: int,
    |
        0 <= k1 < k2 < iv.blocks() ==> #[trigger] direct[k1] < #[trigger] direct[k2]) {
        Some(iv)
    } else {
        None
    }
}

/// A decoded inode is well-formed.
pub proof fn lemma_decoded_inode_wf(bytes: Seq<u8>)
    requires
        spec_decode_inode(bytes) is Some,
    ensures
        spec_decode_inode(bytes).unwrap().wf(),
{
}

/// An inode decodes back to itself.
pub proof fn lemma_inode_round_trip(iv: InodeV)
    requires
        iv.wf(),
        forall|k: int| 0 <= k < INODE_LINKS ==> 0 <= #[trigger] iv.direct[k] <= usize::MAX,
    ensures
        spec_encode_inode(iv).len() == INODE_SIZE,
        spec_decode_inode(spec_encode_inode(iv)) == Some(iv),
{
    lemma_auto_spec_u64_to_from_le_bytes();
    lemma_encode_ptrs_len(iv.direct);
    let e = spec_encode_inode(iv);
    assert(e.subrange(0, 8) =~= spec_le8(iv.size));
    assert(e[8] == if iv.is_directory {
        1u8
    } else {
        0u8
    });
    assert forall|k: int| 0 <= k < INODE_LINKS implies #[trigger] spec_ptr_at(e, k)
        == iv.direct[k] by {
        lemma_encode_ptrs_index(iv.direct, k);
        assert(e.subrange(9 + 8 * k, 9 + 8 * k + 8) =~= spec_encode_ptrs(iv.direct).subrange(
            8 * k,
            8 * k + 8,
        ));
    }
    let direct = Seq::new(INODE_LINKS as nat, |k: int| spec_ptr_at(e, k));
    assert(direct =~= iv.direct);
    assert(spec_decode_inode(e) == Some(iv));
}

/// Encode an inode.
pub fn encode_inode(inode: &Inode) -> (r: Vec<u8>)
    ensures
        r@ == spec_encode_inode(inode.v()),
        r@.len() == INODE_SIZE,
{
    let ghost iv = inode.v();
    let mut out: Vec<u8> = Vec::new();
    push_usize(&mut out, inode.size);
    out.push(if inode.is_directory {
        1u8
    } else {
        0u8
    });
    proof {
        lemma_auto_spec_u64_to_from_le_bytes();
        assert(spec_encode_ptrs(iv.direct.take(0)) =~= Seq::<u8>::empty());
        assert(out@ =~= spec_le8(iv.size) + seq![
            if iv.is_directory {
                1u8
            } else {
                0u8
            },
        ] + spec_encode_ptrs(iv.direct.take(0)));
    }
    let mut k: usize = 0;
    while k < INODE_LINKS
        invariant
            k <= INODE_LINKS,
            iv == inode.v(),
            out@ == spec_le8(iv.size) + seq![
                if iv.is_directory {
                    1u8
                } else {
                    0u8
                },
            ] + spec_encode_ptrs(iv.direct.take(k as int)),
        decreases INODE_LINKS - k,
    {
        push_usize(&mut out, inode.direct[k]);
        k = k + 1;
        proof {
            assert(iv.direct.take(k as int).drop_last() =~= iv.direct.take(k - 1));
            assert(iv.direct.take(k as int).last() == iv.direct[k - 1]);
            assert(out@ =~= spec_le8(iv.size) + seq![
                if iv.is_directory {
                    1u8
                } else {
                    0u8
                },
            ] + spec_encode_ptrs(iv.direct.take(k as int)));
        }
    }
    proof {
        assert(iv.direct.take(INODE_LINKS as int) =~= iv.direct);
        lemma_encode_ptrs_len(iv.direct);
    }
    out
}

/// Decode an inode from its 105-byte row.
pub fn decode_inode(bytes: &Vec<u8>) -> (r: Result<Inode, FsError>)
    requires
        bytes@.len() == INODE_SIZE,
    ensures
        match spec_decode_inode(bytes@) {
            Some(iv) => r is Ok && r.unwrap().v() == iv,
            None => r == Err::<Inode, FsError>(FsError::CodecError),
        },
{
    let ghost sdirect = Seq::new(INODE_LINKS as nat, |k: int| spec_ptr_at(bytes@, k));
    let size64 = read_u64_at(bytes, 0);
    if size64 > (INODE_LINKS * BLOCK_SIZE) as u64 {
        return Err(FsError::CodecError);
    }
    let kind = bytes[8];
    if kind != 0u8 && kind != 1u8 {
        return Err(FsError::CodecError);
    }
    let size = size64 as usize;
    let mut direct: [usize; 12] = [0; 12];
    let mut k: usize = 0;
    while k < INODE_LINKS
        invariant
            k <= INODE_LINKS,
            bytes@.len() == INODE_SIZE,
            sdirect == Seq::new(INODE_LINKS as nat, |j: int| spec_ptr_at(bytes@, j)),
            forall|j: int| 0 <= j < k ==> #[trigger] direct@[j] as int == sdirect[j],
        decreases INODE_LINKS - k,
    {
        let v = read_u64_at(bytes, 9 + 8 * k);
        if v > usize::MAX as u64 {
            proof {
                assert(sdirect[k as int] > usize::MAX);
            }
            return Err(FsError::CodecError);
        }
        direct[k] = v as usize;
        k = k + 1;
    }
    let blocks = (size + BLOCK_SIZE - 1) / BLOCK_SIZE;
    let ghost iv = InodeV { size: size as int, is_directory: kind == 1u8, direct: sdirect };
    proof {
        assert(iv.blocks() == blocks as int);
    }
    let mut k: usize = 0;
    while k < blocks
        invariant
            k <= blocks,
            bytes@.len() == INODE_SIZE,
            size as int == spec_u64_at(bytes@, 0),
            size <= INODE_LINKS * BLOCK_SIZE,
            kind == bytes@[8],
            kind == 0u8 || kind == 1u8,
            sdirect == Seq::new(INODE_LINKS as nat, |j: int| spec_ptr_at(bytes@, j)),
            iv == (InodeV { size: size as int, is_directory: kind == 1u8, direct: sdirect }),
            blocks == iv.blocks(),
            blocks <= INODE_LINKS,
            forall|j: int| 0 <= j < INODE_LINKS ==> #[trigger] direct@[j] as int == sdirect[j],
            forall|j: int| 0 <= j < k ==> 0 <= #[trigger] sdirect[j] < BLOCKS_COUNT,
            forall|j1: int, j2: int|
                0 <= j1 < j2 < k ==> #[trigger] sdirect[j1] < #[trigger] sdirect[j2],
        decreases blocks - k,
    {
        if direct[k] >= BLOCKS_COUNT {
            return Err(FsError::CodecError);
        }
        if k > 0 && direct[k - 1] >= direct[k] {
            return Err(FsError::CodecError);
        }
        k = k + 1;
    }
    let inode = Inode { size, is_directory: kind == 1u8, direct };
    proof {
        assert(inode.v().direct =~= sdirect);
        assert(spec_decode_inode(bytes@) == Some(inode.v()));
    }
    Ok(inode)
}

// ---------------------------------------------------------------------------
// Directory payload: a 1-byte parent tag (1 followed by the 8-byte parent
// index, or 0 for the root), the 8-byte entry count, then for each entry the
// 8-byte inode index, the 8-byte name length and the UTF-8 name bytes.
// ---------------------------------------------------------------------------
/// The encoding of one directory entry name.
pub open spec fn spec_encode_name(name: Seq<char>) -> Seq<u8> {
    spec_le8(encode_utf8(name).len() as int) + encode_utf8(name)
}

/// The encoding of one directory entry.
pub open spec fn spec_encode_entry(e: (int, Seq<char>)) -> Seq<u8> {
    spec_le8(e.0) + spec_encode_name(e.1)
}

/// The encoding of a directory's entry list, in order.
pub open spec fn spec_encode_entries(files: Seq<(int, Seq<char>)>) -> Seq<u8>
    decreases files.len(),
{
    if files.len() == 0 {
        Seq::empty()
    } else {
        spec_encode_entry(files[0]) + spec_encode_entries(files.skip(1))
    }
}

/// The encoding of a directory payload.
pub open spec fn spec_encode_dir(d: DirView) -> Seq<u8> {
    (match d.parent {
        Option::None => seq![0u8],
        Option::Some(p) => seq![1u8] + spec_le8(p),
    }) + spec_le8(d.files.len() as int) + spec_encode_entries(d.files)
}

/// Parse `n` entries starting at `pos`; yields the entries and the position
/// after them.
pub open spec fn spec_decode_entries(bytes: Seq<u8>, pos: int, n: nat) -> Option<
    (Seq<(int, Seq<char>)>, int),
>
    recommends
        0 <= pos,
    decreases n,
{
    if n == 0 {
        Some((Seq::empty(), pos))
    } else if pos + 16 <= bytes.len() {
        let ind = spec_u64_at(bytes, pos);
        let nlen = spec_u64_at(bytes, pos + 8);
        if ind < INODES_COUNT && pos + 16 + nlen <= bytes.len() {
            let nb = bytes.subrange(pos + 16, pos + 16 + nlen);
            if valid_utf8(nb) {
                match spec_decode_entries(bytes, pos + 16 + nlen, (n - 1) as nat) {
                    Some((rest, end)) => Some((seq![(ind, decode_utf8(nb))] + rest, end)),
                    None => None,
                }
            } else {
                None
            }
        } else {
            None
        }
    } else {
        None
    }
}

/// The outcome of a directory decode whose parent is `parent` and whose first
/// entries decoded as `done`, with `n` entries left to parse at `pos`: the
/// remaining entries must parse and consume the bytes exactly.
pub open spec fn spec_dir_result(
    bytes: Seq<u8>,
    parent: Option<int>,
    done: Seq<(int, Seq<char>)>,
    pos: int,
    n: nat,
) -> Option<DirView> {
    match spec_decode_entries(bytes, pos, n) {
        Some((rest, end)) => if end == bytes.len() {
            Some(DirView { parent, files: done + rest })
        } else {
            None
        },
        None => None,
    }
}

/// The directory payload held by encoded bytes, consumed exactly. Decoding
/// enforces that the parent and every entry index a real inode slot.
pub open spec fn spec_decode_dir(bytes: Seq<u8>) -> Option<DirView> {
    if bytes.len() >= 9 && bytes[0] == 0u8 {
        spec_dir_result(bytes, Option::None, Seq::empty(), 9, spec_u64_at(bytes, 1) as nat)
    } else if bytes.len() >= 17 && bytes[0] == 1u8 && spec_u64_at(bytes, 1) < INODES_COUNT {
        spec_dir_result(
            bytes,
            Option::Some(spec_u64_at(bytes, 1)),
            Seq::empty(),
            17,
            spec_u64_at(bytes, 9) as nat,
        )
    } else {
        None
    }
}

/// Parsing one entry and moving it from the remainder to `done` leaves the
/// decode outcome unchanged.
proof fn lemma_dir_result_step(
    bytes: Seq<u8>,
    parent: Option<int>,
    done: Seq<(int, Seq<char>)>,
    pos: int,
    n: nat,
)
    requires
        n > 0,
        0 <= pos,
        pos + 16 <= bytes.len(),
        spec_u64_at(bytes, pos) < INODES_COUNT,
        pos + 16 + spec_u64_at(bytes, pos + 8) <= bytes.len(),
        valid_utf8(bytes.subrange(pos + 16, pos + 16 + spec_u64_at(bytes, pos + 8))),
    ensures
        spec_dir_result(bytes, parent, done, pos, n) == spec_dir_result(
            bytes,
            parent,
            done + seq![
                (
                    spec_u64_at(bytes, pos),
                    decode_utf8(
                        bytes.subrange(pos + 16, pos + 16 + spec_u64_at(bytes, pos + 8)),
                    ),
                ),
            ],
            pos + 16 + spec_u64_at(bytes, pos + 8),
            (n - 1) as nat,
        ),
{
    let ind = spec_u64_at(bytes, pos);
    let nlen = spec_u64_at(bytes, pos + 8);
    let nb = bytes.subrange(pos + 16, pos + 16 + nlen);
    let e = (ind, decode_utf8(nb));
    let next = spec_decode_entries(bytes, pos + 16 + nlen, (n - 1) as nat);
    if next is Some {
        let rest = next.unwrap().0;
        assert(done + (seq![e] + rest) =~= (done + seq![e]) + rest);
    }
}

proof fn lemma_encode_entries_snoc(files: Seq<(int, Seq<char>)>)
    requires
        files.len() > 0,
    ensures
        spec_encode_entries(files) == spec_encode_entries(files.drop_last()) + spec_encode_entry(
            files.last(),
        ),
    decreases files.len(),
{
    if files.len() == 1 {
        assert(files.skip(1) =~= Seq::<(int, Seq<char>)>::empty());
        assert(files.drop_last() =~= Seq::<(int, Seq<char>)>::empty());
        assert(spec_encode_entries(files) =~= spec_encode_entries(files.drop_last())
            + spec_encode_entry(files.last()));
    } else {
        lemma_encode_entries_snoc(files.skip(1));
        assert(files.skip(1).drop_last() =~= files.drop_last().skip(1));
        assert(files.skip(1).last() == files.last());
        assert(files.drop_last()[0] == files[0]);
        assert(spec_encode_entries(files) =~= spec_encode_entries(files.drop_last())
            + spec_encode_entry(files.last()));
    }
}

proof fn lemma_sub_of_sub(bytes: Seq<u8>, pos: int, a: int, b: int)
    requires
        0 <= pos <= bytes.len(),
        pos <= a <= b <= bytes.len(),
    ensures
        bytes.subrange(a, b) == bytes.subrange(pos, bytes.len() as int).subrange(a - pos, b - pos),
{
    assert(bytes.subrange(a, b) =~= bytes.subrange(pos, bytes.len() as int).subrange(
        a - pos,
        b - pos,
    ));
}

/// An entry list decodes back to itself from wherever its encoding ends the
/// byte string.
pub proof fn lemma_entries_round_trip(bytes: Seq<u8>, pos: int, files: Seq<(int, Seq<char>)>)
    requires
        0 <= pos <= bytes.len(),
        bytes.subrange(pos, bytes.len() as int) == spec_encode_entries(files),
        forall|k: int| 0 <= k < files.len() ==> 0 <= #[trigger] files[k].0 < INODES_COUNT,
        forall|k: int|
            0 <= k < files.len() ==> encode_utf8(#[trigger] files[k].1).len()
                < 0x1_0000_0000_0000_0000,
    ensures
        spec_decode_entries(bytes, pos, files.len() as nat) == Some((files, bytes.len() as int)),
    decreases files.len(),
{
    lemma_auto_spec_u64_to_from_le_bytes();
    if files.len() == 0 {
        assert(spec_encode_entries(files) == Seq::<u8>::empty());
        assert(bytes.len() == pos);
    } else {
        let e0 = files[0];
        let nbytes = encode_utf8(e0.1);
        let nlen = nbytes.len() as int;
        let enc = spec_encode_entries(files);
        assert(enc == spec_encode_entry(e0) + spec_encode_entries(files.skip(1)));
        assert(spec_le8(e0.0).len() == 8);
        assert(spec_le8(nlen).len() == 8);
        assert(enc.len() == bytes.len() - pos);
        lemma_sub_of_sub(bytes, pos, pos, pos + 8);
        assert(enc.subrange(0, 8) =~= spec_le8(e0.0));
        assert(spec_u64_at(bytes, pos) == e0.0);
        lemma_sub_of_sub(bytes, pos, pos + 8, pos + 16);
        assert(enc.subrange(8, 16) =~= spec_le8(nlen));
        assert(spec_u64_at(bytes, pos + 8) == nlen);
        lemma_sub_of_sub(bytes, pos, pos + 16, pos + 16 + nlen);
        assert(enc.subrange(16, 16 + nlen) =~= nbytes);
        assert(bytes.subrange(pos + 16, pos + 16 + nlen) == nbytes);
        encode_utf8_valid_utf8(e0.1);
        encode_utf8_decode_utf8(e0.1);
        lemma_sub_of_sub(bytes, pos, pos + 16 + nlen, bytes.len() as int);
        assert(enc.subrange(16 + nlen, enc.len() as int) =~= spec_encode_entries(files.skip(1)));
        assert(forall|k: int|
            0 <= k < files.skip(1).len() ==> #[trigger] files.skip(1)[k] == files[k + 1]);
        lemma_entries_round_trip(bytes, pos + 16 + nlen, files.skip(1));
        assert(seq![(e0.0, decode_utf8(nbytes))] + files.skip(1) =~= files);
    }
}

/// A directory payload decodes back to itself.
pub proof fn lemma_dir_round_trip(d: DirView)
    requires
        d.wf(),
        d.files.len() < 0x1_0000_0000_0000_0000,
        forall|k: int|
            0 <= k < d.files.len() ==> encode_utf8(#[trigger] d.files[k].1).len()
                < 0x1_0000_0000_0000_0000,
    ensures
        spec_decode_dir(spec_encode_dir(d)) == Some(d),
{
    lemma_auto_spec_u64_to_from_le_bytes();
    let e = spec_encode_dir(d);
    match d.parent {
        Option::None => {
            assert(e[0] == 0u8);
            assert(e.subrange(1, 9) =~= spec_le8(d.files.len() as int));
            assert(spec_u64_at(e, 1) == d.files.len());
            assert(e.subrange(9, e.len() as int) =~= spec_encode_entries(d.files));
            lemma_entries_round_trip(e, 9, d.files);
            assert(Seq::<(int, Seq<char>)>::empty() + d.files =~= d.files);
        },
        Option::Some(p) => {
            assert(e[0] == 1u8);
            assert(e.subrange(1, 9) =~= spec_le8(p));
            assert(spec_u64_at(e, 1) == p);
            assert(e.subrange(9, 17) =~= spec_le8(d.files.len() as int));
            assert(spec_u64_at(e, 9) == d.files.len());
            assert(e.subrange(17, e.len() as int) =~= spec_encode_entries(d.files));
            lemma_entries_round_trip(e, 17, d.files);
            assert(Seq::<(int, Seq<char>)>::empty() + d.files =~= d.files);
        },
    }
}

proof fn lemma_decoded_entries_wf(bytes: Seq<u8>, pos: int, n: nat)
    requires
        spec_decode_entries(bytes, pos, n) is Some,
    ensures
        spec_decode_entries(bytes, pos, n).unwrap().0.len() == n,
        forall|k: int|
            0 <= k < n ==> 0 <= #[trigger] spec_decode_entries(bytes, pos, n).unwrap().0[k].0
                < INODES_COUNT,
    decreases n,
{
    if n > 0 {
        let nlen = spec_u64_at(bytes, pos + 8);
        lemma_decoded_entries_wf(bytes, pos + 16 + nlen, (n - 1) as nat);
    }
}

/// A decoded directory is well-formed: its parent and every entry index a
/// real inode slot.
pub proof fn lemma_decoded_dir_wf(bytes: Seq<u8>)
    requires
        spec_decode_dir(bytes) is Some,
    ensures
        spec_decode_dir(bytes).unwrap().wf(),
{
    if bytes.len() >= 9 && bytes[0] == 0u8 {
        lemma_decoded_entries_wf(bytes, 9, spec_u64_at(bytes, 1) as nat);
    } else {
        lemma_decoded_entries_wf(bytes, 17, spec_u64_at(bytes, 9) as nat);
    }
}

/// The ghost image of an exec entry.
pub open spec fn entry_view(e: (usize, String)) -> (int, Seq<char>) {
    (e.0 as int, e.1@)
}

/// Encode a directory payload.
pub fn encode_directory(dir: &Directory) -> (r: Vec<u8>)
    ensures
        r@ == spec_encode_dir(dir.v()),
        dir.v().files.len() <= usize::MAX,
        forall|k: int|
            0 <= k < dir.v().files.len() ==> encode_utf8(#[trigger] dir.v().files[k].1).len()
                <= usize::MAX,
{
    let ghost dv = dir.v();
    let mut out: Vec<u8> = Vec::new();
    match dir.parent_inode_ind {
        None => out.push(0u8),
        Some(p) => {
            out.push(1u8);
            push_usize(&mut out, p);
        },
    };
    push_usize(&mut out, dir.files.len());
    let ghost prefix = out@;
    proof {
        assert(prefix =~= (match dv.parent {
            Option::None => seq![0u8],
            Option::Some(pp) => seq![1u8] + spec_le8(pp),
        }) + spec_le8(dv.files.len() as int));
        assert(out@ =~= prefix + spec_encode_entries(dv.files.take(0)));
    }
    let n = dir.files.len();
    let mut i: usize = 0;
    while i < n
        invariant
            i <= n,
            n == dir.files@.len(),
            dv == dir.v(),
            out@ == prefix + spec_encode_entries(dv.files.take(i as int)),
            forall|k: int|
                0 <= k < i ==> encode_utf8(#[trigger] dv.files[k].1).len() <= usize::MAX,
        decreases n - i,
    {
        push_usize(&mut out, dir.files[i].0);
        let nb = dir.files[i].1.as_str().as_bytes();
        let nl = nb.len();
        proof {
            assert(dv.files[i as int] == entry_view(dir.files@[i as int]));
        }
        push_usize(&mut out, nl);
        out.extend_from_slice(nb);
        i = i + 1;
        proof {
            lemma_encode_entries_snoc(dv.files.take(i as int));
            assert(dv.files.take(i as int).drop_last() =~= dv.files.take(i - 1));
            assert(dv.files.take(i as int).last() == dv.files[i - 1]);
            assert(dv.files[i - 1] == entry_view(dir.files@[i - 1]));
            assert(out@ =~= prefix + spec_encode_entries(dv.files.take(i as int)));
        }
    }
    proof {
        assert(dv.files.take(n as int) =~= dv.files);
        assert(out@ =~= spec_encode_dir(dv));
    }
    out
}

/// Decode a directory payload, consuming the bytes exactly.
pub fn decode_directory(bytes: &Vec<u8>) -> (r: Result<Directory, FsError>)
    ensures
        match spec_decode_dir(bytes@) {
            Some(d) => r is Ok && r.unwrap().v() == d,
            None => r == Err::<Directory, FsError>(FsError::CodecError),
        },
{
    let blen = bytes.len();
    if blen < 1 {
        return Err(FsError::CodecError);
    }
    let tag = bytes[0];
    if tag != 0u8 && tag != 1u8 {
        return Err(FsError::CodecError);
    }
    let parent: Option<usize>;
    let cpos: usize;
    if tag == 0u8 {
        if blen < 9 {
            return Err(FsError::CodecError);
        }
        parent = None;
        cpos = 1;
    } else {
        if blen < 17 {
            return Err(FsError::CodecError);
        }
        let p = read_u64_at(bytes, 1);
        if p >= INODES_COUNT as u64 {
            return Err(FsError::CodecError);
        }
        parent = Some(p as usize);
        cpos = 9;
    }
    let count = read_u64_at(bytes, cpos);
    let ghost pv = match parent {
        Option::None => Option::<int>::None,
        Option::Some(p) => Option::Some(p as int),
    };
    let mut files: Vec<(usize, String)> = Vec::new();
    let mut pos: usize = cpos + 8;
    let mut i: u64 = 0;
    proof {
        assert(files@.map_values(|e: (usize, String)| entry_view(e)) =~= Seq::<
            (int, Seq<char>),
        >::empty());
        assert(spec_decode_dir(bytes@) == spec_dir_result(
            bytes@,
            pv,
            files@.map_values(|e: (usize, String)| entry_view(e)),
            pos as int,
            (count - i) as nat,
        ));
    }
    while i < count
        invariant
            i <= count,
            pos <= blen,
            blen == bytes@.len(),
            spec_decode_dir(bytes@) == spec_dir_result(
                bytes@,
                pv,
                files@.map_values(|e: (usize, String)| entry_view(e)),
                pos as int,
                (count - i) as nat,
            ),
        decreases count - i,
    {
        let ghost done = files@.map_values(|e: (usize, String)| entry_view(e));
        let ghost pos0 = pos as int;
        if blen - pos < 16 {
            return Err(FsError::CodecError);
        }
        let ind = read_u64_at(bytes, pos);
        if ind >= INODES_COUNT as u64 {
            return Err(FsError::CodecError);
        }
        let nlen = read_u64_at(bytes, pos + 8);
        if nlen > (blen - pos - 16) as u64 {
            return Err(FsError::CodecError);
        }
        let nlen_us = nlen as usize;
        let nb = vstd::slice::slice_to_vec(
            vstd::slice::slice_subrange(bytes.as_slice(), pos + 16, pos + 16 + nlen_us),
        );
        proof {
            assert(nb@ =~= bytes@.subrange(pos0 + 16, pos0 + 16 + nlen as int));
        }
        match string_from_utf8(nb) {
            None => {
                return Err(FsError::CodecError);
            },
            Some(s) => {
                proof {
                    lemma_dir_result_step(bytes@, pv, done, pos0, (count - i) as nat);
                }
                files.push((ind as usize, s));
                pos = pos + 16 + nlen_us;
                i = i + 1;
                proof {
                    assert(files@.map_values(|e: (usize, String)| entry_view(e)) =~= done + seq![
                        (ind as int, s@),
                    ]);
                }
            },
        }
    }
    if pos != blen {
        return Err(FsError::CodecError);
    }
    let dir = Directory { parent_inode_ind: parent, files };
    proof {
        let done = dir.files@.map_values(|e: (usize, String)| entry_view(e));
        assert(done + Seq::<(int, Seq<char>)>::empty() =~= done);
        assert(dir.v().files =~= done);
    }
    Ok(dir)
}

} // verus!
