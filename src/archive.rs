use vstd::prelude::*;
use crate::bytes::{compare_bytes, lemma_bytes_cmp_order};
use crate::staging::{contents, lemma_sorted_unique, sorted, Key, StagingSet};

verus! {

/// The CRC-32 (IEEE 802.3) checksum of a byte string.
pub uninterp spec fn crc32_of(data: Seq<u8>) -> u32;

/// Relies on `crc32fast::hash`: the standard CRC-32 of all of `data`.
#[verifier::external_body]
fn crc32(data: &[u8]) -> (r: u32)
    ensures
        r == crc32_of(data@),
{
    crc32fast::hash(data)
}

/// First four bytes of every VPK file (little-endian).
pub const VPK_SIGNATURE: u32 = 0x55aa1234;

/// The format version this writer emits.
pub const VPK_VERSION: u32 = 1;

/// Archive index meaning "the payload is stored in this same file".
pub const EMBEDDED_ARCHIVE_INDEX: u16 = 0x7fff;

/// Last field of every entry record.
pub const ENTRY_TERMINATOR: u16 = 0xffff;

pub open spec fn le16(x: u16) -> Seq<u8> {
    seq![(x & 0xff) as u8, (x >> 8) as u8]
}

pub open spec fn le32(x: u32) -> Seq<u8> {
    seq![(x & 0xff) as u8, ((x >> 8) & 0xff) as u8, ((x >> 16) & 0xff) as u8, (x >> 24) as u8]
}

/// The payloads of the first `n` entries, back to back.
pub open spec fn data_section(s: Seq<(Key, Seq<u8>)>, n: nat) -> Seq<u8>
    decreases n,
{
    if n == 0 {
        Seq::empty()
    } else {
        data_section(s, (n - 1) as nat) + s[n - 1].1
    }
}

/// Where the payload of entry `i` starts in the data section.
pub open spec fn data_offset(s: Seq<(Key, Seq<u8>)>, i: nat) -> nat {
    data_section(s, i).len()
}

/// The 18-byte record of entry `i`: checksum, preload count (none), archive
/// index (this file), offset, length, terminator.
pub open spec fn record(s: Seq<(Key, Seq<u8>)>, i: nat) -> Seq<u8> {
    le32(crc32_of(s[i as int].1)) + le16(0) + le16(EMBEDDED_ARCHIVE_INDEX) + le32(
        data_offset(s, i) as u32,
    ) + le32(s[i as int].1.len() as u32) + le16(ENTRY_TERMINATOR)
}

/// What the tree holds before the name of entry `i`. The entries come in key
/// order, so a new extension closes the file list and the directory list of
/// the one before and opens its own, and a new directory closes the file
/// list of the one before.
pub open spec fn group_header(s: Seq<(Key, Seq<u8>)>, i: nat) -> Seq<u8> {
    let k = s[i as int].0;
    let opening = k.1.push(0);
    if i == 0 {
        k.0.push(0) + opening
    } else if s[i - 1].0.0 != k.0 {
        seq![0u8, 0u8] + k.0.push(0) + opening
    } else if s[i - 1].0.1 != k.1 {
        seq![0u8] + opening
    } else {
        Seq::empty()
    }
}

pub open spec fn entry_tree(s: Seq<(Key, Seq<u8>)>, i: nat) -> Seq<u8> {
    group_header(s, i) + s[i as int].0.2.push(0) + record(s, i)
}

/// The tree bytes of the first `n` entries.
pub open spec fn tree_prefix(s: Seq<(Key, Seq<u8>)>, n: nat) -> Seq<u8>
    decreases n,
{
    if n == 0 {
        Seq::empty()
    } else {
        tree_prefix(s, (n - 1) as nat) + entry_tree(s, (n - 1) as nat)
    }
}

/// The whole tree section: the entries, then the bytes that close the last
/// file list, directory list and extension list (one byte when empty).
pub open spec fn tree_section(s: Seq<(Key, Seq<u8>)>) -> Seq<u8> {
    tree_prefix(s, s.len()) + if s.len() == 0 {
        seq![0u8]
    } else {
        seq![0u8, 0u8, 0u8]
    }
}

/// Every offset, length and the tree size fit the format's 32-bit fields.
pub open spec fn archive_fits(s: Seq<(Key, Seq<u8>)>) -> bool {
    data_section(s, s.len()).len() <= u32::MAX && tree_section(s).len() <= u32::MAX
}

/// The version-1 archive of a sorted content set: header, tree, data.
pub open spec fn archive_bytes(s: Seq<(Key, Seq<u8>)>) -> Seq<u8> {
    le32(VPK_SIGNATURE) + le32(VPK_VERSION) + le32(tree_section(s).len() as u32) + tree_section(s)
        + data_section(s, s.len())
}

proof fn lemma_data_section_grows(s: Seq<(Key, Seq<u8>)>, i: nat, n: nat)
    requires
        i <= n,
    ensures
        data_section(s, i).len() <= data_section(s, n).len(),
    decreases n,
{
    if i < n {
        lemma_data_section_grows(s, i, (n - 1) as nat);
    }
}

/// Why a content set cannot be written.
#[derive(Clone, Copy, Debug, PartialEq, Eq, Structural)]
pub enum PackError {
    /// The data or the tree would not fit the format's 32-bit sizes.
    TooLarge,
}

fn push_bytes(out: &mut Vec<u8>, b: &[u8])
    ensures
        final(out)@ == old(out)@ + b@,
{
    let ghost start = out@;
    let mut i: usize = 0;
    while i < b.len()
        invariant
            i <= b@.len(),
            out@ == start + b@.subrange(0, i as int),
        decreases b@.len() - i,
    {
        out.push(b[i]);
        i = i + 1;
        assert(out@ =~= start + b@.subrange(0, i as int));
    }
    assert(b@.subrange(0, b@.len() as int) =~= b@);
}

fn push_le16(out: &mut Vec<u8>, x: u16)
    ensures
        final(out)@ == old(out)@ + le16(x),
{
    out.push((x & 0xff) as u8);
    out.push((x >> 8) as u8);
    assert(out@ =~= old(out)@ + le16(x));
}

fn push_le32(out: &mut Vec<u8>, x: u32)
    ensures
        final(out)@ == old(out)@ + le32(x),
{
    out.push((x & 0xff) as u8);
    out.push(((x >> 8) & 0xff) as u8);
    out.push(((x >> 16) & 0xff) as u8);
    out.push((x >> 24) as u8);
    assert(out@ =~= old(out)@ + le32(x));
}

/// Appends what the tree holds before the name of entry `i`.
fn push_group_header(tree: &mut Vec<u8>, set: &StagingSet, i: usize)
    requires
        i < set@.len(),
    ensures
        final(tree)@ == old(tree)@ + group_header(set@, i as nat),
{
    let ghost s = set@;
    let e = set.entry(i);
    let ghost k = s[i as int].0;
    let new_ext = if i == 0 {
        true
    } else {
        let prev = set.entry(i - 1);
        proof {
            lemma_bytes_cmp_order(prev.ext@, e.ext@, e.ext@);
        }
        compare_bytes(prev.ext.as_slice(), e.ext.as_slice()) != 0
    };
    let new_dir = if new_ext {
        true
    } else {
        let prev = set.entry(i - 1);
        proof {
            lemma_bytes_cmp_order(prev.dir@, e.dir@, e.dir@);
        }
        compare_bytes(prev.dir.as_slice(), e.dir.as_slice()) != 0
    };
    if new_ext {
        if i > 0 {
            tree.push(0);
            tree.push(0);
        }
        push_bytes(tree, e.ext.as_slice());
        tree.push(0);
    } else if new_dir {
        tree.push(0);
    }
    if new_dir {
        push_bytes(tree, e.dir.as_slice());
        tree.push(0);
    }
    assert(tree@ =~= old(tree)@ + group_header(s, i as nat));
}

/// Encodes a content set as a version-1 VPK archive.
///
/// Files are grouped by extension, then directory, in byte order; each name
/// is followed by its checksum, offset and length, and the payloads follow
/// the tree in the same order.
pub fn pack_vpk_v1(set: &StagingSet) -> (r: Result<Vec<u8>, PackError>)
    ensures
        match r {
            Ok(b) => archive_fits(set@) && b@ == archive_bytes(set@),
            Err(e) => !archive_fits(set@) && e == PackError::TooLarge,
        },
{
    let ghost s = set@;
    let n = set.len();
    let mut tree: Vec<u8> = Vec::new();
    let mut data: Vec<u8> = Vec::new();
    let mut offset: u32 = 0;
    let mut i: usize = 0;
    while i < n
        invariant
            s == set@,
            n == s.len(),
            i <= n,
            tree@ == tree_prefix(s, i as nat),
            data@ == data_section(s, i as nat),
            offset as int == data@.len(),
        decreases n - i,
    {
        let e = set.entry(i);
        let len = e.data.len();
        if len > (u32::MAX - offset) as usize {
            proof {
                lemma_data_section_grows(s, (i + 1) as nat, n as nat);
            }
            return Err(PackError::TooLarge);
        }
        push_group_header(&mut tree, set, i);
        push_bytes(&mut tree, e.name.as_slice());
        tree.push(0);
        let crc = crc32(e.data.as_slice());
        push_le32(&mut tree, crc);
        push_le16(&mut tree, 0);
        push_le16(&mut tree, EMBEDDED_ARCHIVE_INDEX);
        push_le32(&mut tree, offset);
        push_le32(&mut tree, len as u32);
        push_le16(&mut tree, ENTRY_TERMINATOR);
        push_bytes(&mut data, e.data.as_slice());
        offset = offset + len as u32;
        i = i + 1;
        assert(tree@ =~= tree_prefix(s, i as nat));
        assert(data@ =~= data_section(s, i as nat));
    }
    tree.push(0);
    if n > 0 {
        tree.push(0);
        tree.push(0);
    }
    assert(tree@ =~= tree_section(s));
    if tree.len() > u32::MAX as usize {
        return Err(PackError::TooLarge);
    }
    let mut out: Vec<u8> = Vec::new();
    push_le32(&mut out, VPK_SIGNATURE);
    push_le32(&mut out, VPK_VERSION);
    push_le32(&mut out, tree.len() as u32);
    out.append(&mut tree);
    out.append(&mut data);
    assert(out@ =~= archive_bytes(s));
    Ok(out)
}

/// Writing depends on the content set alone: two staging sets with the
/// same contents give byte-identical archives.
pub proof fn lemma_write_deterministic(a: Seq<(Key, Seq<u8>)>, b: Seq<(Key, Seq<u8>)>)
    requires
        sorted(a),
        sorted(b),
        contents(a) == contents(b),
    ensures
        archive_fits(a) == archive_fits(b),
        archive_bytes(a) == archive_bytes(b),
{
    lemma_sorted_unique(a, b);
}

} // verus!
