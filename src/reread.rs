use vstd::prelude::*;
use crate::archive::{
    archive_bytes, archive_fits, crc32_of, data_offset, data_section, entry_tree, group_header,
    le16, le32, record, tree_prefix, tree_section, EMBEDDED_ARCHIVE_INDEX, ENTRY_TERMINATOR,
    VPK_SIGNATURE, VPK_VERSION,
};
use crate::staging::Key;

verus! {

pub open spec fn zero_free(a: Seq<u8>) -> bool {
    forall|i: int| 0 <= i < a.len() ==> a[i] != 0
}

/// A key the tree can hold: no part is empty (an empty string closes a
/// list) and none holds a zero byte (it ends a string).
pub open spec fn storable_key(k: Key) -> bool {
    k.0.len() > 0 && k.1.len() > 0 && k.2.len() > 0 && zero_free(k.0) && zero_free(k.1) && zero_free(
        k.2,
    )
}

/// Index of the first zero byte, or -1.
pub open spec fn cstr_len(r: Seq<u8>) -> int
    decreases r.len(),
{
    if r.len() == 0 {
        -1
    } else if r[0] == 0 {
        0
    } else if cstr_len(r.drop_first()) < 0 {
        -1
    } else {
        cstr_len(r.drop_first()) + 1
    }
}

/// Little-endian value of the four bytes at `p`.
pub open spec fn u32_at(b: Seq<u8>, p: int) -> u32 {
    (b[p] as u32) | ((b[p + 1] as u32) << 8u32) | ((b[p + 2] as u32) << 16u32) | ((b[p + 3] as u32)
        << 24u32)
}

/// Reads a tree section from its remaining bytes `r`. `level` 0 reads an
/// extension, 1 a directory of `ext`, 2 a file of `ext`/`dir`; an empty
/// string closes the current list. Yields each file's key and its 18-byte
/// record, or `None` when the bytes are not a well-formed tree.
pub open spec fn parse_tree(r: Seq<u8>, level: int, ext: Seq<u8>, dir: Seq<u8>) -> Option<
    Seq<(Key, Seq<u8>)>,
>
    decreases r.len(),
{
    let z = cstr_len(r);
    if z < 0 || z >= r.len() {
        None
    } else {
        let word = r.take(z);
        let rest = r.skip(z + 1);
        if level == 0 {
            if z == 0 {
                if rest.len() == 0 {
                    Some(Seq::empty())
                } else {
                    None
                }
            } else {
                parse_tree(rest, 1, word, dir)
            }
        } else if level == 1 {
            if z == 0 {
                parse_tree(rest, 0, ext, dir)
            } else {
                parse_tree(rest, 2, ext, word)
            }
        } else if z == 0 {
            parse_tree(rest, 1, ext, dir)
        } else if rest.len() < 18 {
            None
        } else {
            match parse_tree(rest.skip(18), 2, ext, dir) {
                Some(t) => Some(seq![((ext, dir, word), rest.take(18))] + t),
                None => None,
            }
        }
    }
}

pub open spec fn record_offset(rec: Seq<u8>) -> nat {
    u32_at(rec, 8) as nat
}

pub open spec fn record_length(rec: Seq<u8>) -> nat {
    u32_at(rec, 12) as nat
}

pub open spec fn record_checksum(rec: Seq<u8>) -> u32 {
    u32_at(rec, 0)
}

/// Where a version-1 archive's data section starts.
pub open spec fn data_start(b: Seq<u8>) -> int {
    12 + u32_at(b, 8)
}

/// The tree records of a version-1 archive, when its header and tree are
/// well-formed.
pub open spec fn archive_records(b: Seq<u8>) -> Option<Seq<(Key, Seq<u8>)>> {
    if b.len() < 12 || u32_at(b, 0) != VPK_SIGNATURE || u32_at(b, 4) != VPK_VERSION || data_start(b)
        > b.len() {
        None
    } else {
        parse_tree(b.subrange(12, data_start(b)), 0, Seq::empty(), Seq::empty())
    }
}

/// The bytes a record points at in the data section.
pub open spec fn record_payload(b: Seq<u8>, rec: Seq<u8>) -> Seq<u8> {
    b.subrange(data_start(b) + record_offset(rec), data_start(b) + record_offset(rec) + record_length(rec))
}

/// Reads a version-1 archive back into its (identity, content) pairs, in
/// tree order.
pub open spec fn read_archive(b: Seq<u8>) -> Option<Seq<(Key, Seq<u8>)>> {
    match archive_records(b) {
        None => None,
        Some(recs) => if forall|i: int|
            0 <= i < recs.len() ==> data_start(b) + record_offset(#[trigger] recs[i].1)
                + record_length(recs[i].1) <= b.len() {
            Some(recs.map_values(|r: (Key, Seq<u8>)| (r.0, record_payload(b, r.1))))
        } else {
            None
        },
    }
}

proof fn lemma_le32_decode(x: u32, rest: Seq<u8>, p: int)
    requires
        0 <= p,
        p + 4 <= rest.len(),
        rest.subrange(p, p + 4) == le32(x),
    ensures
        u32_at(rest, p) == x,
{
    let b = le32(x);
    assert(rest[p] == b[0] && rest[p + 1] == b[1] && rest[p + 2] == b[2] && rest[p + 3] == b[3]);
    assert((((x & 0xff) as u8) as u32) | ((((x >> 8u32) & 0xff) as u8) as u32) << 8u32 | ((((x >> 16u32)
        & 0xff) as u8) as u32) << 16u32 | ((((x >> 24u32) as u8) as u32) << 24u32) == x) by (bit_vector);
}

proof fn lemma_read_word(a: Seq<u8>, b: Seq<u8>)
    requires
        zero_free(a),
    ensures
        cstr_len(a.push(0) + b) == a.len(),
        (a.push(0) + b).take(a.len() as int) == a,
        (a.push(0) + b).skip((a.len() + 1) as int) == b,
    decreases a.len(),
{
    let r = a.push(0) + b;
    if a.len() > 0 {
        assert(r.drop_first() =~= a.drop_first().push(0) + b);
        lemma_read_word(a.drop_first(), b);
    }
    assert(r.take(a.len() as int) =~= a);
    assert(r.skip((a.len() + 1) as int) =~= b);
}

/// What follows the first `i` entries in the tree section.
pub open spec fn tree_tail(s: Seq<(Key, Seq<u8>)>, i: nat) -> Seq<u8>
    decreases s.len() - i,
{
    if i >= s.len() {
        if s.len() == 0 {
            seq![0u8]
        } else {
            seq![0u8, 0u8, 0u8]
        }
    } else {
        entry_tree(s, i) + tree_tail(s, i + 1)
    }
}

proof fn lemma_tree_split(s: Seq<(Key, Seq<u8>)>, i: nat)
    requires
        i <= s.len(),
    ensures
        tree_section(s) == tree_prefix(s, i) + tree_tail(s, i),
    decreases s.len() - i,
{
    if i < s.len() {
        lemma_tree_split(s, i + 1);
        assert(tree_prefix(s, i + 1) + tree_tail(s, i + 1) =~= tree_prefix(s, i) + tree_tail(s, i));
    } else {
        assert(tree_section(s) =~= tree_prefix(s, i) + tree_tail(s, i));
    }
}

/// The records that the tree holds from entry `i` on.
pub open spec fn records_from(s: Seq<(Key, Seq<u8>)>, i: nat) -> Seq<(Key, Seq<u8>)> {
    Seq::new((s.len() - i) as nat, |j: int| (s[i + j].0, record(s, (i + j) as nat)))
}

proof fn lemma_record_len(s: Seq<(Key, Seq<u8>)>, i: nat)
    ensures
        record(s, i).len() == 18,
{
}

spec fn at_name(s: Seq<(Key, Seq<u8>)>, i: nat) -> Seq<u8> {
    s[i as int].0.2.push(0) + (record(s, i) + tree_tail(s, i + 1))
}

spec fn at_dir(s: Seq<(Key, Seq<u8>)>, i: nat) -> Seq<u8> {
    s[i as int].0.1.push(0) + at_name(s, i)
}

spec fn at_ext(s: Seq<(Key, Seq<u8>)>, i: nat) -> Seq<u8> {
    s[i as int].0.0.push(0) + at_dir(s, i)
}

proof fn lemma_parse_entry(s: Seq<(Key, Seq<u8>)>, i: nat, x: Seq<u8>, d: Seq<u8>)
    requires
        i < s.len(),
        storable_key(s[i as int].0),
        parse_tree(tree_tail(s, i + 1), 2, s[i as int].0.0, s[i as int].0.1) == Some(
            records_from(s, i + 1),
        ),
    ensures
        parse_tree(at_name(s, i), 2, s[i as int].0.0, s[i as int].0.1) == Some(records_from(s, i)),
        parse_tree(at_dir(s, i), 1, s[i as int].0.0, d) == Some(records_from(s, i)),
        parse_tree(at_ext(s, i), 0, x, d) == Some(records_from(s, i)),
{
    let k = s[i as int].0;
    let rec = record(s, i);
    lemma_record_len(s, i);
    let next = tree_tail(s, i + 1);
    let after_name = rec + next;
    lemma_read_word(k.2, after_name);
    assert(after_name.skip(18) =~= next);
    assert(after_name.take(18) =~= rec);
    assert(records_from(s, i) =~= seq![(k, rec)] + records_from(s, i + 1));
    assert(parse_tree(at_name(s, i), 2, k.0, k.1) == Some(records_from(s, i)));
    lemma_read_word(k.1, at_name(s, i));
    assert(parse_tree(at_dir(s, i), 1, k.0, d) == Some(records_from(s, i)));
    lemma_read_word(k.0, at_dir(s, i));
}

proof fn lemma_parse_tail(s: Seq<(Key, Seq<u8>)>, i: nat)
    requires
        i <= s.len(),
        forall|j: int| 0 <= j < s.len() ==> storable_key(#[trigger] s[j].0),
    ensures
        parse_tree(
            tree_tail(s, i),
            if i == 0 { 0int } else { 2int },
            if i == 0 { Seq::empty() } else { s[i - 1].0.0 },
            if i == 0 { Seq::empty() } else { s[i - 1].0.1 },
        ) == Some(records_from(s, i)),
    decreases s.len() - i,
{
    let e: Seq<u8> = Seq::empty();
    if i == s.len() {
        assert(records_from(s, i) =~= Seq::empty());
        if i == 0 {
            lemma_read_word(e, e);
            assert(e.push(0) + e =~= seq![0u8]);
        } else {
            let x = s[i - 1].0;
            let z2: Seq<u8> = seq![0u8, 0u8];
            let z1: Seq<u8> = seq![0u8];
            lemma_read_word(e, z2);
            lemma_read_word(e, z1);
            lemma_read_word(e, e);
            assert(e.push(0) + z2 =~= seq![0u8, 0u8, 0u8]);
            assert(e.push(0) + z1 =~= z2);
            assert(e.push(0) + e =~= z1);
            assert(parse_tree(z1, 0, x.0, x.1) == Some(Seq::<(Key, Seq<u8>)>::empty()));
            assert(parse_tree(z2, 1, x.0, x.1) == Some(Seq::<(Key, Seq<u8>)>::empty()));
        }
    } else {
        lemma_parse_tail(s, i + 1);
        let k = s[i as int].0;
        assert(storable_key(k));
        if i == 0 {
            lemma_parse_entry(s, i, e, e);
            assert(tree_tail(s, i) =~= at_ext(s, i));
        } else {
            let p = s[i - 1].0;
            if p.0 != k.0 {
                lemma_parse_entry(s, i, p.0, p.1);
                let one = e.push(0) + at_ext(s, i);
                lemma_read_word(e, at_ext(s, i));
                lemma_read_word(e, one);
                assert(parse_tree(one, 1, p.0, p.1) == Some(records_from(s, i)));
                assert(tree_tail(s, i) =~= e.push(0) + one);
            } else if p.1 != k.1 {
                lemma_parse_entry(s, i, p.0, p.1);
                lemma_read_word(e, at_dir(s, i));
                assert(tree_tail(s, i) =~= e.push(0) + at_dir(s, i));
            } else {
                lemma_parse_entry(s, i, p.0, p.1);
                assert(tree_tail(s, i) =~= at_name(s, i));
            }
        }
    }
}

proof fn lemma_data_prefix(s: Seq<(Key, Seq<u8>)>, m: nat, n: nat)
    requires
        m <= n,
    ensures
        data_section(s, m).len() <= data_section(s, n).len(),
        data_section(s, n).subrange(0, data_section(s, m).len() as int) == data_section(s, m),
    decreases n,
{
    if m < n {
        lemma_data_prefix(s, m, (n - 1) as nat);
        assert(data_section(s, n).subrange(0, data_section(s, m).len() as int) =~= data_section(
            s,
            (n - 1) as nat,
        ).subrange(0, data_section(s, m).len() as int));
    } else {
        assert(data_section(s, n).subrange(0, data_section(s, m).len() as int) =~= data_section(
            s,
            m,
        ));
    }
}

proof fn lemma_payload_in_data(s: Seq<(Key, Seq<u8>)>, i: nat)
    requires
        i < s.len(),
    ensures
        data_offset(s, i) + s[i as int].1.len() <= data_section(s, s.len()).len(),
        data_section(s, s.len()).subrange(
            data_offset(s, i) as int,
            (data_offset(s, i) + s[i as int].1.len()) as int,
        ) == s[i as int].1,
{
    let n = s.len();
    lemma_data_prefix(s, i + 1, n);
    let d = data_section(s, n);
    let di = data_section(s, i + 1);
    assert(di == data_section(s, i) + s[i as int].1);
    assert(d.subrange(data_offset(s, i) as int, (data_offset(s, i) + s[i as int].1.len()) as int) =~= di.subrange(
        data_offset(s, i) as int,
        di.len() as int,
    ));
    assert(di.subrange(data_offset(s, i) as int, di.len() as int) =~= s[i as int].1);
}

proof fn lemma_record_fields(s: Seq<(Key, Seq<u8>)>, i: nat)
    requires
        i < s.len(),
        archive_fits(s),
    ensures
        record_offset(record(s, i)) == data_offset(s, i),
        record_length(record(s, i)) == s[i as int].1.len(),
        record_checksum(record(s, i)) == crc32_of(s[i as int].1),
{
    let rec = record(s, i);
    lemma_payload_in_data(s, i);
    let off = data_offset(s, i);
    let len = s[i as int].1.len();
    assert(rec.subrange(0, 4) =~= le32(crc32_of(s[i as int].1)));
    assert(rec.subrange(8, 12) =~= le32(off as u32));
    assert(rec.subrange(12, 16) =~= le32(len as u32));
    lemma_le32_decode(crc32_of(s[i as int].1), rec, 0);
    lemma_le32_decode(off as u32, rec, 8);
    lemma_le32_decode(len as u32, rec, 12);
}

proof fn lemma_archive_layout(s: Seq<(Key, Seq<u8>)>)
    requires
        archive_fits(s),
        forall|j: int| 0 <= j < s.len() ==> storable_key(#[trigger] s[j].0),
    ensures
        data_start(archive_bytes(s)) == 12 + tree_section(s).len(),
        archive_records(archive_bytes(s)) == Some(records_from(s, 0)),
        archive_bytes(s).subrange(data_start(archive_bytes(s)), archive_bytes(s).len() as int)
            == data_section(s, s.len()),
{
    let b = archive_bytes(s);
    let t = tree_section(s);
    assert(b.subrange(0, 4) =~= le32(VPK_SIGNATURE));
    assert(b.subrange(4, 8) =~= le32(VPK_VERSION));
    assert(b.subrange(8, 12) =~= le32(t.len() as u32));
    lemma_le32_decode(VPK_SIGNATURE, b, 0);
    lemma_le32_decode(VPK_VERSION, b, 4);
    lemma_le32_decode(t.len() as u32, b, 8);
    assert(b.subrange(12, (12 + t.len()) as int) =~= t);
    assert(b.subrange((12 + t.len()) as int, b.len() as int) =~= data_section(s, s.len()));
    lemma_tree_split(s, 0);
    assert(t =~= tree_tail(s, 0));
    lemma_parse_tail(s, 0);
}

proof fn lemma_payloads(s: Seq<(Key, Seq<u8>)>)
    requires
        archive_fits(s),
        forall|j: int| 0 <= j < s.len() ==> storable_key(#[trigger] s[j].0),
    ensures
        archive_records(archive_bytes(s)) == Some(records_from(s, 0)),
        forall|i: int|
            0 <= i < s.len() ==> data_start(archive_bytes(s)) + record_offset(
                #[trigger] records_from(s, 0)[i].1,
            ) + record_length(records_from(s, 0)[i].1) <= archive_bytes(s).len() && record_payload(
                archive_bytes(s),
                records_from(s, 0)[i].1,
            ) == s[i].1 && record_checksum(records_from(s, 0)[i].1) == crc32_of(s[i].1),
{
    let b = archive_bytes(s);
    lemma_archive_layout(s);
    let recs = records_from(s, 0);
    let start = data_start(b);
    assert forall|i: int| 0 <= i < s.len() implies start + record_offset(#[trigger] recs[i].1)
        + record_length(recs[i].1) <= b.len() && record_payload(b, recs[i].1) == s[i].1
        && record_checksum(recs[i].1) == crc32_of(s[i].1) by {
        assert(recs[i].1 == record(s, i as nat));
        lemma_record_fields(s, i as nat);
        lemma_payload_in_data(s, i as nat);
        let off = data_offset(s, i as nat);
        let len = s[i].1.len();
        let d = data_section(s, s.len());
        assert(b.subrange(start + off, start + off + len) =~= d.subrange(off as int, (off + len) as int));
    }
}

/// Reading back what `pack_vpk_v1` writes yields exactly the entries it
/// was given, in order, each with its content. Keys must have non-empty,
/// zero-free parts: an empty part or a zero byte would end a list or a
/// string early.
pub proof fn lemma_round_trip(s: Seq<(Key, Seq<u8>)>)
    requires
        archive_fits(s),
        forall|j: int| 0 <= j < s.len() ==> storable_key(#[trigger] s[j].0),
    ensures
        read_archive(archive_bytes(s)) == Some(s),
{
    let b = archive_bytes(s);
    lemma_payloads(s);
    let recs = records_from(s, 0);
    assert(recs.map_values(|r: (Key, Seq<u8>)| (r.0, record_payload(b, r.1))) =~= s);
}

/// Every checksum in the tree is the CRC-32 of exactly the bytes that its
/// offset and length select in the data section.
pub proof fn lemma_checksums_match(s: Seq<(Key, Seq<u8>)>)
    requires
        archive_fits(s),
        forall|j: int| 0 <= j < s.len() ==> storable_key(#[trigger] s[j].0),
    ensures
        archive_records(archive_bytes(s)) is Some,
        forall|i: int|
            0 <= i < archive_records(archive_bytes(s))->Some_0.len() ==> record_checksum(
                (#[trigger] archive_records(archive_bytes(s))->Some_0[i]).1,
            ) == crc32_of(
                record_payload(archive_bytes(s), archive_records(archive_bytes(s))->Some_0[i].1),
            ),
{
    lemma_payloads(s);
}

} // verus!
