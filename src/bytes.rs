use vstd::prelude::*;

verus! {

/// Three-way lexicographic comparison of `a` and `b` from position `i` on:
/// `-1` when `a` sorts first, `0` when the tails are equal, `1` otherwise.
pub open spec fn cmp_from(a: Seq<u8>, b: Seq<u8>, i: nat) -> int
    decreases a.len() - i,
{
    if i >= a.len() {
        if i >= b.len() {
            0
        } else {
            -1
        }
    } else if i >= b.len() {
        1
    } else if a[i as int] < b[i as int] {
        -1
    } else if a[i as int] > b[i as int] {
        1
    } else {
        cmp_from(a, b, i + 1)
    }
}

/// Lexicographic order on byte strings (the order of `str` and `[u8]`).
pub open spec fn bytes_cmp(a: Seq<u8>, b: Seq<u8>) -> int {
    cmp_from(a, b, 0)
}

pub proof fn lemma_cmp_from_eq(a: Seq<u8>, b: Seq<u8>, i: nat)
    requires
        i <= a.len(),
        i <= b.len(),
        a.subrange(0, i as int) == b.subrange(0, i as int),
    ensures
        (cmp_from(a, b, i) == 0) == (a == b),
        -1 <= cmp_from(a, b, i) <= 1,
    decreases a.len() - i,
{
    if i < a.len() && i < b.len() && a[i as int] == b[i as int] {
        assert(a.subrange(0, (i + 1) as int) =~= a.subrange(0, i as int).push(a[i as int]));
        assert(b.subrange(0, (i + 1) as int) =~= b.subrange(0, i as int).push(b[i as int]));
        lemma_cmp_from_eq(a, b, i + 1);
    } else if i < a.len() && i < b.len() {
        assert(a[i as int] != b[i as int]);
    } else if i >= a.len() && i >= b.len() {
        assert(a =~= a.subrange(0, i as int));
        assert(b =~= b.subrange(0, i as int));
    } else {
        assert(a.len() != b.len());
    }
}

pub proof fn lemma_cmp_from_antisym(a: Seq<u8>, b: Seq<u8>, i: nat)
    ensures
        cmp_from(a, b, i) == -cmp_from(b, a, i),
    decreases a.len() - i,
{
    if i < a.len() && i < b.len() && a[i as int] == b[i as int] {
        lemma_cmp_from_antisym(a, b, i + 1);
    }
}

pub proof fn lemma_cmp_from_trans(a: Seq<u8>, b: Seq<u8>, c: Seq<u8>, i: nat)
    requires
        cmp_from(a, b, i) < 0,
        cmp_from(b, c, i) < 0,
    ensures
        cmp_from(a, c, i) < 0,
    decreases a.len() - i,
{
    if i < a.len() && i < b.len() && i < c.len() && a[i as int] == b[i as int] && b[i as int]
        == c[i as int] {
        lemma_cmp_from_trans(a, b, c, i + 1);
    }
}

/// `bytes_cmp` is an order: equality, antisymmetry and transitivity.
pub proof fn lemma_bytes_cmp_order(a: Seq<u8>, b: Seq<u8>, c: Seq<u8>)
    ensures
        (bytes_cmp(a, b) == 0) == (a == b),
        -1 <= bytes_cmp(a, b) <= 1,
        bytes_cmp(a, b) == -bytes_cmp(b, a),
        bytes_cmp(a, b) < 0 && bytes_cmp(b, c) < 0 ==> bytes_cmp(a, c) < 0,
{
    assert(a.subrange(0, 0) =~= b.subrange(0, 0));
    lemma_cmp_from_eq(a, b, 0);
    lemma_cmp_from_antisym(a, b, 0);
    if bytes_cmp(a, b) < 0 && bytes_cmp(b, c) < 0 {
        lemma_cmp_from_trans(a, b, c, 0);
    }
}

/// Compares two byte strings lexicographically.
pub fn compare_bytes(a: &[u8], b: &[u8]) -> (r: i8)
    ensures
        r as int == bytes_cmp(a@, b@),
{
    let mut i: usize = 0;
    while i < a.len() && i < b.len()
        invariant
            i <= a@.len(),
            i <= b@.len(),
            cmp_from(a@, b@, i as nat) == bytes_cmp(a@, b@),
        decreases a@.len() - i,
    {
        if a[i] < b[i] {
            return -1;
        } else if a[i] > b[i] {
            return 1;
        }
        i = i + 1;
    }
    if i < a.len() {
        1
    } else if i < b.len() {
        -1
    } else {
        0
    }
}

} // verus!
