use vstd::prelude::*;
use crate::bytes::{bytes_cmp, compare_bytes, lemma_bytes_cmp_order};

verus! {

/// Identity of a file inside an archive: (extension, directory, file name),
/// each as the bytes written in the archive's tree.
pub type Key = (Seq<u8>, Seq<u8>, Seq<u8>);

/// Order of the archive's tree: by extension, then directory, then name.
pub open spec fn key_cmp(a: Key, b: Key) -> int {
    if bytes_cmp(a.0, b.0) != 0 {
        bytes_cmp(a.0, b.0)
    } else if bytes_cmp(a.1, b.1) != 0 {
        bytes_cmp(a.1, b.1)
    } else {
        bytes_cmp(a.2, b.2)
    }
}

pub proof fn lemma_key_cmp_order(a: Key, b: Key, c: Key)
    ensures
        (key_cmp(a, b) == 0) == (a == b),
        key_cmp(a, b) == -key_cmp(b, a),
        key_cmp(a, b) < 0 && key_cmp(b, c) < 0 ==> key_cmp(a, c) < 0,
{
    lemma_bytes_cmp_order(a.0, b.0, c.0);
    lemma_bytes_cmp_order(a.1, b.1, c.1);
    lemma_bytes_cmp_order(a.2, b.2, c.2);
    lemma_bytes_cmp_order(a.0, c.0, b.0);
    lemma_bytes_cmp_order(a.1, c.1, b.1);
    lemma_bytes_cmp_order(a.2, c.2, b.2);
    lemma_bytes_cmp_order(b.0, c.0, a.0);
    lemma_bytes_cmp_order(b.1, c.1, a.1);
    lemma_bytes_cmp_order(b.2, c.2, a.2);
}

/// Entries in strictly increasing key order (so no key occurs twice).
pub open spec fn sorted(s: Seq<(Key, Seq<u8>)>) -> bool {
    forall|i: int, j: int| 0 <= i < j < s.len() ==> key_cmp(#[trigger] s[i].0, #[trigger] s[j].0) < 0
}

pub open spec fn has_key(s: Seq<(Key, Seq<u8>)>, k: Key) -> bool {
    exists|i: int| 0 <= i < s.len() && #[trigger] s[i].0 == k
}

pub open spec fn occurs(s: Seq<(Key, Seq<u8>)>, x: (Key, Seq<u8>)) -> bool {
    exists|j: int| 0 <= j < s.len() && s[j] == x
}

/// The content set as a map from identity to bytes.
pub open spec fn contents(s: Seq<(Key, Seq<u8>)>) -> Map<Key, Seq<u8>> {
    Map::new(
        |k: Key| has_key(s, k),
        |k: Key| s[choose|i: int| 0 <= i < s.len() && #[trigger] s[i].0 == k].1,
    )
}

pub proof fn lemma_contents_index(s: Seq<(Key, Seq<u8>)>, i: int)
    requires
        sorted(s),
        0 <= i < s.len(),
    ensures
        contents(s).contains_key(s[i].0),
        contents(s)[s[i].0] == s[i].1,
{
    let k = s[i].0;
    assert(has_key(s, k));
    let j = choose|j: int| 0 <= j < s.len() && #[trigger] s[j].0 == k;
    lemma_key_cmp_order(k, k, k);
    if j < i {
        assert(key_cmp(s[j].0, s[i].0) < 0);
    } else if i < j {
        assert(key_cmp(s[i].0, s[j].0) < 0);
    }
}

/// A key other than `k` has the same value, or none, in `s` and `t` when the
/// two agree on every entry whose key is not `k`.
proof fn lemma_contents_other(s: Seq<(Key, Seq<u8>)>, t: Seq<(Key, Seq<u8>)>, k: Key, x: Key)
    requires
        sorted(s),
        sorted(t),
        x != k,
        forall|i: int| 0 <= i < t.len() && t[i].0 != k ==> #[trigger] occurs(s, t[i]),
        forall|j: int| 0 <= j < s.len() && s[j].0 != k ==> #[trigger] occurs(t, s[j]),
    ensures
        contents(t).contains_key(x) == contents(s).contains_key(x),
        contents(t).contains_key(x) ==> contents(t)[x] == contents(s)[x],
{
    if has_key(t, x) {
        let i = choose|i: int| 0 <= i < t.len() && #[trigger] t[i].0 == x;
        assert(occurs(s, t[i]));
        let j = choose|j: int| 0 <= j < s.len() && s[j] == t[i];
        lemma_contents_index(t, i);
        lemma_contents_index(s, j);
    }
    if has_key(s, x) {
        let j = choose|j: int| 0 <= j < s.len() && #[trigger] s[j].0 == x;
        assert(occurs(t, s[j]));
        let i = choose|i: int| 0 <= i < t.len() && t[i] == s[j];
        assert(t[i].0 == x);
    }
}

/// Two sorted sequences that agree on every key but `k`, the second holding
/// `(k, d)`, have the contents of the first with `k` set to `d`.
pub proof fn lemma_contents_insert(s: Seq<(Key, Seq<u8>)>, t: Seq<(Key, Seq<u8>)>, k: Key, d: Seq<u8>)
    requires
        sorted(s),
        sorted(t),
        exists|i: int| 0 <= i < t.len() && t[i] == (k, d),
        forall|i: int| 0 <= i < t.len() && t[i].0 != k ==> #[trigger] occurs(s, t[i]),
        forall|j: int| 0 <= j < s.len() && s[j].0 != k ==> #[trigger] occurs(t, s[j]),
    ensures
        contents(t) == contents(s).insert(k, d),
{
    let i0 = choose|i: int| 0 <= i < t.len() && t[i] == (k, d);
    lemma_contents_index(t, i0);
    assert forall|x: Key| x != k implies #[trigger] contents(t).contains_key(x) == contents(s).contains_key(x)
        && (contents(t).contains_key(x) ==> contents(t)[x] == contents(s)[x]) by {
        lemma_contents_other(s, t, k, x);
    }
    assert(contents(t) =~= contents(s).insert(k, d));
}

proof fn lemma_contents_drop_last(s: Seq<(Key, Seq<u8>)>)
    requires
        sorted(s),
        s.len() > 0,
    ensures
        sorted(s.drop_last()),
        contents(s.drop_last()) == contents(s).remove(s.last().0),
{
    let t = s.drop_last();
    let k = s.last().0;
    assert(sorted(t)) by {
        assert forall|i: int, j: int| 0 <= i < j < t.len() implies key_cmp(#[trigger] t[i].0, #[trigger] t[j].0) < 0 by {
            assert(t[i] == s[i] && t[j] == s[j]);
        }
    }
    assert forall|x: Key| #[trigger] contents(t).contains_key(x) == contents(s).remove(k).contains_key(x)
        && (contents(t).contains_key(x) ==> contents(t)[x] == contents(s)[x]) by {
        if has_key(t, x) {
            let i = choose|i: int| 0 <= i < t.len() && #[trigger] t[i].0 == x;
            assert(s[i] == t[i]);
            assert(key_cmp(s[i].0, s[s.len() - 1].0) < 0);
            lemma_key_cmp_order(x, x, x);
            lemma_contents_index(t, i);
            lemma_contents_index(s, i);
        }
        if has_key(s, x) && x != k {
            let i = choose|i: int| 0 <= i < s.len() && #[trigger] s[i].0 == x;
            assert(i != s.len() - 1);
            assert(t[i] == s[i]);
        }
    }
    assert(contents(t) =~= contents(s).remove(k));
}

/// A sorted sequence is the only one with its contents.
pub proof fn lemma_sorted_unique(a: Seq<(Key, Seq<u8>)>, b: Seq<(Key, Seq<u8>)>)
    requires
        sorted(a),
        sorted(b),
        contents(a) == contents(b),
    ensures
        a == b,
    decreases a.len(),
{
    if a.len() == 0 || b.len() == 0 {
        if a.len() > 0 {
            lemma_contents_index(a, 0);
        }
        if b.len() > 0 {
            lemma_contents_index(b, 0);
        }
        assert(a =~= b);
    } else {
        let ka = a.last().0;
        let kb = b.last().0;
        lemma_contents_index(a, a.len() - 1);
        lemma_contents_index(b, b.len() - 1);
        let j = choose|j: int| 0 <= j < b.len() && #[trigger] b[j].0 == ka;
        let i = choose|i: int| 0 <= i < a.len() && #[trigger] a[i].0 == kb;
        lemma_key_cmp_order(ka, kb, ka);
        lemma_key_cmp_order(ka, ka, ka);
        lemma_key_cmp_order(kb, kb, kb);
        if j < b.len() - 1 {
            assert(key_cmp(b[j].0, b[b.len() - 1].0) < 0);
        }
        if i < a.len() - 1 {
            assert(key_cmp(a[i].0, a[a.len() - 1].0) < 0);
        }
        assert(ka == kb);
        lemma_contents_drop_last(a);
        lemma_contents_drop_last(b);
        lemma_sorted_unique(a.drop_last(), b.drop_last());
        assert(a =~= a.drop_last().push(a.last()));
        assert(b =~= b.drop_last().push(b.last()));
    }
}

/// One file of a content set.
#[derive(Clone, Debug)]
pub struct Entry {
    pub ext: Vec<u8>,
    pub dir: Vec<u8>,
    pub name: Vec<u8>,
    pub data: Vec<u8>,
}

impl Entry {
    pub open spec fn key(&self) -> Key {
        (self.ext@, self.dir@, self.name@)
    }

    pub open spec fn model(&self) -> (Key, Seq<u8>) {
        (self.key(), self.data@)
    }
}

fn compare_keys(a: &Entry, b: &Entry) -> (r: i8)
    ensures
        r as int == key_cmp(a.key(), b.key()),
{
    let c = compare_bytes(a.ext.as_slice(), b.ext.as_slice());
    if c != 0 {
        return c;
    }
    let c = compare_bytes(a.dir.as_slice(), b.dir.as_slice());
    if c != 0 {
        return c;
    }
    compare_bytes(a.name.as_slice(), b.name.as_slice())
}

/// The merged content set: entries kept in key order, each key once.
pub struct StagingSet {
    entries: Vec<Entry>,
}

impl View for StagingSet {
    type V = Seq<(Key, Seq<u8>)>;

    closed spec fn view(&self) -> Seq<(Key, Seq<u8>)> {
        self.entries@.map_values(|e: Entry| e.model())
    }
}

impl StagingSet {
    pub open spec fn wf(&self) -> bool {
        sorted(self@)
    }

    pub fn new() -> (r: StagingSet)
        ensures
            r.wf(),
            r@ == Seq::<(Key, Seq<u8>)>::empty(),
    {
        StagingSet { entries: Vec::new() }
    }

    pub fn len(&self) -> (r: usize)
        ensures
            r == self@.len(),
    {
        self.entries.len()
    }

    pub fn entry(&self, i: usize) -> (r: &Entry)
        requires
            i < self@.len(),
        ensures
            r.model() == self@[i as int],
    {
        &self.entries[i]
    }

    /// Adds `e`, replacing the entry of the same identity if there is one.
    pub fn insert(&mut self, e: Entry)
        requires
            old(self).wf(),
        ensures
            final(self).wf(),
            contents(final(self)@) == contents(old(self)@).insert(e.key(), e.data@),
    {
        let ghost s = self@;
        let ghost k = e.key();
        let mut p: usize = 0;
        let mut stop = false;
        while !stop && p < self.entries.len()
            invariant
                self@ == s,
                k == e.key(),
                sorted(s),
                p <= s.len(),
                forall|j: int| 0 <= j < p ==> key_cmp(#[trigger] s[j].0, k) < 0,
                stop ==> p < s.len() && key_cmp(s[p as int].0, k) >= 0,
            decreases s.len() - p + (if stop { 0int } else { 1int }),
        {
            assert(s[p as int] == self.entries@[p as int].model());
            let c = compare_keys(&self.entries[p], &e);
            if c >= 0 {
                stop = true;
            } else {
                p = p + 1;
            }
        }
        let replace = p < self.entries.len() && compare_keys(&self.entries[p], &e) == 0;
        proof {
            if p < s.len() {
                assert(s[p as int] == self.entries@[p as int].model());
            }
        }
        if replace {
            proof {
                lemma_key_cmp_order(s[p as int].0, k, k);
            }
            self.entries.remove(p);
        }
        self.entries.insert(p, e);
        proof {
            let t = self@;
            if replace {
                assert(t =~= s.update(p as int, (k, e.data@)));
            } else {
                assert(t =~= s.insert(p as int, (k, e.data@)));
            }
            assert forall|i: int, j: int| 0 <= i < j < t.len() implies key_cmp(
                #[trigger] t[i].0,
                #[trigger] t[j].0,
            ) < 0 by {
                if i < p && j == p {
                } else if i == p && j > p {
                    let jj = if replace { j } else { j - 1 };
                    if !replace || jj > p {
                        assert(p < s.len());
                        lemma_key_cmp_order(k, s[p as int].0, s[jj].0);
                        lemma_key_cmp_order(s[p as int].0, k, k);
                    }
                } else if i < p && j > p {
                    let jj = if replace { j } else { j - 1 };
                    assert(t[j] == s[jj]);
                } else if i > p {
                    let ii = if replace { i } else { i - 1 };
                    let jj = if replace { j } else { j - 1 };
                    assert(t[i] == s[ii] && t[j] == s[jj]);
                }
            }
            assert(t[p as int] == (k, e.data@));
            assert forall|i: int| 0 <= i < t.len() && t[i].0 != k implies #[trigger] occurs(s, t[i]) by {
                if i < p {
                    assert(s[i] == t[i]);
                } else if replace {
                    assert(s[i] == t[i]);
                } else {
                    assert(s[i - 1] == t[i]);
                }
            }
            assert forall|j: int| 0 <= j < s.len() && s[j].0 != k implies #[trigger] occurs(t, s[j]) by {
                if j < p || replace {
                    assert(t[j] == s[j]);
                } else {
                    assert(t[j + 1] == s[j]);
                }
            }
            lemma_contents_insert(s, t, k, e.data@);
        }
    }
}

} // verus!
