use vstd::prelude::*;
use crate::staging::Key;

verus! {

pub const SLASH: u8 = 0x2f;

pub const BACKSLASH: u8 = 0x5c;

pub const DOT: u8 = 0x2e;

/// Directory written for files that sit at the top of their category.
pub const ROOT_DIR: u8 = 0x20;

/// The path with every backslash turned into a forward slash.
pub open spec fn normalize(p: Seq<u8>) -> Seq<u8> {
    p.map_values(|b: u8| if b == BACKSLASH { SLASH } else { b })
}

/// Index of the last `c` in `s`, or -1.
pub open spec fn rfind(s: Seq<u8>, c: u8) -> int
    decreases s.len(),
{
    if s.len() == 0 {
        -1
    } else if s.last() == c {
        s.len() - 1
    } else {
        rfind(s.drop_last(), c)
    }
}

/// A path with no directory separator names a file at the archive's root.
pub open spec fn is_root_path(p: Seq<u8>) -> bool {
    rfind(normalize(p), SLASH) < 0
}

/// The directory part of a path: everything before the last separator, or a
/// single space when that is empty.
pub open spec fn path_dir(p: Seq<u8>) -> Seq<u8> {
    let n = normalize(p);
    let sep = rfind(n, SLASH);
    if sep <= 0 {
        seq![ROOT_DIR]
    } else {
        n.subrange(0, sep)
    }
}

/// The file part of a path: everything after the last separator.
pub open spec fn path_file(p: Seq<u8>) -> Seq<u8> {
    let n = normalize(p);
    n.subrange(rfind(n, SLASH) + 1, n.len() as int)
}

/// Identity of a path: the extension is what follows the last dot of the
/// file part (none when the only dot leads the name), the name what
/// precedes it.
pub open spec fn path_key(p: Seq<u8>) -> Key {
    let file = path_file(p);
    let dot = rfind(file, DOT);
    if dot > 0 {
        (file.subrange(dot + 1, file.len() as int), path_dir(p), file.subrange(0, dot))
    } else {
        (Seq::empty(), path_dir(p), file)
    }
}

proof fn lemma_rfind_range(s: Seq<u8>, c: u8)
    ensures
        -1 <= rfind(s, c) < s.len(),
        rfind(s, c) >= 0 ==> s[rfind(s, c)] == c,
    decreases s.len(),
{
    if s.len() > 0 && s.last() != c {
        lemma_rfind_range(s.drop_last(), c);
    }
}

/// Finds the last occurrence of `c` in `s[..end]`.
fn find_last(s: &Vec<u8>, end: usize, c: u8) -> (r: Option<usize>)
    requires
        end <= s@.len(),
    ensures
        match r {
            Some(i) => rfind(s@.subrange(0, end as int), c) == i && i < end,
            None => rfind(s@.subrange(0, end as int), c) == -1,
        },
{
    let mut i: usize = end;
    while i > 0
        invariant
            i <= end <= s@.len(),
            rfind(s@.subrange(0, end as int), c) == rfind(s@.subrange(0, i as int), c),
        decreases i,
    {
        assert(s@.subrange(0, i as int).drop_last() =~= s@.subrange(0, i - 1));
        if s[i - 1] == c {
            return Some(i - 1);
        }
        i = i - 1;
    }
    None
}

fn copy_range(s: &Vec<u8>, lo: usize, hi: usize) -> (r: Vec<u8>)
    requires
        lo <= hi <= s@.len(),
    ensures
        r@ == s@.subrange(lo as int, hi as int),
{
    let mut r: Vec<u8> = Vec::new();
    let mut i: usize = lo;
    while i < hi
        invariant
            lo <= i <= hi <= s@.len(),
            r@ == s@.subrange(lo as int, i as int),
        decreases hi - i,
    {
        r.push(s[i]);
        i = i + 1;
        assert(r@ =~= s@.subrange(lo as int, i as int));
    }
    r
}

fn normalized(p: &Vec<u8>) -> (r: Vec<u8>)
    ensures
        r@ == normalize(p@),
{
    let mut r: Vec<u8> = Vec::new();
    let mut i: usize = 0;
    while i < p.len()
        invariant
            i <= p@.len(),
            r@ == normalize(p@.subrange(0, i as int)),
        decreases p@.len() - i,
    {
        let b = if p[i] == BACKSLASH {
            SLASH
        } else {
            p[i]
        };
        r.push(b);
        i = i + 1;
        assert(r@ =~= normalize(p@.subrange(0, i as int)));
    }
    assert(p@.subrange(0, p@.len() as int) =~= p@);
    r
}

/// Whether a path names a file at the archive's root (no `/` nor `\`).
pub fn is_root_level(p: &Vec<u8>) -> (r: bool)
    ensures
        r == is_root_path(p@),
{
    let n = normalized(p);
    assert(n@.subrange(0, n@.len() as int) =~= n@);
    find_last(&n, n.len(), SLASH).is_none()
}

/// Splits a path into (extension, directory, name), separators normalised
/// to `/` and an empty directory written as a single space.
pub fn split_path(p: &Vec<u8>) -> (r: (Vec<u8>, Vec<u8>, Vec<u8>))
    ensures
        (r.0@, r.1@, r.2@) == path_key(p@),
{
    let n = normalized(p);
    let len = n.len();
    assert(n@.subrange(0, len as int) =~= n@);
    let sep = find_last(&n, len, SLASH);
    let (dir, start) = match sep {
        Some(s) => {
            if s == 0 {
                (vec![ROOT_DIR], 1)
            } else {
                (copy_range(&n, 0, s), s + 1)
            }
        },
        None => (vec![ROOT_DIR], 0),
    };
    proof {
        lemma_rfind_range(n@, SLASH);
        assert(dir@ =~= path_dir(p@));
    }
    let file = copy_range(&n, start, len);
    assert(file@ =~= path_file(p@));
    assert(file@.subrange(0, file@.len() as int) =~= file@);
    let dot = find_last(&file, file.len(), DOT);
    proof {
        lemma_rfind_range(file@, DOT);
    }
    match dot {
        Some(d) => {
            if d > 0 {
                let ext = copy_range(&file, d + 1, file.len());
                let name = copy_range(&file, 0, d);
                (ext, dir, name)
            } else {
                (Vec::new(), dir, file)
            }
        },
        None => (Vec::new(), dir, file),
    }
}

} // verus!
