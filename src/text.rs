use vstd::prelude::*;

verus! {

pub const NEWLINE: u8 = 0x0a;

pub const CR: u8 = 0x0d;

pub const QUOTE: u8 = 0x22;

pub const SLASH: u8 = 0x2f;

pub const OPEN_BRACE: u8 = 0x7b;

/// First position at or after `i` and before `hi` that holds `b`, or `hi`.
pub open spec fn find_from(c: Seq<u8>, i: int, hi: int, b: u8) -> int
    decreases hi - i,
{
    if i >= hi {
        hi
    } else if c[i] == b {
        i
    } else {
        find_from(c, i + 1, hi, b)
    }
}

/// Length of the UTF-8 encoded white-space character (Unicode property
/// `White_Space`) that starts at `i` and ends by `hi`, or 0.
pub open spec fn ws_len(c: Seq<u8>, i: int, hi: int) -> int {
    if i < hi && ((0x09 <= c[i] <= 0x0d) || c[i] == 0x20) {
        1
    } else if i + 2 <= hi && c[i] == 0xc2 && (c[i + 1] == 0x85 || c[i + 1] == 0xa0) {
        2
    } else if i + 3 <= hi && c[i] == 0xe1 && c[i + 1] == 0x9a && c[i + 2] == 0x80 {
        3
    } else if i + 3 <= hi && c[i] == 0xe2 && c[i + 1] == 0x80 && ((0x80 <= c[i + 2] <= 0x8a)
        || c[i + 2] == 0xa8 || c[i + 2] == 0xa9 || c[i + 2] == 0xaf) {
        3
    } else if i + 3 <= hi && c[i] == 0xe2 && c[i + 1] == 0x81 && c[i + 2] == 0x9f {
        3
    } else if i + 3 <= hi && c[i] == 0xe3 && c[i + 1] == 0x80 && c[i + 2] == 0x80 {
        3
    } else {
        0
    }
}

/// Position of the first non-white-space character at or after `i`, or `hi`.
pub open spec fn skip_ws(c: Seq<u8>, i: int, hi: int) -> int
    decreases hi - i,
{
    if i < hi && ws_len(c, i, hi) > 0 {
        skip_ws(c, i + ws_len(c, i, hi), hi)
    } else {
        i
    }
}

pub open spec fn ascii_lower(b: u8) -> u8 {
    if 0x41 <= b <= 0x5a {
        (b + 32) as u8
    } else {
        b
    }
}

/// `needle` stands at `p` (compared without ASCII case when `fold`).
pub open spec fn matches_at(c: Seq<u8>, p: int, needle: Seq<u8>, fold: bool) -> bool {
    forall|j: int|
        0 <= j < needle.len() ==> (if fold {
            ascii_lower(#[trigger] c[p + j])
        } else {
            c[p + j]
        }) == needle[j]
}

/// `needle` occurs within `c[lo..hi]`.
pub open spec fn contains_in(c: Seq<u8>, lo: int, hi: int, needle: Seq<u8>, fold: bool) -> bool {
    exists|p: int| lo <= p && p + needle.len() <= hi && #[trigger] matches_at(c, p, needle, fold)
}

/// "addontitle"
pub open spec fn title_key() -> Seq<u8> {
    seq![0x61u8, 0x64, 0x64, 0x6f, 0x6e, 0x74, 0x69, 0x74, 0x6c, 0x65]
}

/// "Game"
pub open spec fn game_word() -> Seq<u8> {
    seq![0x47u8, 0x61, 0x6d, 0x65]
}

/// "mods"
pub open spec fn mods_word() -> Seq<u8> {
    seq![0x6du8, 0x6f, 0x64, 0x73]
}

/// "SearchPaths"
pub open spec fn search_paths_word() -> Seq<u8> {
    seq![0x53u8, 0x65, 0x61, 0x72, 0x63, 0x68, 0x50, 0x61, 0x74, 0x68, 0x73]
}

/// The search-path line added to gameinfo.txt, with its line break.
pub open spec fn game_mods_line() -> Seq<u8> {
    seq![0x09u8, 0x09, 0x09, 0x47, 0x61, 0x6d, 0x65, 0x09, 0x09, 0x09, 0x6d, 0x6f, 0x64, 0x73, 0x0a]
}

/// The line `c[lo..hi]` is blank or, after leading white space, a `//`
/// comment.
pub open spec fn blank_or_comment(c: Seq<u8>, lo: int, hi: int) -> bool {
    let t = skip_ws(c, lo, hi);
    t >= hi || (t + 1 < hi && c[t] == SLASH && c[t + 1] == SLASH)
}

/// The title on one line: the second quoted string when the line has four
/// quotes or more, else the first, when non-empty; only on a line that is
/// not a comment and names `addontitle` in any case.
pub open spec fn line_title(c: Seq<u8>, lo: int, hi: int) -> Option<Seq<u8>> {
    if blank_or_comment(c, lo, hi) || !contains_in(c, lo, hi, title_key(), true) {
        None
    } else {
        let q0 = find_from(c, lo, hi, QUOTE);
        let q1 = find_from(c, q0 + 1, hi, QUOTE);
        let q2 = find_from(c, q1 + 1, hi, QUOTE);
        let q3 = find_from(c, q2 + 1, hi, QUOTE);
        if q3 < hi {
            if q2 + 1 < q3 {
                Some(c.subrange(q2 + 1, q3))
            } else {
                None
            }
        } else if q1 < hi {
            if q0 + 1 < q1 {
                Some(c.subrange(q0 + 1, q1))
            } else {
                None
            }
        } else {
            None
        }
    }
}

/// The first title found on the lines that start at or after `i`.
pub open spec fn title_from(c: Seq<u8>, i: int) -> Option<Seq<u8>>
    decreases c.len() - i,
{
    if i < 0 || i >= c.len() {
        None
    } else {
        let e = find_from(c, i, c.len() as int, NEWLINE);
        match line_title(c, i, e) {
            Some(t) => Some(t),
            None => if i <= e < c.len() {
                title_from(c, e + 1)
            } else {
                None
            },
        }
    }
}

proof fn lemma_find_from_range(c: Seq<u8>, i: int, hi: int, b: u8)
    requires
        i <= hi,
    ensures
        i <= find_from(c, i, hi, b) <= hi,
        find_from(c, i, hi, b) < hi ==> c[find_from(c, i, hi, b)] == b,
    decreases hi - i,
{
    if i < hi && c[i] != b {
        lemma_find_from_range(c, i + 1, hi, b);
    }
}

fn find_byte(c: &[u8], i: usize, hi: usize, b: u8) -> (r: usize)
    requires
        i <= hi <= c@.len(),
    ensures
        r == find_from(c@, i as int, hi as int, b),
        i <= r <= hi,
{
    let mut k = i;
    while k < hi && c[k] != b
        invariant
            i <= k <= hi <= c@.len(),
            find_from(c@, k as int, hi as int, b) == find_from(c@, i as int, hi as int, b),
        decreases hi - k,
    {
        k = k + 1;
    }
    k
}

fn ws_at(c: &[u8], i: usize, hi: usize) -> (r: usize)
    requires
        i <= hi <= c@.len(),
    ensures
        r == ws_len(c@, i as int, hi as int),
{
    if i < hi && ((0x09 <= c[i] && c[i] <= 0x0d) || c[i] == 0x20) {
        1
    } else if hi - i >= 2 && c[i] == 0xc2 && (c[i + 1] == 0x85 || c[i + 1] == 0xa0) {
        2
    } else if hi - i >= 3 && c[i] == 0xe1 && c[i + 1] == 0x9a && c[i + 2] == 0x80 {
        3
    } else if hi - i >= 3 && c[i] == 0xe2 && c[i + 1] == 0x80 && ((0x80 <= c[i + 2] && c[i + 2]
        <= 0x8a) || c[i + 2] == 0xa8 || c[i + 2] == 0xa9 || c[i + 2] == 0xaf) {
        3
    } else if hi - i >= 3 && c[i] == 0xe2 && c[i + 1] == 0x81 && c[i + 2] == 0x9f {
        3
    } else if hi - i >= 3 && c[i] == 0xe3 && c[i + 1] == 0x80 && c[i + 2] == 0x80 {
        3
    } else {
        0
    }
}

fn skip_white(c: &[u8], i: usize, hi: usize) -> (r: usize)
    requires
        i <= hi <= c@.len(),
    ensures
        r == skip_ws(c@, i as int, hi as int),
        i <= r <= hi,
{
    let mut k = i;
    loop
        invariant
            i <= k <= hi <= c@.len(),
            skip_ws(c@, k as int, hi as int) == skip_ws(c@, i as int, hi as int),
        decreases hi - k,
    {
        let w = ws_at(c, k, hi);
        if k < hi && w > 0 {
            k = k + w;
        } else {
            return k;
        }
    }
}

fn is_blank_or_comment(c: &[u8], lo: usize, hi: usize) -> (r: bool)
    requires
        lo <= hi <= c@.len(),
    ensures
        r == blank_or_comment(c@, lo as int, hi as int),
{
    let t = skip_white(c, lo, hi);
    t >= hi || (hi - t >= 2 && c[t] == SLASH && c[t + 1] == SLASH)
}

fn lower(b: u8) -> (r: u8)
    ensures
        r == ascii_lower(b),
{
    if 0x41 <= b && b <= 0x5a {
        b + 32
    } else {
        b
    }
}

fn matches_here(c: &[u8], p: usize, needle: &Vec<u8>, fold: bool) -> (r: bool)
    requires
        p + needle@.len() <= c@.len(),
    ensures
        r == matches_at(c@, p as int, needle@, fold),
{
    let clen = c.len();
    let mut j: usize = 0;
    while j < needle.len()
        invariant
            clen == c@.len(),
            p + needle@.len() <= c@.len(),
            j <= needle@.len(),
            forall|k: int|
                0 <= k < j ==> (if fold {
                    ascii_lower(#[trigger] c@[p + k])
                } else {
                    c@[p + k]
                }) == needle@[k],
        decreases needle@.len() - j,
    {
        let b = if fold {
            lower(c[p + j])
        } else {
            c[p + j]
        };
        if b != needle[j] {
            return false;
        }
        j = j + 1;
    }
    true
}

fn contains_word(c: &[u8], lo: usize, hi: usize, needle: &Vec<u8>, fold: bool) -> (r: bool)
    requires
        lo <= hi <= c@.len(),
    ensures
        r == contains_in(c@, lo as int, hi as int, needle@, fold),
{
    if hi - lo < needle.len() {
        return false;
    }
    let last = hi - needle.len();
    let mut p = lo;
    while p <= last
        invariant
            lo <= p,
            last + needle@.len() == hi <= c@.len(),
            forall|q: int| lo <= q < p ==> !#[trigger] matches_at(c@, q, needle@, fold),
        decreases last + 1 - p,
    {
        if matches_here(c, p, needle, fold) {
            return true;
        }
        p = p + 1;
    }
    false
}

fn title_key_bytes() -> (r: Vec<u8>)
    ensures
        r@ == title_key(),
{
    let r: Vec<u8> = vec![0x61, 0x64, 0x64, 0x6f, 0x6e, 0x74, 0x69, 0x74, 0x6c, 0x65];
    assert(r@ =~= title_key());
    r
}

fn copy_span(c: &[u8], lo: usize, hi: usize) -> (r: Vec<u8>)
    requires
        lo <= hi <= c@.len(),
    ensures
        r@ == c@.subrange(lo as int, hi as int),
{
    let mut r: Vec<u8> = Vec::new();
    let mut i = lo;
    while i < hi
        invariant
            lo <= i <= hi <= c@.len(),
            r@ == c@.subrange(lo as int, i as int),
        decreases hi - i,
    {
        r.push(c[i]);
        i = i + 1;
        assert(r@ =~= c@.subrange(lo as int, i as int));
    }
    r
}

fn title_on_line(c: &[u8], lo: usize, hi: usize) -> (r: Option<Vec<u8>>)
    requires
        lo <= hi <= c@.len(),
    ensures
        match r {
            Some(t) => line_title(c@, lo as int, hi as int) == Some(t@),
            None => line_title(c@, lo as int, hi as int) is None,
        },
{
    let key = title_key_bytes();
    if is_blank_or_comment(c, lo, hi) || !contains_word(c, lo, hi, &key, true) {
        return None;
    }
    let q0 = find_byte(c, lo, hi, QUOTE);
    let q1 = if q0 < hi { find_byte(c, q0 + 1, hi, QUOTE) } else { hi };
    let q2 = if q1 < hi { find_byte(c, q1 + 1, hi, QUOTE) } else { hi };
    let q3 = if q2 < hi { find_byte(c, q2 + 1, hi, QUOTE) } else { hi };
    proof {
        lemma_find_from_range(c@, lo as int, hi as int, QUOTE);
        if q0 >= hi {
            assert(find_from(c@, q0 + 1, hi as int, QUOTE) == hi);
        }
        if q1 >= hi {
            assert(find_from(c@, q1 + 1, hi as int, QUOTE) == hi);
        }
        if q2 >= hi {
            assert(find_from(c@, q2 + 1, hi as int, QUOTE) == hi);
        }
    }
    if q3 < hi {
        if q2 + 1 < q3 {
            Some(copy_span(c, q2 + 1, q3))
        } else {
            None
        }
    } else if q1 < hi {
        if q0 + 1 < q1 {
            Some(copy_span(c, q0 + 1, q1))
        } else {
            None
        }
    } else {
        None
    }
}

/// Reads the mod title from the text of its description file: the value
/// of the first `addontitle` line (key quoted or not, in any case) that is
/// not a comment and holds a non-empty quoted value.
pub fn parse_addon_title(content: &[u8]) -> (r: Option<Vec<u8>>)
    ensures
        match r {
            Some(t) => title_from(content@, 0) == Some(t@),
            None => title_from(content@, 0) is None,
        },
{
    let n = content.len();
    let mut i: usize = 0;
    while i < n
        invariant
            i <= n == content@.len(),
            title_from(content@, 0) == title_from(content@, i as int),
        decreases n - i,
    {
        let e = find_byte(content, i, n, NEWLINE);
        let t = title_on_line(content, i, e);
        if t.is_some() {
            return t;
        }
        if e >= n {
            return None;
        }
        i = e + 1;
    }
    None
}

/// End of the line that starts at `s` and whose break is at `e`: a `\r`
/// before the `\n` is not part of it.
pub open spec fn line_stop(c: Seq<u8>, s: int, e: int) -> int {
    if s < e < c.len() && c[e - 1] == CR {
        e - 1
    } else {
        e
    }
}

/// After leading white space, the line `c[lo..hi]` starts with `//`.
pub open spec fn starts_comment(c: Seq<u8>, lo: int, hi: int) -> bool {
    let t = skip_ws(c, lo, hi);
    t + 1 < hi && c[t] == SLASH && c[t + 1] == SLASH
}

/// A line from `s` on names both `Game` and `mods` and is not a comment.
pub open spec fn game_line_present(c: Seq<u8>, s: int) -> bool
    decreases c.len() - s,
{
    if s < 0 || s >= c.len() {
        false
    } else {
        let e = find_from(c, s, c.len() as int, NEWLINE);
        let le = line_stop(c, s, e);
        (contains_in(c, s, le, game_word(), false) && contains_in(c, s, le, mods_word(), false)
            && !starts_comment(c, s, le)) || (if s <= e < c.len() {
            game_line_present(c, e + 1)
        } else {
            false
        })
    }
}

/// The lines from `s` on, each ended by `\n`, with the search-path line
/// added after the first line holding `{` at or after the one that names
/// `SearchPaths`.
pub open spec fn rewrite_lines(c: Seq<u8>, s: int, found: bool, inserted: bool) -> Seq<u8>
    decreases c.len() - s,
{
    if s < 0 || s >= c.len() {
        Seq::empty()
    } else {
        let e = find_from(c, s, c.len() as int, NEWLINE);
        let le = line_stop(c, s, e);
        let f = found || contains_in(c, s, le, search_paths_word(), false);
        let ins = f && find_from(c, s, le, OPEN_BRACE) < le && !inserted;
        c.subrange(s, le).push(NEWLINE) + (if ins {
            game_mods_line()
        } else {
            Seq::empty()
        }) + (if s <= e < c.len() {
            rewrite_lines(c, e + 1, f, inserted || ins)
        } else {
            Seq::empty()
        })
    }
}

fn word(which: u8) -> (r: Vec<u8>)
    ensures
        which == 0 ==> r@ == game_word(),
        which == 1 ==> r@ == mods_word(),
        which == 2 ==> r@ == search_paths_word(),
        which > 2 ==> r@ == game_mods_line(),
{
    let r: Vec<u8> = if which == 0 {
        vec![0x47, 0x61, 0x6d, 0x65]
    } else if which == 1 {
        vec![0x6d, 0x6f, 0x64, 0x73]
    } else if which == 2 {
        vec![0x53, 0x65, 0x61, 0x72, 0x63, 0x68, 0x50, 0x61, 0x74, 0x68, 0x73]
    } else {
        vec![0x09, 0x09, 0x09, 0x47, 0x61, 0x6d, 0x65, 0x09, 0x09, 0x09, 0x6d, 0x6f, 0x64, 0x73, 0x0a]
    };
    assert(which == 0 ==> r@ =~= game_word());
    assert(which == 1 ==> r@ =~= mods_word());
    assert(which == 2 ==> r@ =~= search_paths_word());
    assert(which > 2 ==> r@ =~= game_mods_line());
    r
}

fn stop_of_line(c: &[u8], s: usize, e: usize) -> (r: usize)
    requires
        s <= e <= c@.len(),
    ensures
        r == line_stop(c@, s as int, e as int),
        s <= r <= e,
{
    if s < e && e < c.len() && c[e - 1] == CR {
        e - 1
    } else {
        e
    }
}

fn push_span(out: &mut Vec<u8>, c: &[u8], lo: usize, hi: usize)
    requires
        lo <= hi <= c@.len(),
    ensures
        final(out)@ == old(out)@ + c@.subrange(lo as int, hi as int),
{
    let ghost start = out@;
    let mut i = lo;
    while i < hi
        invariant
            lo <= i <= hi <= c@.len(),
            out@ == start + c@.subrange(lo as int, i as int),
        decreases hi - i,
    {
        out.push(c[i]);
        i = i + 1;
        assert(out@ =~= start + c@.subrange(lo as int, i as int));
    }
}

/// Adds the `Game mods` search path to the text of gameinfo.txt. `None`
/// when a line that is not a comment already names `Game` and `mods`;
/// otherwise the text with every line ended by `\n` and the search-path
/// line added after the first `{` line from the `SearchPaths` line on.
pub fn inject_game_mods_line(content: &[u8]) -> (r: Option<Vec<u8>>)
    ensures
        match r {
            Some(v) => !game_line_present(content@, 0) && v@ == rewrite_lines(content@, 0, false, false),
            None => game_line_present(content@, 0),
        },
{
    let n = content.len();
    let game = word(0);
    let mods = word(1);
    let search = word(2);
    let line = word(3);
    let mut s: usize = 0;
    while s < n
        invariant
            s <= n == content@.len(),
            game@ == game_word(),
            mods@ == mods_word(),
            game_line_present(content@, 0) == game_line_present(content@, s as int),
        decreases n - s,
    {
        let e = find_byte(content, s, n, NEWLINE);
        let le = stop_of_line(content, s, e);
        if contains_word(content, s, le, &game, false) && contains_word(content, s, le, &mods, false)
            && !(is_blank_or_comment(content, s, le) && skip_white(content, s, le) < le) {
            return None;
        }
        if e >= n {
            s = n;
        } else {
            s = e + 1;
        }
    }
    let mut out: Vec<u8> = Vec::new();
    let mut found = false;
    let mut inserted = false;
    let mut s: usize = 0;
    while s < n
        invariant
            s <= n == content@.len(),
            search@ == search_paths_word(),
            line@ == game_mods_line(),
            out@ + rewrite_lines(content@, s as int, found, inserted) == rewrite_lines(
                content@,
                0,
                false,
                false,
            ),
        decreases n - s,
    {
        let ghost before = out@;
        let ghost was_found = found;
        let ghost was_inserted = inserted;
        let e = find_byte(content, s, n, NEWLINE);
        let le = stop_of_line(content, s, e);
        found = found || contains_word(content, s, le, &search, false);
        let ins = found && find_byte(content, s, le, OPEN_BRACE) < le && !inserted;
        push_span(&mut out, content, s, le);
        out.push(NEWLINE);
        if ins {
            let mut extra = line.clone();
            out.append(&mut extra);
        }
        inserted = inserted || ins;
        if e >= n {
            assert(out@ =~= before + rewrite_lines(content@, s as int, was_found, was_inserted));
            s = n;
        } else {
            assert(out@ + rewrite_lines(content@, e + 1, found, inserted) =~= before + rewrite_lines(
                content@,
                s as int,
                was_found,
                was_inserted,
            ));
            s = e + 1;
        }
    }
    Some(out)
}

} // verus!
