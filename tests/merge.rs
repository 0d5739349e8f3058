use l4d2_mod_merger::{
    extract_vpk, is_root_level, merge_sources, pack_vpk_v1, split_path, Entry, SourceFile,
    StagingSet,
};

fn file(path: &str, data: &str) -> SourceFile {
    SourceFile { path: path.as_bytes().to_vec(), data: data.as_bytes().to_vec() }
}

fn entries(set: &StagingSet) -> Vec<(String, String, String, Vec<u8>)> {
    (0..set.len())
        .map(|i| {
            let e = set.entry(i);
            (
                String::from_utf8(e.ext.clone()).unwrap(),
                String::from_utf8(e.dir.clone()).unwrap(),
                String::from_utf8(e.name.clone()).unwrap(),
                e.data.clone(),
            )
        })
        .collect()
}

fn u32_at(b: &[u8], p: usize) -> u32 {
    u32::from_le_bytes([b[p], b[p + 1], b[p + 2], b[p + 3]])
}

fn cstr(b: &[u8], p: &mut usize) -> String {
    let start = *p;
    while b[*p] != 0 {
        *p += 1;
    }
    let s = String::from_utf8(b[start..*p].to_vec()).unwrap();
    *p += 1;
    s
}

/// Reads a version-1 archive back: (path, crc, content) per file.
fn reread(b: &[u8]) -> Vec<(String, u32, Vec<u8>)> {
    assert_eq!(u32_at(b, 0), 0x55aa1234);
    assert_eq!(u32_at(b, 4), 1);
    let tree_len = u32_at(b, 8) as usize;
    let data = &b[12 + tree_len..];
    let mut p = 12;
    let mut out = Vec::new();
    loop {
        let ext = cstr(b, &mut p);
        if ext.is_empty() {
            break;
        }
        loop {
            let dir = cstr(b, &mut p);
            if dir.is_empty() {
                break;
            }
            loop {
                let name = cstr(b, &mut p);
                if name.is_empty() {
                    break;
                }
                let crc = u32_at(b, p);
                assert_eq!(u16::from_le_bytes([b[p + 4], b[p + 5]]), 0);
                assert_eq!(u16::from_le_bytes([b[p + 6], b[p + 7]]), 0x7fff);
                let off = u32_at(b, p + 8) as usize;
                let len = u32_at(b, p + 12) as usize;
                assert_eq!(u16::from_le_bytes([b[p + 16], b[p + 17]]), 0xffff);
                p += 18;
                out.push((format!("{}/{}.{}", dir, name, ext), crc, data[off..off + len].to_vec()));
            }
        }
    }
    assert_eq!(p, 12 + tree_len);
    out
}

#[test]
fn later_source_overrides_earlier() {
    let sources = vec![Some(vec![file("a/x.txt", "1")]), Some(vec![file("a/x.txt", "2")])];
    let set = merge_sources(&sources);
    assert_eq!(entries(&set), vec![("txt".to_string(), "a".to_string(), "x".to_string(), b"2".to_vec())]);
    let bytes = pack_vpk_v1(&set).unwrap();
    assert_eq!(reread(&bytes), vec![("a/x.txt".to_string(), crc32fast::hash(b"2"), b"2".to_vec())]);
}

#[test]
fn override_keeps_later_content_among_others() {
    let a = vec![file("models/x.mdl", "old"), file("models/y.mdl", "keep")];
    let b = vec![file("models/x.mdl", "new")];
    let set = merge_sources(&vec![Some(a), Some(b)]);
    let e = entries(&set);
    assert_eq!(e.len(), 2);
    assert_eq!(e[0].3, b"new".to_vec());
    assert_eq!(e[1].3, b"keep".to_vec());
}

#[test]
fn empty_list_gives_minimal_archive() {
    let set = merge_sources(&vec![]);
    assert_eq!(set.len(), 0);
    let bytes = pack_vpk_v1(&set).unwrap();
    assert_eq!(bytes, vec![0x34, 0x12, 0xaa, 0x55, 1, 0, 0, 0, 1, 0, 0, 0, 0]);
}

#[test]
fn root_level_files_are_left_out() {
    let src = vec![file("addoninfo.txt", "\"addontitle\" \"X\""), file("materials/foo.vmt", "m")];
    let set = merge_sources(&vec![Some(src)]);
    assert_eq!(
        entries(&set),
        vec![("vmt".to_string(), "materials".to_string(), "foo".to_string(), b"m".to_vec())]
    );
}

#[test]
fn root_level_file_alone_gives_empty_set() {
    let set = merge_sources(&vec![Some(vec![file("addoninfo.txt", "x")])]);
    assert_eq!(set.len(), 0);
}

#[test]
fn missing_source_contributes_nothing() {
    let present = vec![file("sound/a.wav", "abc")];
    let with_missing = merge_sources(&vec![None, Some(present.clone()), None]);
    let without = merge_sources(&vec![Some(present)]);
    assert_eq!(entries(&with_missing), entries(&without));
    assert_eq!(pack_vpk_v1(&with_missing).unwrap(), pack_vpk_v1(&without).unwrap());
}

#[test]
fn exact_layout_of_one_file() {
    let set = merge_sources(&vec![Some(vec![file("a/x.txt", "123456789")])]);
    let bytes = pack_vpk_v1(&set).unwrap();
    let mut expected: Vec<u8> = vec![0x34, 0x12, 0xaa, 0x55, 1, 0, 0, 0, 29, 0, 0, 0];
    expected.extend_from_slice(b"txt\0a\0x\0");
    expected.extend_from_slice(&[0x26, 0x39, 0xf4, 0xcb]);
    expected.extend_from_slice(&[0, 0, 0xff, 0x7f, 0, 0, 0, 0, 9, 0, 0, 0, 0xff, 0xff]);
    expected.extend_from_slice(&[0, 0, 0]);
    expected.extend_from_slice(b"123456789");
    assert_eq!(bytes, expected);
}

#[test]
fn grouping_and_offsets() {
    let src = vec![
        file("b/z.vmt", "zz"),
        file("a/y.txt", "y"),
        file("b/w.txt", "www"),
        file("a/x.txt", "xxxx"),
    ];
    let set = merge_sources(&vec![Some(src)]);
    let bytes = pack_vpk_v1(&set).unwrap();
    let tree_len = u32_at(&bytes, 8) as usize;
    let mut expected_tree: Vec<u8> = Vec::new();
    let rec = |t: &mut Vec<u8>, data: &[u8], off: u32| {
        t.extend_from_slice(&crc32fast::hash(data).to_le_bytes());
        t.extend_from_slice(&[0, 0, 0xff, 0x7f]);
        t.extend_from_slice(&off.to_le_bytes());
        t.extend_from_slice(&(data.len() as u32).to_le_bytes());
        t.extend_from_slice(&[0xff, 0xff]);
    };
    expected_tree.extend_from_slice(b"txt\0a\0x\0");
    rec(&mut expected_tree, b"xxxx", 0);
    expected_tree.extend_from_slice(b"y\0");
    rec(&mut expected_tree, b"y", 4);
    expected_tree.extend_from_slice(b"\0b\0w\0");
    rec(&mut expected_tree, b"www", 5);
    expected_tree.extend_from_slice(b"\0\0vmt\0b\0z\0");
    rec(&mut expected_tree, b"zz", 8);
    expected_tree.extend_from_slice(&[0, 0, 0]);
    assert_eq!(tree_len, expected_tree.len());
    assert_eq!(&bytes[12..12 + tree_len], &expected_tree[..]);
    assert_eq!(&bytes[12 + tree_len..], b"xxxxywwwzz");
}

#[test]
fn reread_gives_back_every_file() {
    let src = vec![
        file("materials/models/a.vmt", "shader"),
        file("models/b.mdl", "model"),
        file("models/b.vvd", ""),
        file("sound\\weapons\\c.wav", "wave"),
    ];
    let set = merge_sources(&vec![Some(src)]);
    let bytes = pack_vpk_v1(&set).unwrap();
    let back = reread(&bytes);
    let paths: Vec<(String, Vec<u8>)> = back.iter().map(|(p, _, d)| (p.clone(), d.clone())).collect();
    assert_eq!(
        paths,
        vec![
            ("models/b.mdl".to_string(), b"model".to_vec()),
            ("materials/models/a.vmt".to_string(), b"shader".to_vec()),
            ("models/b.vvd".to_string(), b"".to_vec()),
            ("sound/weapons/c.wav".to_string(), b"wave".to_vec()),
        ]
    );
}

#[test]
fn checksums_match_payloads() {
    let src = vec![file("a/x.txt", "hello"), file("a/y.txt", "world"), file("c/d.bin", "\u{1}\u{2}")];
    let set = merge_sources(&vec![Some(src)]);
    let bytes = pack_vpk_v1(&set).unwrap();
    for (_, crc, data) in reread(&bytes) {
        assert_eq!(crc, crc32fast::hash(&data));
    }
    let back = reread(&bytes);
    assert_eq!(back[1].0, "a/x.txt");
    assert_eq!(back[1].1, 0x3610a686);
}

#[test]
fn writing_is_deterministic() {
    let a = vec![file("x/b.txt", "1"), file("x/a.txt", "2"), file("y/a.vmt", "3")];
    let mut b = a.clone();
    b.reverse();
    let s1 = merge_sources(&vec![Some(a.clone())]);
    let s2 = merge_sources(&vec![Some(a)]);
    let s3 = merge_sources(&vec![Some(b)]);
    let first = pack_vpk_v1(&s1).unwrap();
    assert_eq!(first, pack_vpk_v1(&s1).unwrap());
    assert_eq!(first, pack_vpk_v1(&s2).unwrap());
    assert_eq!(first, pack_vpk_v1(&s3).unwrap());
}

#[test]
fn staging_insert_replaces_same_identity() {
    let mut set = StagingSet::new();
    let e = |d: &str| Entry { ext: b"txt".to_vec(), dir: b"a".to_vec(), name: b"x".to_vec(), data: d.as_bytes().to_vec() };
    set.insert(e("first"));
    set.insert(e("second"));
    assert_eq!(set.len(), 1);
    assert_eq!(set.entry(0).data, b"second".to_vec());
}

#[test]
fn extract_stages_into_existing_set() {
    let mut set = StagingSet::new();
    extract_vpk(&vec![file("a/x.txt", "1"), file("root.txt", "r")], &mut set);
    extract_vpk(&vec![file("a/x.txt", "2"), file("b/y.txt", "3")], &mut set);
    let e = entries(&set);
    assert_eq!(e.len(), 2);
    assert_eq!(e[0].3, b"2".to_vec());
    assert_eq!(e[1].3, b"3".to_vec());
}

#[test]
fn split_path_cases() {
    let s = |p: &str| {
        let (e, d, n) = split_path(&p.as_bytes().to_vec());
        (String::from_utf8(e).unwrap(), String::from_utf8(d).unwrap(), String::from_utf8(n).unwrap())
    };
    let t = |e: &str, d: &str, n: &str| (e.to_string(), d.to_string(), n.to_string());
    assert_eq!(s("materials/foo.vmt"), t("vmt", "materials", "foo"));
    assert_eq!(s("a\\b\\c.txt"), t("txt", "a/b", "c"));
    assert_eq!(s("dir/.hidden"), t("", "dir", ".hidden"));
    assert_eq!(s("dir/archive.tar.gz"), t("gz", "dir", "archive.tar"));
    assert_eq!(s("/x.txt"), t("txt", " ", "x"));
    assert_eq!(s("readme"), t("", " ", "readme"));
    assert_eq!(s("d/name."), t("", "d", "name"));
}

#[test]
fn root_level_detection() {
    assert!(is_root_level(&b"addoninfo.txt".to_vec()));
    assert!(is_root_level(&b"AddonInfo.txt".to_vec()));
    assert!(!is_root_level(&b"materials/foo.vmt".to_vec()));
    assert!(!is_root_level(&b"materials\\foo.vmt".to_vec()));
}
