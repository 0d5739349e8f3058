use l4d2_mod_merger::{inject_game_mods_line, parse_addon_title};

fn title(s: &str) -> Option<String> {
    parse_addon_title(s.as_bytes()).map(|t| String::from_utf8(t).unwrap())
}

fn inject(s: &str) -> Option<String> {
    inject_game_mods_line(s.as_bytes()).map(|t| String::from_utf8(t).unwrap())
}

#[test]
fn title_with_quoted_key() {
    assert_eq!(title("\"AddonInfo\"\n{\n\t\"addonTitle\"\t\t\"My Mod\"\n}\n"), Some("My Mod".to_string()));
}

#[test]
fn title_with_bare_key() {
    assert_eq!(title("addontitle              \"Title Here\""), Some("Title Here".to_string()));
}

#[test]
fn title_skips_comments_and_blank_lines() {
    assert_eq!(title("   \n// addontitle \"X\"\n  ADDONTITLE \"Y\"\r\n"), Some("Y".to_string()));
}

#[test]
fn title_after_unicode_space_comment() {
    assert_eq!(title("\u{3000}// addontitle \"X\"\naddontitle \"Z\""), Some("Z".to_string()));
}

#[test]
fn title_empty_value_moves_on() {
    assert_eq!(title("\"addontitle\" \"\"\naddontitle \"Z\""), Some("Z".to_string()));
}

#[test]
fn title_absent() {
    assert_eq!(title("addonversion \"1.0\"\naddontitle nothing quoted"), None);
    assert_eq!(title(""), None);
}

#[test]
fn inject_after_search_paths_brace() {
    let src = "\"GameInfo\"\n{\n\tFileSystem\n\t{\n\t\tSearchPaths\n\t\t{\n\t\t\tGame\tleft4dead2\n\t\t}\n\t}\n}";
    let expected = "\"GameInfo\"\n{\n\tFileSystem\n\t{\n\t\tSearchPaths\n\t\t{\n\t\t\tGame\t\t\tmods\n\t\t\tGame\tleft4dead2\n\t\t}\n\t}\n}\n";
    assert_eq!(inject(src), Some(expected.to_string()));
}

#[test]
fn inject_is_idempotent() {
    let once = inject("SearchPaths\n{\n}\n").unwrap();
    assert_eq!(once, "SearchPaths\n{\n\t\t\tGame\t\t\tmods\n}\n");
    assert_eq!(inject(&once), None);
}

#[test]
fn inject_ignores_commented_line() {
    assert_eq!(inject("// Game mods\nSearchPaths {\r\n"), Some("// Game mods\nSearchPaths {\n\t\t\tGame\t\t\tmods\n".to_string()));
}

#[test]
fn inject_without_search_paths_only_normalises_lines() {
    assert_eq!(inject("a\r\nb"), Some("a\nb\n".to_string()));
}
