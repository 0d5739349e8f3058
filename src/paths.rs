use vstd::prelude::*;

verus! {

/// Relies on `String::push_str`: appends `tail` to `s`.
#[verifier::external_body]
pub(crate) fn append_str(s: &mut String, tail: &str)
    ensures
        final(s)@ == old(s)@ + tail@,
{
    s.push_str(tail)
}

/// File name (without extension) of the merged archive.
pub const TEMP_NAME: &'static str = "pak01_dir";

/// `base` and `name` joined by a forward slash.
pub open spec fn join(base: Seq<char>, name: Seq<char>) -> Seq<char> {
    base + seq!['/'] + name
}

fn joined(base: &str, name: &str) -> (r: String)
    ensures
        r@ == join(base@, name@),
{
    let mut r = base.to_owned();
    append_str(&mut r, "/");
    proof {
        reveal_strlit("/");
    }
    append_str(&mut r, name);
    r
}

/// The game's content directory under the installation directory.
pub fn get_game_dir(install_dir: &str) -> (r: String)
    ensures
        r@ == join(install_dir@, "left4dead2"@),
{
    joined(install_dir, "left4dead2")
}

/// The Workshop addons folder.
pub fn get_workshop_path(install_dir: &str) -> (r: String)
    ensures
        r@ == join(join(join(install_dir@, "left4dead2"@), "addons"@), "workshop"@),
{
    let game = get_game_dir(install_dir);
    let addons = joined(game.as_str(), "addons");
    joined(addons.as_str(), "workshop")
}

/// The folder that receives the merged archive.
pub fn get_mods_path(install_dir: &str) -> (r: String)
    ensures
        r@ == join(install_dir@, "mods"@),
{
    joined(install_dir, "mods")
}

/// The game's search-path configuration file.
pub fn get_gameinfo_path(install_dir: &str) -> (r: String)
    ensures
        r@ == join(join(install_dir@, "left4dead2"@), "gameinfo.txt"@),
{
    let game = get_game_dir(install_dir);
    joined(game.as_str(), "gameinfo.txt")
}

} // verus!
