use vstd::prelude::*;

verus! {

/// A mod found in the Workshop folder.
#[derive(Clone, Debug)]
pub struct Mod {
    /// The archive's file name without its extension.
    pub id: String,
    /// Path of the thumbnail image, or empty when there is none.
    pub image_path: String,
    /// The title read from the mod's description file, or its id.
    pub title: String,
}

/// Outcome of a merge or delete request: a status tag and a message.
#[derive(Debug)]
pub struct MergeResult {
    /// `"ok"` or `"error"`.
    pub status: String,
    /// Human-readable message.
    pub msg: String,
}

impl MergeResult {
    pub fn ok(msg: String) -> (r: MergeResult)
        ensures
            r.status@ == "ok"@,
            r.msg@ == msg@,
    {
        MergeResult { status: "ok".to_owned(), msg }
    }

    pub fn error(msg: String) -> (r: MergeResult)
        ensures
            r.status@ == "error"@,
            r.msg@ == msg@,
    {
        MergeResult { status: "error".to_owned(), msg }
    }
}

} // verus!
