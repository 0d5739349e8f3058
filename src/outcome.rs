use vstd::prelude::*;
use crate::mod_types::MergeResult;
use crate::paths::append_str;

verus! {

pub const MERGED_MSG: &'static str = "¡Mods fusionados correctamente!\nUbicación: ";

pub const NO_CONTENT_MSG: &'static str = "Error: ninguno de los mods seleccionados pudo leerse.";

pub const DELETED_MSG: &'static str = "¡Mods eliminados correctamente!\nEl juego ha sido restaurado a su estado original.";

pub const NOTHING_TO_DELETE_MSG: &'static str = "No hay mods fusionados para eliminar.";

/// Whether a merge should be published: not when sources were asked for
/// and none of them could be read.
pub open spec fn merge_usable(requested: nat, usable: nat) -> bool {
    requested == 0 || usable > 0
}

/// The answer to a merge request of `requested` sources of which `usable`
/// were read, the archive going to `location`.
pub fn merge_outcome(requested: usize, usable: usize, location: &str) -> (r: MergeResult)
    ensures
        merge_usable(requested as nat, usable as nat) ==> r.status@ == "ok"@ && r.msg@
            == MERGED_MSG@ + location@,
        !merge_usable(requested as nat, usable as nat) ==> r.status@ == "error"@ && r.msg@
            == NO_CONTENT_MSG@,
{
    if requested == 0 || usable > 0 {
        let mut msg = MERGED_MSG.to_owned();
        append_str(&mut msg, location);
        MergeResult::ok(msg)
    } else {
        MergeResult::error(NO_CONTENT_MSG.to_owned())
    }
}

/// The answer to a delete request, after the merged archive was removed
/// (`removed`) or found absent.
pub fn delete_outcome(removed: bool) -> (r: MergeResult)
    ensures
        r.status@ == "ok"@,
        removed ==> r.msg@ == DELETED_MSG@,
        !removed ==> r.msg@ == NOTHING_TO_DELETE_MSG@,
{
    if removed {
        MergeResult::ok(DELETED_MSG.to_owned())
    } else {
        MergeResult::ok(NOTHING_TO_DELETE_MSG.to_owned())
    }
}

} // verus!
