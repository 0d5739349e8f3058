use l4d2_mod_merger::{
    delete_outcome, get_game_dir, get_gameinfo_path, get_mods_path, get_workshop_path,
    merge_outcome, MergeResult, Mod, TEMP_NAME,
};

#[test]
fn merge_result_ok_and_error() {
    let r = MergeResult::ok("done".to_string());
    assert_eq!(r.status, "ok");
    assert_eq!(r.msg, "done");
    let r = MergeResult::error("bad".to_string());
    assert_eq!(r.status, "error");
    assert_eq!(r.msg, "bad");
}

#[test]
fn mod_holds_its_fields() {
    let m = Mod { id: "123".to_string(), image_path: String::new(), title: "T".to_string() };
    let c = m.clone();
    assert_eq!(c.id, "123");
    assert_eq!(c.title, "T");
}

#[test]
fn game_paths() {
    let root = "C:/Steam/steamapps/common/Left 4 Dead 2";
    assert_eq!(get_game_dir(root), format!("{}/left4dead2", root));
    assert_eq!(get_workshop_path(root), format!("{}/left4dead2/addons/workshop", root));
    assert_eq!(get_mods_path(root), format!("{}/mods", root));
    assert_eq!(get_gameinfo_path(root), format!("{}/left4dead2/gameinfo.txt", root));
    assert_eq!(TEMP_NAME, "pak01_dir");
}

#[test]
fn merge_outcome_messages() {
    let r = merge_outcome(2, 1, "/game/mods");
    assert_eq!(r.status, "ok");
    assert_eq!(r.msg, "¡Mods fusionados correctamente!\nUbicación: /game/mods");
    let r = merge_outcome(0, 0, "/game/mods");
    assert_eq!(r.status, "ok");
    let r = merge_outcome(3, 0, "/game/mods");
    assert_eq!(r.status, "error");
    assert_eq!(r.msg, "Error: ninguno de los mods seleccionados pudo leerse.");
}

#[test]
fn delete_outcome_messages() {
    let r = delete_outcome(true);
    assert_eq!(r.status, "ok");
    assert!(r.msg.starts_with("¡Mods eliminados correctamente!"));
    let r = delete_outcome(false);
    assert_eq!(r.status, "ok");
    assert_eq!(r.msg, "No hay mods fusionados para eliminar.");
}
