use kermin_mod_manager::resolver::{
    classify, common_top, exe_to_root, has_traversal, is_anchored, parts_of, resolve_all,
    resolve_anchored, MappedFile,
};

fn targets(names: &[&str], mod_name: &str) -> Vec<(String, String)> {
    let v: Vec<String> = names.iter().map(|s| s.to_string()).collect();
    resolve_all(&v, mod_name)
        .mapped
        .into_iter()
        .map(|m| (m.target, m.category))
        .collect()
}

fn owned(names: &[&str]) -> Vec<String> {
    names.iter().map(|s| s.to_string()).collect()
}

#[test]
fn well_formed_combo() {
    let t = targets(&["SPT/user/mods/x/package.json", "BepInEx/plugins/y.dll"], "m");
    assert!(t.contains(&("SPT/user/mods/x/package.json".into(), "server".into())));
    assert!(t.contains(&("BepInEx/plugins/y.dll".into(), "client".into())));
}

#[test]
fn wrapper_folder_is_stripped() {
    let t = targets(&["Mod-1.0/SPT/user/mods/x/package.json", "Mod-1.0/BepInEx/plugins/y.dll"], "m");
    assert!(t.contains(&("SPT/user/mods/x/package.json".into(), "server".into())));
    assert!(t.contains(&("BepInEx/plugins/y.dll".into(), "client".into())));
}

#[test]
fn bare_user_gets_spt_prefix() {
    let t = targets(&["user/mods/x/package.json"], "m");
    assert_eq!(t, vec![("SPT/user/mods/x/package.json".into(), "server".into())]);
}

#[test]
fn bare_plugins_gets_bepinex_prefix() {
    let t = targets(&["plugins/x.dll"], "m");
    assert_eq!(t, vec![("BepInEx/plugins/x.dll".into(), "client".into())]);
}

#[test]
fn bare_patchers_gets_bepinex_prefix() {
    let t = targets(&["patchers/pre.dll"], "m");
    assert_eq!(t, vec![("BepInEx/patchers/pre.dll".into(), "client".into())]);
}

#[test]
fn bare_server_folder() {
    let t = targets(&["Awesome/package.json", "Awesome/src/mod.js"], "Awesome");
    assert!(t.iter().all(|(p, c)| p.starts_with("SPT/user/mods/Awesome/") && c == "server"));
}

#[test]
fn bare_server_at_root_uses_modname() {
    let t = targets(&["package.json", "src/mod.js"], "RootMod");
    assert!(t.contains(&("SPT/user/mods/RootMod/package.json".into(), "server".into())));
}

#[test]
fn loose_dll_is_client() {
    let t = targets(&["cool.dll"], "Cool");
    assert_eq!(t, vec![("BepInEx/plugins/cool.dll".into(), "client".into())]);
}

#[test]
fn bare_client_folder() {
    let t = targets(&["Cool/cool.dll", "Cool/cfg.json"], "Cool");
    assert!(t.contains(&("BepInEx/plugins/Cool/cool.dll".into(), "client".into())));
    assert!(t.contains(&("BepInEx/plugins/Cool/cfg.json".into(), "client".into())));
}

#[test]
fn lowercase_bepinex_and_config() {
    let t = targets(&["bepinex/plugins/x.dll", "bepinex/config/x.cfg"], "m");
    assert!(t.contains(&("BepInEx/plugins/x.dll".into(), "client".into())));
    assert!(t.contains(&("BepInEx/config/x.cfg".into(), "client".into())));
}

#[test]
fn backslashes_normalised() {
    let t = targets(&["Wrapper\\BepInEx\\plugins\\x.dll"], "m");
    assert_eq!(t, vec![("BepInEx/plugins/x.dll".into(), "client".into())]);
}

#[test]
fn bare_exe_goes_to_root() {
    let t = targets(&["FikaSync.exe"], "FikaSync");
    assert_eq!(t, vec![("FikaSync.exe".into(), "client".into())]);
}

#[test]
fn wrapped_exe_goes_to_root_by_name() {
    let t = targets(&["FikaSync/FikaSync.exe"], "FikaSync");
    assert_eq!(t, vec![("FikaSync.exe".into(), "client".into())]);
}

#[test]
fn traversal_rejected() {
    let v = vec!["SPT/../../evil".to_string()];
    let r = resolve_all(&v, "m");
    assert!(r.mapped.is_empty());
    assert_eq!(r.unrecognized, vec!["SPT/../../evil".to_string()]);
}

#[test]
fn bare_mods_folder_is_server() {
    let t = targets(&["mods/Solarint-SAIN-ServerMod/SAINServerMod.dll"], "m");
    assert_eq!(
        t,
        vec![("SPT/user/mods/Solarint-SAIN-ServerMod/SAINServerMod.dll".into(), "server".into())]
    );
}

#[test]
fn sain_combo_is_mixed() {
    let t = targets(&["BepInEx/plugins/SAIN/SAIN.dll", "mods/X/server.dll"], "m");
    assert!(t.contains(&("BepInEx/plugins/SAIN/SAIN.dll".into(), "client".into())));
    assert!(t.contains(&("SPT/user/mods/X/server.dll".into(), "server".into())));
}

#[test]
fn mods_does_not_hijack_bepinex_paths() {
    let t = targets(&["BepInEx/plugins/mymod/mods/cfg.json"], "m");
    assert_eq!(t, vec![("BepInEx/plugins/mymod/mods/cfg.json".into(), "client".into())]);
}

#[test]
fn parts_drop_empty_components() {
    assert_eq!(parts_of("a//b\\c/"), owned(&["a", "b", "c"]));
    assert_eq!(parts_of(""), Vec::<String>::new());
    assert!(has_traversal(&owned(&["a", ".."])));
    assert!(!has_traversal(&owned(&["a", "...", "b.."])));
}

#[test]
fn anchors_are_found_in_any_case() {
    assert!(is_anchored(&owned(&["x/y.txt", "Wrapper/PLUGINS/z.dll"])));
    assert!(!is_anchored(&owned(&["x/plugins.txt"])));
}

#[test]
fn one_top_folder_or_none() {
    assert_eq!(common_top(&owned(&["A/x", "A/b/y"])), Some("A".to_string()));
    assert_eq!(common_top(&owned(&["A/x", "B/y"])), None);
    assert_eq!(common_top(&owned(&["A/x", "y"])), None);
    assert_eq!(common_top(&[]), None);
}

#[test]
fn outermost_anchor_counts() {
    assert_eq!(
        resolve_anchored("w/spt/BepInEx/x"),
        Some(("SPT/BepInEx/x".to_string(), "server"))
    );
    assert_eq!(resolve_anchored("w/BEPINEX"), Some(("BepInEx".to_string(), "client")));
    assert_eq!(resolve_anchored("w/SPT"), Some(("SPT".to_string(), "server")));
    assert_eq!(resolve_anchored("User/x"), Some(("SPT/User/x".to_string(), "server")));
    assert_eq!(resolve_anchored("readme.txt"), None);
}

#[test]
fn executables_by_their_file_name() {
    assert_eq!(exe_to_root("a\\b\\Tool.EXE"), Some(("Tool.EXE".to_string(), "client")));
    assert_eq!(exe_to_root("a/b..exe"), None);
    assert_eq!(exe_to_root("a/b.txt"), None);
}

#[test]
fn loose_executable_beside_anchors() {
    let v = owned(&["BepInEx/plugins/x.dll", "Tool.exe", "readme.txt"]);
    let r = resolve_all(&v, "m");
    assert_eq!(r.mode, "anchored");
    assert_eq!(r.mapped.len(), 2);
    assert_eq!(r.mapped[1].target, "Tool.exe");
    assert_eq!(r.unrecognized, owned(&["readme.txt"]));
}

#[test]
fn modes_by_layout() {
    assert_eq!(resolve_all(&owned(&["a/package.json"]), "m").mode, "bare-server");
    assert_eq!(resolve_all(&owned(&["a.dll"]), "m").mode, "bare-client");
    assert_eq!(resolve_all(&owned(&["a.exe", "b.txt"]), "m").mode, "bare-root");
    let r = resolve_all(&owned(&["a.txt", "folder/"]), "m");
    assert_eq!(r.mode, "empty");
    assert_eq!(r.unrecognized, owned(&["a.txt"]));
}

#[test]
fn every_file_is_mapped_or_unrecognized() {
    let v = owned(&["package.json", "x/../y", "z.js"]);
    let r = resolve_all(&v, "m");
    assert_eq!(r.mapped.len() + r.unrecognized.len(), 3);
    assert_eq!(r.unrecognized, owned(&["x/../y"]));
}

#[test]
fn resolving_targets_again_changes_nothing() {
    let v = owned(&["w/user/mods/x/package.json", "w/plugins/y.dll"]);
    let first: Vec<String> =
        resolve_all(&v, "m").mapped.into_iter().map(|m| m.target).collect();
    let again: Vec<String> =
        resolve_all(&first, "m").mapped.into_iter().map(|m| m.target).collect();
    assert_eq!(first, again);
}

#[test]
fn either_slash_gives_the_same_targets() {
    assert_eq!(
        targets(&["a/BepInEx/plugins/x.dll"], "m"),
        targets(&["a\\BepInEx\\plugins\\x.dll"], "m")
    );
}

fn of(category: &str) -> MappedFile {
    MappedFile {
        original: "o".to_string(),
        target: "t".to_string(),
        category: category.to_string(),
    }
}

#[test]
fn classification_by_categories() {
    assert_eq!(classify(&[of("client"), of("server")]), "mixed");
    assert_eq!(classify(&[of("client")]), "client");
    assert_eq!(classify(&[of("server")]), "server");
    assert_eq!(classify(&[]), "unknown");
}

#[test]
fn names_that_are_not_ascii_are_lowercased_too() {
    let t = targets(&["Größe/Ä.DLL"], "m");
    assert_eq!(t, vec![("BepInEx/plugins/Größe/Ä.DLL".into(), "client".into())]);
}
