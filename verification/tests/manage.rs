use kermin_mod_manager::game::{
    check_temp, detect_spt_version, open_mod_folder, validate_spt_root, version_of, RootSigns,
};
use kermin_mod_manager::inventory::{
    is_spt_core_client, list_installed, listing_fits, push_entry, read_package, read_pkg,
    scan_tree, Listing, ModEntry, ServerNode,
};
use kermin_mod_manager::json;
use kermin_mod_manager::manifest::Manifest;
use kermin_mod_manager::paths::{
    check_mod_path, check_root, is_inside, stored_path, Found, DISABLED_STORE, MANIFESTS,
};
use kermin_mod_manager::toggle::{
    check_toggle, mod_container, move_container, toggle_mod, toggle_result, Place,
};
use kermin_mod_manager::tree::{count_files, dir_size, walk_files, Node};
use kermin_mod_manager::uninstall::{
    check_uninstall, disabled_result, external_result, guarded, may_remove, prune_empty_dirs,
    recorded_result, stored_removal, uninstall_mod, Removal, UninstallPlan,
};

fn owned(names: &[&str]) -> Vec<String> {
    names.iter().map(|s| s.to_string()).collect()
}

fn manifest(path: &str, files: &[&str]) -> Manifest {
    Manifest {
        path: path.to_string(),
        files: owned(files),
        forge_id: Some(9),
        forge_version: Some("2.0".to_string()),
        installed_at: 0,
    }
}

fn error<T>(r: Result<T, String>) -> String {
    match r {
        Ok(_) => panic!("an error was due"),
        Err(e) => e,
    }
}

#[test]
fn stores_are_below_the_root() {
    assert_eq!(DISABLED_STORE, ".spt-mod-installer/disabled");
    assert_eq!(MANIFESTS, ".spt-mod-installer/manifests");
    assert_eq!(stored_path("SPT/user/mods/X"), ".spt-mod-installer/disabled/SPT/user/mods/X");
}

#[test]
fn roots_and_paths_are_checked() {
    assert!(check_root(true).is_ok());
    assert_eq!(error(check_root(false)), "SPT root folder does not exist.");
    assert!(check_mod_path("BepInEx/plugins/X").is_ok());
    assert_eq!(error(check_mod_path("a/../b")), "Invalid mod path.");
    assert_eq!(error(check_mod_path(" \t")), "Invalid mod path.");
    assert_eq!(error(check_mod_path("")), "Invalid mod path.");
}

#[test]
fn joined_paths_stay_inside_or_not() {
    assert!(is_inside("/games/spt", "BepInEx/plugins/x.dll"));
    assert!(is_inside("games", "x"));
    assert!(!is_inside("/games/spt", "/etc/passwd"));
    assert!(is_inside("/games/spt", "/games/./spt/x"));
    assert!(!is_inside("/games/spt", "/games/spt2"));
    assert!(!is_inside("games", "/games/x"));
    assert!(is_inside("", "/x"));
    assert!(is_inside("/", "x"));
    assert!(is_inside("C:\\Games\\SPT", "BepInEx/x.dll"));
    assert!(is_inside("C:\\Games\\SPT\\", "x"));
    assert!(!is_inside("C:\\Games\\SPT", "/etc/x"));
    assert!(!is_inside("D:/SPT", "/etc/x"));
}

#[test]
fn uninstall_is_refused_in_order() {
    assert_eq!(error(check_uninstall(false, "..")), "SPT root folder does not exist.");
    assert_eq!(error(check_uninstall(true, "..")), "Invalid mod path.");
    let core = "That's part of SPT itself and can't be removed here.";
    assert_eq!(error(check_uninstall(true, "BepInEx/plugins/spt")), core);
    assert_eq!(error(check_uninstall(true, "BepInEx/plugins/spt/")), core);
    assert_eq!(error(check_uninstall(true, "BepInEx/plugins/SPT-core.DLL")), core);
    assert_eq!(error(check_uninstall(true, "BepInEx/patchers/spt_pre.dll")), core);
    assert_eq!(error(check_uninstall(true, "BepInEx/plugins/spt.Dll")), core);
    assert_eq!(error(check_uninstall(true, "BepInEx/plugins/Spt.dLL/")), core);
    assert!(check_uninstall(true, "BepInEx/plugins/sptx").is_ok());
    assert!(check_uninstall(true, "SPT/user/mods/spt-x").is_ok());
}

#[test]
fn recorded_mods_are_removed_file_by_file() {
    let ms = vec![
        manifest("m1", &["BepInEx/plugins/X/a.dll", "SPT/user/mods/X/p.json"]),
        manifest("m2", &["BepInEx/plugins/X/a.dll", "BepInEx/plugins/X/b.dll"]),
        manifest("m3", &["BepInEx/plugins/Y/c.dll"]),
    ];
    let plan = uninstall_mod(
        true,
        "BepInEx/plugins/X",
        &ms,
        Found::Folder,
        true,
        Found::Nothing,
        true,
    )
    .unwrap();
    match plan {
        UninstallPlan::Recorded { files, stored, manifests, spanned_both } => {
            assert_eq!(
                files,
                owned(&[
                    "BepInEx/plugins/X/a.dll",
                    "SPT/user/mods/X/p.json",
                    "BepInEx/plugins/X/b.dll"
                ])
            );
            assert_eq!(
                stored,
                owned(&[
                    ".spt-mod-installer/disabled/BepInEx/plugins/X/a.dll",
                    ".spt-mod-installer/disabled/SPT/user/mods/X/p.json",
                    ".spt-mod-installer/disabled/BepInEx/plugins/X/b.dll"
                ])
            );
            assert_eq!(manifests, vec![0, 1]);
            assert!(spanned_both);
            let r = recorded_result(&files, &[true, false, true], spanned_both);
            assert_eq!(
                r.removed,
                owned(&["BepInEx/plugins/X/a.dll", "BepInEx/plugins/X/b.dll"])
            );
            assert!(r.via_manifest);
            assert!(r.spanned_both);
        }
        _ => panic!("the mod is recorded"),
    }
}

#[test]
fn a_mod_on_one_side_spans_one_side() {
    let ms = vec![manifest("m", &["BepInEx/plugins/X/a.dll"])];
    let plan =
        uninstall_mod(true, "BepInEx/plugins/X", &ms, Found::Folder, true, Found::Nothing, true);
    assert!(matches!(plan, Ok(UninstallPlan::Recorded { spanned_both: false, .. })));
}

#[test]
fn disabled_mods_are_removed_from_the_store() {
    let ms = vec![manifest(
        "m",
        &[
            "BepInEx/plugins/X/a.dll",
            "SPT/user/mods/X/p.json",
            "BepInEx/plugins/X/b.dll",
            "SPT/loose.txt",
            "Tool.exe",
        ],
    )];
    let plan =
        uninstall_mod(true, "BepInEx/plugins/X", &ms, Found::Nothing, true, Found::Folder, true);
    match plan {
        Ok(UninstallPlan::Disabled { paths, stored, files, stored_files, manifests }) => {
            assert_eq!(
                paths,
                owned(&["BepInEx/plugins/X", "SPT/user/mods/X", "SPT/loose.txt", "Tool.exe"])
            );
            assert_eq!(
                stored,
                owned(&[
                    ".spt-mod-installer/disabled/BepInEx/plugins/X",
                    ".spt-mod-installer/disabled/SPT/user/mods/X",
                    ".spt-mod-installer/disabled/SPT/loose.txt",
                    ".spt-mod-installer/disabled/Tool.exe",
                ])
            );
            assert_eq!(files.len(), 5);
            assert_eq!(stored_files.len(), 5);
            assert_eq!(stored_files[1], ".spt-mod-installer/disabled/SPT/user/mods/X/p.json");
            assert_eq!(manifests, vec![0]);
            let r = disabled_result(
                &paths,
                &[true, true, false, false],
                &files,
                &[false, false, false, false, true],
                true,
            );
            assert_eq!(r.removed, owned(&["BepInEx/plugins/X", "SPT/user/mods/X", "Tool.exe"]));
            assert!(r.via_manifest);
            assert!(!r.spanned_both);
        }
        _ => panic!("the mod is disabled"),
    }
    assert_eq!(
        error(uninstall_mod(true, "X", &ms, Found::Nothing, true, Found::File, false)),
        "Refusing to delete outside the SPT folder."
    );
}

#[test]
fn disabled_mods_without_manifests_are_removed_alone() {
    let ms = vec![manifest("m", &["BepInEx/plugins/Y/a.dll"])];
    let plan =
        uninstall_mod(true, "BepInEx/plugins/X", &ms, Found::Nothing, true, Found::Folder, true);
    match plan {
        Ok(UninstallPlan::Disabled { paths, stored, files, stored_files, manifests }) => {
            assert_eq!(paths, owned(&["BepInEx/plugins/X"]));
            assert_eq!(stored, owned(&[".spt-mod-installer/disabled/BepInEx/plugins/X"]));
            assert!(files.is_empty());
            assert!(stored_files.is_empty());
            assert!(manifests.is_empty());
            let r = disabled_result(&paths, &[true], &files, &[], false);
            assert_eq!(r.removed, owned(&["BepInEx/plugins/X"]));
            assert!(!r.via_manifest);
        }
        _ => panic!("the mod is disabled"),
    }
}

#[test]
fn disabled_folders_of_the_game_are_removed_at_their_path() {
    let ms = vec![manifest("m", &["BepInEx/plugins/x.dll", "SPT/user/mods/X/p.json"])];
    for rel in ["BepInEx/plugins", "BepInEx", "BepInEx/plugins/"] {
        match uninstall_mod(true, rel, &ms, Found::Nothing, true, Found::Folder, true) {
            Ok(UninstallPlan::Disabled { paths, stored, files, stored_files, manifests }) => {
                assert_eq!(paths, owned(&[rel]));
                assert_eq!(stored, vec![format!(".spt-mod-installer/disabled/{rel}")]);
                assert_eq!(files, owned(&["BepInEx/plugins/x.dll", "SPT/user/mods/X/p.json"]));
                assert_eq!(
                    stored_files,
                    owned(&[
                        ".spt-mod-installer/disabled/BepInEx/plugins/x.dll",
                        ".spt-mod-installer/disabled/SPT/user/mods/X/p.json",
                    ])
                );
                assert_eq!(manifests, vec![0]);
                let r = disabled_result(&paths, &[true], &files, &[false, true], true);
                assert_eq!(r.removed, owned(&[rel, "SPT/user/mods/X/p.json"]));
            }
            _ => panic!("the folder is disabled"),
        }
    }
}

#[test]
fn disabled_paths_inside_a_mod_are_removed_alone() {
    let ms = vec![manifest("m", &["BepInEx/plugins/X/sub/a.dll", "BepInEx/plugins/X/b.dll"])];
    let rel = "BepInEx/plugins/X/sub";
    match uninstall_mod(true, rel, &ms, Found::Nothing, true, Found::Folder, true) {
        Ok(UninstallPlan::Disabled { paths, stored, stored_files, .. }) => {
            assert_eq!(paths, owned(&[rel]));
            assert_eq!(stored, owned(&[".spt-mod-installer/disabled/BepInEx/plugins/X/sub"]));
            assert_eq!(
                stored_files,
                owned(&[
                    ".spt-mod-installer/disabled/BepInEx/plugins/X/sub/a.dll",
                    ".spt-mod-installer/disabled/BepInEx/plugins/X/b.dll",
                ])
            );
        }
        _ => panic!("the folder is disabled"),
    }
}

#[test]
fn the_path_of_a_disabled_mod_comes_first() {
    let ms = vec![manifest("m", &["BepInEx/plugins/X/a.dll", "SPT/user/mods/X/p.json"])];
    let rel = "SPT/user/mods/X";
    match uninstall_mod(true, rel, &ms, Found::Nothing, true, Found::Folder, true) {
        Ok(UninstallPlan::Disabled { paths, .. }) => {
            assert_eq!(paths, owned(&["SPT/user/mods/X", "BepInEx/plugins/X"]));
        }
        _ => panic!("the mod is disabled"),
    }
}

#[test]
fn stored_things_are_removed_by_what_they_are() {
    assert!(stored_removal("s/X", Found::Folder, true) == Removal::Folder);
    assert!(stored_removal("s/X", Found::File, true) == Removal::File);
    assert!(stored_removal("s/X", Found::Other, true) == Removal::File);
    assert!(stored_removal("s/X", Found::Nothing, true) == Removal::Nothing);
    assert!(stored_removal("s/X", Found::Folder, false) == Removal::Nothing);
    assert!(stored_removal("s/../X", Found::Folder, true) == Removal::Nothing);
}

#[test]
fn external_mods_are_removed_whole() {
    let plan = uninstall_mod(true, "X", &[], Found::File, true, Found::Nothing, true);
    assert!(matches!(plan, Ok(UninstallPlan::External)));
    let r = external_result("X");
    assert_eq!(r.removed, owned(&["X"]));
    assert!(!r.via_manifest);
    assert!(!r.spanned_both);
    assert_eq!(
        error(uninstall_mod(true, "X", &[], Found::Folder, false, Found::Nothing, true)),
        "Refusing to delete outside the SPT folder."
    );
    assert_eq!(
        error(uninstall_mod(true, "X", &[], Found::Nothing, true, Found::Nothing, true)),
        "That mod no longer exists on disk."
    );
    assert_eq!(
        error(uninstall_mod(true, "X", &[], Found::Other, true, Found::Folder, true)),
        "That mod no longer exists on disk."
    );
}

#[test]
fn climbing_files_are_not_removed() {
    assert!(may_remove("BepInEx/x", true));
    assert!(!may_remove("BepInEx/../x", true));
    assert!(!may_remove("BepInEx/x", false));
}

#[test]
fn tidying_stops_at_the_folders_of_the_game() {
    assert_eq!(
        prune_empty_dirs("BepInEx/plugins/X/sub/./a.dll"),
        owned(&["BepInEx/plugins/X/sub", "BepInEx/plugins/X"])
    );
    assert_eq!(prune_empty_dirs("BepInEx/plugins/a.dll"), Vec::<String>::new());
    assert_eq!(prune_empty_dirs("SPT/user/mods/X/a"), owned(&["SPT/user/mods/X"]));
    assert_eq!(prune_empty_dirs("other/sub//a"), owned(&["other/sub", "other"]));
    assert_eq!(prune_empty_dirs("Tool.exe"), Vec::<String>::new());
    assert_eq!(prune_empty_dirs(""), Vec::<String>::new());
    for kept in [
        "BepInEx/plugins",
        "BepInEx/patchers",
        "BepInEx/config",
        "BepInEx",
        "SPT/user/mods",
        "SPT/user",
        "SPT",
    ] {
        assert!(guarded(kept));
    }
    assert!(!guarded("SPT/user/mods/X"));
}

#[test]
fn containers_of_installed_paths() {
    assert_eq!(mod_container("BepInEx/plugins/SAIN/sub/x.dll"), "BepInEx/plugins/SAIN");
    assert_eq!(mod_container("SPT/user/mods/X/src/y.js"), "SPT/user/mods/X");
    assert_eq!(mod_container("SPT/user/mods"), "SPT");
    assert_eq!(mod_container("Tool.exe"), "Tool.exe");
    assert_eq!(mod_container("BepInEx/plugins"), "BepInEx");
    assert_eq!(mod_container("//"), "//");
    let c = mod_container("BepInEx/plugins/SAIN/sub/x.dll");
    assert_eq!(mod_container(&c), c);
}

#[test]
fn parts_of_a_mod_move_together() {
    let ms = vec![manifest(
        "m",
        &["BepInEx/plugins/X/a.dll", "SPT/user/mods/X/p.json", "BepInEx/plugins/X/b.dll"],
    )];
    assert_eq!(
        toggle_mod(true, "SPT/user/mods/X", &ms).unwrap(),
        owned(&["BepInEx/plugins/X", "SPT/user/mods/X"])
    );
    assert_eq!(toggle_mod(true, "SPT/user/mods/Y", &ms).unwrap(), owned(&["SPT/user/mods/Y"]));
    assert_eq!(error(toggle_mod(false, "X", &ms)), "SPT root folder does not exist.");
    assert_eq!(error(check_toggle(true, "..")), "Invalid mod path.");
}

#[test]
fn enabling_moves_back_what_disabling_moved() {
    let here = Place { inside: true, exists: true };
    let gone = Place { inside: true, exists: false };
    let out = Place { inside: false, exists: true };
    let away = move_container("BepInEx/plugins/X", false, here, gone).unwrap();
    assert_eq!(away.from, "BepInEx/plugins/X");
    assert_eq!(away.to, ".spt-mod-installer/disabled/BepInEx/plugins/X");
    let back = move_container("BepInEx/plugins/X", true, gone, here).unwrap();
    assert_eq!(back.from, away.to);
    assert_eq!(back.to, away.from);
    assert!(move_container("X", true, here, gone).is_none());
    assert!(move_container("X", false, gone, here).is_none());
    assert!(move_container("X/..", false, here, gone).is_none());
    assert!(move_container("X", false, out, gone).is_none());
}

#[test]
fn moving_nothing_is_an_error() {
    assert!(toggle_result(&[false, true]).is_ok());
    assert_eq!(
        error(toggle_result(&[false])),
        "That mod's files were not found where expected."
    );
    assert!(toggle_result(&[]).is_err());
}

fn leaf(name: &str, size: u64) -> Node {
    Node::File { name: name.to_string(), exact: true, size: Some(size) }
}

fn folder(name: &str, children: Vec<Node>) -> Node {
    Node::Folder { name: name.to_string(), children }
}

#[test]
fn trees_are_walked_counted_and_measured() {
    let nodes = vec![
        leaf("a.txt", 3),
        folder("d", vec![leaf("b", 4), folder("e", vec![leaf("c\\x", 5)])]),
        Node::File { name: "u".to_string(), exact: true, size: None },
        folder("empty", vec![]),
    ];
    assert_eq!(walk_files(&nodes), owned(&["a.txt", "d/b", "d/e/c/x", "u"]));
    assert_eq!(count_files(&nodes), 4);
    assert_eq!(dir_size(&nodes), 12);
    assert_eq!(walk_files(&nodes).len(), count_files(&nodes));
}

#[test]
fn core_clients() {
    assert!(is_spt_core_client("SPT"));
    assert!(is_spt_core_client("spt-common"));
    assert!(is_spt_core_client("Spt_x"));
    assert!(!is_spt_core_client("sptx"));
}

#[test]
fn packages_are_read_as_far_as_they_go() {
    let t = "{\"name\": \"N\", \"version\": \"1.0\", \"author\": 5}".to_string();
    assert_eq!(
        read_pkg(&Some(t.clone())),
        (Some("N".to_string()), Some("1.0".to_string()), None)
    );
    assert_eq!(read_pkg(&Some("oops".to_string())), (None, None, None));
    assert_eq!(read_pkg(&None), (None, None, None));
    let j = json::parse(&t).unwrap();
    assert_eq!(read_package(&j).0, Some("N".to_string()));
}

#[test]
fn manifests_know_versions_better() {
    let ms = vec![manifest("m", &["SPT/user/mods/X/p.json"])];
    let mut out: Vec<ModEntry> = Vec::new();
    push_entry(
        &mut out,
        "X".to_string(),
        "server",
        "SPT/user/mods/X".to_string(),
        1,
        2,
        Some("1.0".to_string()),
        None,
        &ms,
        true,
    );
    push_entry(
        &mut out,
        "Y".to_string(),
        "server",
        "SPT/user/mods/Y".to_string(),
        3,
        4,
        Some("1.0".to_string()),
        Some("A".to_string()),
        &ms,
        false,
    );
    assert_eq!(out[0].version, Some("2.0".to_string()));
    assert_eq!(out[0].source, "app");
    assert_eq!(out[0].forge_id, Some(9));
    assert_eq!(out[1].version, Some("1.0".to_string()));
    assert_eq!(out[1].source, "external");
    assert_eq!(out[1].forge_id, None);
    assert!(!out[1].enabled);
}

fn live_listing() -> Listing {
    Listing {
        plugins: vec![
            folder("zeta", vec![leaf("z.dll", 10)]),
            folder("spt", vec![leaf("core.dll", 1)]),
            leaf("Alpha.DLL", 7),
            leaf("spt-core.dll", 1),
            leaf("readme.txt", 1),
            Node::File { name: "b\u{fffd}d.dll".to_string(), exact: false, size: None },
        ],
        patchers: vec![leaf("beta.dll", 2)],
        mods: vec![
            ServerNode {
                node: folder("SrvFolder", vec![leaf("package.json", 5)]),
                package: Some(
                    "{\"name\": \"Gamma\", \"version\": \"1.2\", \"author\": \"Me\"}".to_string(),
                ),
            },
            ServerNode { node: leaf("order.json", 1), package: None },
        ],
    }
}

fn empty_listing() -> Listing {
    Listing { plugins: vec![], patchers: vec![], mods: vec![] }
}

#[test]
fn trees_are_scanned_for_mods() {
    let l = live_listing();
    assert!(listing_fits(&l));
    let mut out: Vec<ModEntry> = Vec::new();
    scan_tree(&l, &[], true, &mut out);
    let seen: Vec<(String, String)> =
        out.iter().map(|e| (e.name.clone(), e.rel_path.clone())).collect();
    assert_eq!(
        seen,
        vec![
            ("zeta".to_string(), "BepInEx/plugins/zeta".to_string()),
            ("Alpha".to_string(), "BepInEx/plugins/Alpha.DLL".to_string()),
            ("b\u{fffd}d.dll".to_string(), "BepInEx/plugins/b\u{fffd}d.dll".to_string()),
            ("beta".to_string(), "BepInEx/patchers/beta.dll".to_string()),
            ("Gamma".to_string(), "SPT/user/mods/SrvFolder".to_string()),
        ]
    );
    assert_eq!(out[0].size_bytes, 10);
    assert_eq!(out[1].file_count, 1);
    assert_eq!(out[1].size_bytes, 7);
    assert_eq!(out[2].size_bytes, 0);
    assert_eq!(out[4].author, Some("Me".to_string()));
    assert_eq!(out[4].kind, "server");
}

#[test]
fn too_much_to_count_is_noticed() {
    let l = Listing {
        plugins: vec![folder("big", vec![leaf("a", u64::MAX), leaf("b", 1)])],
        patchers: vec![],
        mods: vec![],
    };
    assert!(!listing_fits(&l));
    assert!(listing_fits(&empty_listing()));
}

#[test]
fn installed_mods_are_listed_by_name() {
    let disabled = Listing {
        plugins: vec![folder("ALPHA", vec![])],
        patchers: vec![],
        mods: vec![],
    };
    let r = list_installed(true, &live_listing(), &disabled, &[]).unwrap();
    let client: Vec<(String, bool)> =
        r.client.iter().map(|e| (e.name.clone(), e.enabled)).collect();
    assert_eq!(
        client,
        vec![
            ("Alpha".to_string(), true),
            ("ALPHA".to_string(), false),
            ("beta".to_string(), true),
            ("b\u{fffd}d.dll".to_string(), true),
            ("zeta".to_string(), true),
        ]
    );
    assert_eq!(r.server.len(), 1);
    assert_eq!(
        error(list_installed(false, &empty_listing(), &empty_listing(), &[])),
        "SPT root folder does not exist."
    );
}

fn signs() -> RootSigns {
    RootSigns {
        is_dir: true,
        spt: false,
        bepinex: false,
        launcher: false,
        game: false,
        server: false,
    }
}

#[test]
fn game_folders_are_recognised() {
    let r = validate_spt_root(RootSigns { is_dir: false, spt: true, ..signs() });
    assert!(!r.valid);
    assert_eq!(r.note, "Folder does not exist.");
    let r = validate_spt_root(signs());
    assert!(!r.valid);
    assert_eq!(
        r.note,
        "No SPT/, BepInEx/, or SPT executable found here. Make sure this is your SPT game folder."
    );
    for s in [
        RootSigns { spt: true, ..signs() },
        RootSigns { bepinex: true, ..signs() },
        RootSigns { launcher: true, ..signs() },
        RootSigns { game: true, ..signs() },
        RootSigns { server: true, ..signs() },
    ] {
        let r = validate_spt_root(s);
        assert!(r.valid);
        assert_eq!(r.note, "Looks like a valid SPT install.");
    }
}

#[test]
fn versions_of_the_game() {
    let first = Some("{\"akiVersion\": \"3.8\", \"version\": \"1\"}".to_string());
    let second = Some("{\"sptVersion\": \"4.0\"}".to_string());
    assert_eq!(detect_spt_version(&[first.clone(), second.clone()]), Some("3.8".to_string()));
    assert_eq!(detect_spt_version(&[None, second]), Some("4.0".to_string()));
    assert_eq!(
        detect_spt_version(&[Some("{".to_string()), Some("{\"version\": \"2\"}".to_string())]),
        Some("2".to_string())
    );
    assert_eq!(detect_spt_version(&[Some("{\"sptVersion\": 4}".to_string())]), None);
    assert_eq!(detect_spt_version(&[]), None);
    let j = json::parse("{\"version\": \"1\", \"sptVersion\": \"4\"}").unwrap();
    assert_eq!(version_of(&j), Some("4".to_string()));
}

#[test]
fn mods_are_shown_where_they_are() {
    let o = open_mod_folder("X", Found::Folder, Found::Folder).unwrap();
    assert_eq!(o.path, "X");
    assert!(!o.around);
    let o = open_mod_folder("X.dll", Found::File, Found::Nothing).unwrap();
    assert!(o.around);
    let o = open_mod_folder("X", Found::Nothing, Found::Folder).unwrap();
    assert_eq!(o.path, ".spt-mod-installer/disabled/X");
    assert_eq!(
        error(open_mod_folder("X", Found::Nothing, Found::Nothing)),
        "Mod files not found."
    );
    assert_eq!(error(open_mod_folder("..", Found::File, Found::File)), "Invalid mod path.");
}

#[test]
fn temporary_files_are_checked() {
    assert!(check_temp(true).is_ok());
    assert_eq!(error(check_temp(false)), "Refusing to write outside the temp folder.");
}
