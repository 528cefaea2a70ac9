use kermin_mod_manager::archive::{
    build_report, choose_decoder, detect_format, entry_path, report_from_extracted, spool_name,
    unpack_rar_entry, unpack_zip_entry, Decoder, Unpack,
};
use kermin_mod_manager::install::{
    build_install, build_install_path, install_from_extracted, install_result, may_write,
    plan_install, source_label, Origin, Placement,
};
use kermin_mod_manager::json;
use kermin_mod_manager::json::Json;
use kermin_mod_manager::manifest::{
    load_manifests, manifest_for, manifest_text, owning_manifests, read_manifest, record_forge,
    superseded_manifests, with_forge, Manifest, ManifestFile,
};
use kermin_mod_manager::resolver::MappedFile;

fn owned(names: &[&str]) -> Vec<String> {
    names.iter().map(|s| s.to_string()).collect()
}

#[test]
fn formats_by_their_first_bytes() {
    assert_eq!(detect_format(&[0x37, 0x7A, 0xBC, 0xAF, 0x27, 0x1C, 0]), "7z");
    assert_eq!(detect_format(b"PK\x03\x04rest"), "zip");
    assert_eq!(detect_format(b"PK\x05\x06"), "zip");
    assert_eq!(detect_format(b"Rar!\x1a"), "rar");
    assert_eq!(detect_format(b"PK\x03"), "unknown");
    assert_eq!(detect_format(&[]), "unknown");
}

#[test]
fn six_bytes_tell_the_format() {
    let whole = b"Rar!\x1a\x07\x00 and more";
    assert_eq!(detect_format(whole), detect_format(&whole[..6]));
}

#[test]
fn decoders_by_format() {
    assert!(matches!(choose_decoder(b"PK\x03\x04"), Ok(Decoder::Zip)));
    assert!(matches!(choose_decoder(b"Rar!"), Ok(Decoder::Rar)));
    let seven = [0x37, 0x7A, 0xBC, 0xAF, 0x27, 0x1C];
    assert!(matches!(choose_decoder(&seven), Ok(Decoder::SevenZip)));
    match choose_decoder(b"text") {
        Err(e) => assert_eq!(e, "Unrecognized archive format (expected .zip or .7z)."),
        Ok(_) => panic!("text is no archive"),
    }
    assert_eq!(spool_name(Decoder::SevenZip), Some("__src.7z"));
    assert_eq!(spool_name(Decoder::Rar), Some("__src.rar"));
    assert_eq!(spool_name(Decoder::Zip), None);
}

#[test]
fn entries_with_two_dots_are_left_out() {
    assert_eq!(entry_path("a\\b"), Some("a/b".to_string()));
    assert_eq!(entry_path("a/../b"), None);
    assert_eq!(entry_path("a..b"), None);
    assert!(unpack_zip_entry("a/", true, true) == Unpack::Folder);
    assert!(unpack_zip_entry("a", false, true) == Unpack::File);
    assert!(unpack_zip_entry("a", false, false) == Unpack::Skip);
    assert!(unpack_zip_entry("../a", false, true) == Unpack::Skip);
    assert!(unpack_rar_entry("a", true));
    assert!(!unpack_rar_entry("a", false));
    assert!(!unpack_rar_entry("a/..", true));
}

#[test]
fn reports_count_every_file() {
    let names = owned(&["BepInEx/plugins/x.dll", "SPT/user/mods/y/package.json", "readme.md"]);
    let r = report_from_extracted(&names, "Combo");
    assert_eq!(r.mod_name, "Combo");
    assert_eq!(r.classification, "mixed");
    assert_eq!(r.mode, "anchored");
    assert!(!r.heuristic);
    assert_eq!(r.client.len(), 1);
    assert_eq!(r.server.len(), 1);
    assert_eq!(r.unrecognized, owned(&["readme.md"]));
    assert_eq!(r.total_files, 3);
}

#[test]
fn guessed_layouts_are_marked() {
    let r = report_from_extracted(&owned(&["x.dll"]), "m");
    assert!(r.heuristic);
    assert_eq!(r.mode, "bare-client");
    let r = report_from_extracted(&owned(&["a.exe"]), "m");
    assert!(r.heuristic);
    assert_eq!(r.mode, "bare-client");
    assert_eq!(r.client.len(), 1);
    let r = report_from_extracted(&owned(&["x/package.json"]), "m");
    assert_eq!(r.mode, "bare-server");
    let r = report_from_extracted(&owned(&["readme.md"]), "m");
    assert!(!r.heuristic);
    assert_eq!(r.mode, "empty");
}

#[test]
fn unpacking_errors_are_passed_on() {
    match build_report(Err("broken".to_string()), "m") {
        Err(e) => assert_eq!(e, "broken"),
        Ok(_) => panic!("there is nothing to report"),
    }
    match build_install(Err("broken".to_string()), "m") {
        Err(e) => assert_eq!(e, "broken"),
        Ok(_) => panic!("there is nothing to install"),
    }
    match build_install_path(Ok(owned(&["x.dll"])), "m") {
        Ok(res) => assert_eq!(res.mapped[0].target, "BepInEx/plugins/x.dll"),
        Err(e) => panic!("{}", e),
    }
}

#[test]
fn nothing_installable() {
    match plan_install(&owned(&["readme.md"]), "m") {
        Err(e) => assert_eq!(
            e,
            "Nothing installable was found in this archive. Its layout is not recognised."
        ),
        Ok(_) => panic!("nothing is installable"),
    }
}

#[test]
fn two_dots_in_a_target_are_not_written() {
    let m = MappedFile {
        original: "a..b.dll".to_string(),
        target: "BepInEx/plugins/a..b.dll".to_string(),
        category: "client".to_string(),
    };
    assert!(!may_write(&m, true));
    let fine = MappedFile {
        original: "a.dll".to_string(),
        target: "BepInEx/plugins/a.dll".to_string(),
        category: "client".to_string(),
    };
    assert!(may_write(&fine, true));
    assert!(!may_write(&fine, false));
}

#[test]
fn installing_tells_what_was_done() {
    let names = owned(&[
        "BepInEx/plugins/new.dll",
        "BepInEx/plugins/old.dll",
        "BepInEx/plugins/a..b.dll",
        "SPT/user/mods/y/package.json",
        "SPT/out",
        "readme.md",
    ]);
    let res = plan_install(&names, "Combo").unwrap();
    let done = install_from_extracted(
        res,
        &[
            Placement::New,
            Placement::Replaced,
            Placement::New,
            Placement::New,
            Placement::Outside,
        ],
    )
    .unwrap();
    let targets: Vec<String> = done.files.iter().map(|m| m.target.clone()).collect();
    assert_eq!(
        targets,
        owned(&[
            "BepInEx/plugins/new.dll",
            "BepInEx/plugins/old.dll",
            "SPT/user/mods/y/package.json"
        ])
    );
    assert_eq!(done.overwritten, owned(&["BepInEx/plugins/old.dll"]));
    assert_eq!(done.skipped, owned(&["BepInEx/plugins/a..b.dll", "SPT/out", "readme.md"]));
    assert_eq!(done.client_count, 2);
    assert_eq!(done.server_count, 1);
    assert_eq!(done.classification, "mixed");
    let told = install_result(done, "m.json".to_string());
    assert_eq!(told.manifest_path, "m.json");
    assert_eq!(told.installed.len(), told.client_count + told.server_count);
}

#[test]
fn nothing_installed() {
    let res = plan_install(&owned(&["x.dll"]), "m").unwrap();
    match install_from_extracted(res, &[Placement::Outside]) {
        Err(e) => {
            assert_eq!(e, "Nothing was installed (no files mapped to a valid SPT location).")
        }
        Ok(_) => panic!("no file was written"),
    }
}

#[test]
fn sources_are_labelled() {
    assert_eq!(source_label("SAIN", Origin::Local), "SAIN (local)");
    assert_eq!(source_label("SAIN.zip", Origin::DragDrop), "SAIN.zip (drag-drop)");
    assert_eq!(source_label("SAIN", Origin::ModList), "SAIN (mod list)");
}

fn written_manifest() -> String {
    let names = owned(&["BepInEx/plugins/X/x.dll", "SPT/user/mods/X/package.json"]);
    let res = plan_install(&names, "X").unwrap();
    let done = install_from_extracted(res, &[Placement::New, Placement::New]).unwrap();
    manifest_text("X", "X (local)", 1234, &done)
}

fn file(path: &str, name: &str, source: &str) -> ManifestFile {
    ManifestFile {
        path: path.to_string(),
        name: name.to_string(),
        text: Some(source.to_string()),
    }
}

#[test]
fn manifests_are_written_sorted_and_indented() {
    let t = written_manifest();
    assert!(t.starts_with("{\n  \"classification\": \"mixed\",\n  \"client_count\": 1,\n"));
    assert!(t.contains("\"installed_at_ms\": 1234"));
    assert!(t.contains("\"mod_name\": \"X\""));
    assert!(t.contains("\"source\": \"X (local)\""));
    assert!(t.contains("\"target\": \"SPT/user/mods/X/package.json\""));
}

#[test]
fn manifests_read_back() {
    let t = written_manifest();
    let ms = load_manifests(&[file("dir/X-1.json", "X-1.json", &t)]);
    assert_eq!(ms.len(), 1);
    assert_eq!(ms[0].path, "dir/X-1.json");
    assert_eq!(
        ms[0].files,
        owned(&["BepInEx/plugins/X/x.dll", "SPT/user/mods/X/package.json"])
    );
    assert_eq!(ms[0].forge_id, None);
    assert_eq!(ms[0].forge_version, None);
    assert_eq!(ms[0].installed_at, 1234);
}

#[test]
fn recorded_ids_read_back() {
    let t = written_manifest();
    let with_both = record_forge(&t, 791, Some("3.1.0".to_string())).unwrap();
    let ms = load_manifests(&[file("p", "p.json", &with_both)]);
    assert_eq!(ms[0].forge_id, Some(791));
    assert_eq!(ms[0].forge_version, Some("3.1.0".to_string()));
    assert_eq!(ms[0].installed_at, 1234);
    assert_eq!(ms[0].files.len(), 2);
    let with_id = record_forge(&with_both, 5, None).unwrap();
    let ms = load_manifests(&[file("p", "p.json", &with_id)]);
    assert_eq!(ms[0].forge_id, Some(5));
    assert_eq!(ms[0].forge_version, Some("3.1.0".to_string()));
}

#[test]
fn ids_are_recorded_in_objects_only() {
    assert!(record_forge("[1]", 1, None).is_none());
    assert!(record_forge("not json", 1, None).is_none());
    assert!(with_forge(Json::Bool(true), 1, None).is_none());
    let j = with_forge(Json::Null, 7, None).unwrap();
    assert_eq!(j.u64_member("forge_id"), Some(7));
}

#[test]
fn unreadable_manifests_are_passed_over() {
    let files = vec![
        ManifestFile { path: "a".to_string(), name: "a.json".to_string(), text: None },
        file("b", "b.txt", "{}"),
        file("c", "c.json", "{"),
        file("d", "d.json", "{\"files\": [{\"target\": \"x\\\\y\"}, {}, 3]}"),
    ];
    let ms = load_manifests(&files);
    assert_eq!(ms.len(), 1);
    assert_eq!(ms[0].path, "d");
    assert_eq!(ms[0].files, owned(&["x/y"]));
    assert_eq!(ms[0].installed_at, 0);
}

#[test]
fn manifests_from_parsed_values() {
    let j = json::parse("{\"forge_id\": 3, \"installed_at_ms\": 9}").unwrap();
    let m = read_manifest("p", &j);
    assert_eq!(m.forge_id, Some(3));
    assert_eq!(m.installed_at, 9);
    assert!(m.files.is_empty());
}

fn manifest(path: &str, files: &[&str], forge_id: Option<u64>) -> Manifest {
    Manifest {
        path: path.to_string(),
        files: owned(files),
        forge_id,
        forge_version: None,
        installed_at: 0,
    }
}

#[test]
fn owners_of_a_path() {
    let ms = vec![
        manifest("a", &["BepInEx/plugins/AB/x.dll"], None),
        manifest("b", &["BepInEx/plugins/A/x.dll"], None),
        manifest("c", &["BepInEx/plugins/A"], None),
    ];
    assert_eq!(manifest_for(&ms, "BepInEx/plugins/A").unwrap().path, "b");
    assert_eq!(manifest_for(&ms, "BepInEx/plugins/A/").unwrap().path, "b");
    assert!(manifest_for(&ms, "BepInEx/plugins/C").is_none());
    assert_eq!(owning_manifests(&ms, "BepInEx/plugins/A"), vec![1, 2]);
}

#[test]
fn older_manifests_of_a_mod_are_superseded() {
    let ms = vec![
        manifest("old", &[], Some(5)),
        manifest("other", &[], Some(6)),
        manifest("new", &[], Some(5)),
        manifest("none", &[], None),
    ];
    assert_eq!(superseded_manifests(&ms, 5, "new"), vec![0]);
}
