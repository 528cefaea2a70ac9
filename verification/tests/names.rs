use kermin_mod_manager::names::{
    decimal_text, download_file_name, drop_file_name, extension_of, extract_dir_name,
    manifest_file_name, mod_name_from_zip, mod_name_or_default, now_millis, sanitize, stem_of,
};
use kermin_mod_manager::text::{first_chars, is_blank};
use kermin_mod_manager::version::{parse_ver, version_gt};

#[test]
fn mod_names_come_from_file_stems() {
    assert_eq!(mod_name_from_zip("C/mods/SAIN-3.1.zip"), "SAIN-3.1");
    assert_eq!(mod_name_from_zip("archive.tar.gz"), "archive.tar");
    assert_eq!(mod_name_from_zip(".hidden"), ".hidden");
    assert_eq!(mod_name_from_zip(".."), "mod");
    assert_eq!(mod_name_from_zip(""), "mod");
    assert_eq!(mod_name_or_default(None), "mod");
}

#[test]
fn unsafe_characters_become_underscores() {
    assert_eq!(sanitize("My Mod: v1.0/ü_-"), "My_Mod__v1_0_ü_-");
    assert_eq!(sanitize(&sanitize("a b*c")), sanitize("a b*c"));
}

#[test]
fn made_up_names() {
    assert_eq!(extract_dir_name(1700000000000, 7), "sptmod-extract-1700000000000-7");
    assert_eq!(drop_file_name(5, 6, "a b.zip"), "kdrop-5-6-a_b_zip");
    assert_eq!(download_file_name(5, 6), "sptdl-5-6.bin");
    assert_eq!(manifest_file_name("My Mod", 12), "My_Mod-12.json");
    assert_ne!(extract_dir_name(1, 23), extract_dir_name(12, 3));
}

#[test]
fn numbers_in_decimal() {
    assert_eq!(decimal_text(0), "0");
    assert_eq!(decimal_text(1234567890), "1234567890");
    assert_eq!(decimal_text(u128::MAX), u128::MAX.to_string());
}

#[test]
fn time_before_the_epoch_is_zero() {
    assert_eq!(now_millis(Some(99)), 99);
    assert_eq!(now_millis(None), 0);
}

#[test]
fn extensions_and_stems() {
    assert_eq!(extension_of("a.b.dll"), Some("dll".to_string()));
    assert_eq!(stem_of("a.b.dll"), "a.b");
    assert_eq!(extension_of(".dll"), None);
    assert_eq!(stem_of(".dll"), ".dll");
    assert_eq!(extension_of("dll"), None);
}

#[test]
fn first_characters() {
    assert_eq!(first_chars("\u{e9}t\u{e9}.dll", 3), "\u{e9}t\u{e9}");
    assert_eq!(first_chars("x", 0), "");
}

#[test]
fn mod_names_from_drives_and_backslashes() {
    assert!(mod_name_from_zip("C:\\mods\\SAIN-3.1.zip").ends_with("SAIN-3.1"));
    assert!(mod_name_from_zip("C:SAIN.zip").ends_with("SAIN"));
    assert!(mod_name_from_zip("mods\\plain").ends_with("plain"));
}

#[test]
fn blank_texts() {
    assert!(is_blank(""));
    assert!(is_blank(" \t\r\n\u{b}\u{c}"));
    assert!(is_blank("\u{3000}\u{a0}"));
    assert!(!is_blank(" x "));
    assert!(!is_blank("\u{200b}"));
}

#[test]
fn versions_are_read_field_by_field() {
    assert_eq!(parse_ver("1.2.3"), vec![1, 2, 3]);
    assert_eq!(parse_ver("v1.2-beta+4 rc5"), vec![2, 4]);
    assert_eq!(parse_ver("3a.4b"), vec![3, 4]);
    assert_eq!(parse_ver("99999999999999999999.1"), vec![1]);
    assert_eq!(parse_ver(""), Vec::<u64>::new());
}

#[test]
fn newer_versions() {
    assert!(version_gt("1.10.0", "1.9.9"));
    assert!(!version_gt("1.9.9", "1.10.0"));
    assert!(!version_gt("1.0", "1.0.0"));
    assert!(!version_gt("1.0.0", "1.0"));
    assert!(version_gt("1.0.1", "1.0"));
    assert!(!version_gt("2.0", "2.0"));
}

#[test]
fn newer_goes_on_from_newer() {
    assert!(version_gt("3.0", "2.5"));
    assert!(version_gt("2.5", "2.4.9"));
    assert!(version_gt("3.0", "2.4.9"));
}
