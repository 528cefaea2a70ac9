use kermin_mod_manager::cancel::{cancel_clear, cancel_download, cancel_is_set, no_cancels};
use kermin_mod_manager::download::{
    check_download, download_step, no_progress, start_copying, task_error, wait_step, written_step,
    Action, Incoming, Phase, Progress, Waiting, Written, WAIT,
};
use kermin_mod_manager::json;
use kermin_mod_manager::json::Json;
use kermin_mod_manager::meta::{
    cache_of, cache_text, details_of, download_thumb, encodable, get_mod_meta, ids_text, mime_of,
    open_cache, read_details, remember, stale_ids, MetaItem, DAY,
};
use kermin_mod_manager::unzip::{open, plan_entry, plan_file, Extraction, Planned, Unpacked, LZMA};
use std::io::Write;

#[test]
fn cancelling_and_clearing() {
    let mut c = no_cancels();
    assert!(!cancel_is_set(&c, "a"));
    cancel_download(&mut c, "a".to_string());
    cancel_download(&mut c, "a".to_string());
    cancel_download(&mut c, "b".to_string());
    assert!(cancel_is_set(&c, "a"));
    assert!(cancel_is_set(&c, "b"));
    cancel_clear(&mut c, "a");
    assert!(!cancel_is_set(&c, "a"));
    assert!(cancel_is_set(&c, "b"));
    cancel_clear(&mut c, "unknown");
    assert!(cancel_is_set(&c, "b"));
}

#[test]
fn downloads_need_success() {
    assert!(check_download(200).is_ok());
    match check_download(404) {
        Err(e) => assert_eq!(e, "Download failed: HTTP 404"),
        Ok(_) => panic!("there is no such file"),
    }
}

#[test]
fn cancelling_comes_first() {
    for incoming in [Incoming::Chunk, Incoming::Failed("e".to_string()), Incoming::End] {
        match download_step(true, incoming) {
            Action::Abandon { message, clear } => {
                assert_eq!(message, "Cancelled");
                assert!(clear);
            }
            _ => panic!("the download is cancelled"),
        }
    }
    assert!(matches!(download_step(false, Incoming::Chunk), Action::Write));
    assert!(matches!(download_step(false, Incoming::End), Action::Install));
    match download_step(false, Incoming::Failed("reset".to_string())) {
        Action::Abandon { message, clear } => {
            assert_eq!(message, "Download error: reset");
            assert!(!clear);
        }
        _ => panic!("the download broke off"),
    }
}

#[test]
fn progress_is_told_now_and_then() {
    let p = no_progress();
    match written_step(p, 10, Ok(()), 1000) {
        Written::GoOn { progress, tell } => {
            assert!(tell);
            assert_eq!(progress.received, 10);
            assert_eq!(progress.told, 1000);
        }
        _ => panic!("the part was written"),
    }
    let p = Progress { received: 10, told: 1000 };
    match written_step(p, 5, Ok(()), 1150) {
        Written::GoOn { progress, tell } => {
            assert!(!tell);
            assert_eq!(progress.received, 15);
            assert_eq!(progress.told, 1000);
        }
        _ => panic!("the part was written"),
    }
    assert!(matches!(written_step(p, 5, Ok(()), 1151), Written::GoOn { tell: true, .. }));
    assert!(matches!(written_step(p, 5, Ok(()), 900), Written::GoOn { tell: true, .. }));
    match written_step(p, 5, Err("full".to_string()), 1151) {
        Written::Abandon(e) => assert_eq!(e, "Write error: full"),
        _ => panic!("the part was not written"),
    }
}

#[test]
fn finished_work_is_taken() {
    for start in [Phase::Unpacking, Phase::Copying, Phase::Abandoned] {
        for cancelled in [true, false] {
            let mut phase = start;
            assert!(matches!(wait_step(&mut phase, true, cancelled), Waiting::Take));
            assert!(phase == start);
        }
    }
    let mut phase = Phase::Unpacking;
    assert!(matches!(wait_step(&mut phase, false, false), Waiting::Sleep(WAIT)));
    assert!(phase == Phase::Unpacking);
    assert_eq!(WAIT, 150);
    assert_eq!(task_error("panic"), "Install task failed: panic");
}

#[test]
fn pictures_become_data_urls() {
    assert_eq!(
        download_thumb("https://x/A.PNG?v=1", Some(b"Man".as_slice())),
        "data:image/png;base64,TWFu"
    );
    assert_eq!(download_thumb("https://x/a.webp", Some(b"Ma".as_slice())), "data:image/webp;base64,TWE=");
    assert_eq!(download_thumb("https://x/a.gif", Some(b"M".as_slice())), "data:image/gif;base64,TQ==");
    assert_eq!(
        download_thumb("https://x/a", Some([0xfb, 0xff, 0xbf, 0x00].as_slice())),
        "data:image/jpeg;base64,+/+/AA=="
    );
    assert_eq!(download_thumb("https://x/a", Some([].as_slice())), "data:image/jpeg;base64,");
    assert_eq!(download_thumb("", Some(b"Man".as_slice())), "");
    assert_eq!(download_thumb("https://x/a", None), "");
    assert_eq!(mime_of("a.jpg"), "image/jpeg");
    assert!(encodable(1_000_000));
    assert!(!encodable(usize::MAX));
}

fn item(id: u64) -> MetaItem {
    MetaItem {
        id,
        thumbnail: "https://x/y.png".to_string(),
        teaser: "t".to_string(),
        author: "a".to_string(),
        downloads: 8,
        category: "c".to_string(),
    }
}

#[test]
fn details_are_kept_for_a_day() {
    let mut cache = open_cache(None);
    remember(&mut cache, &item(5), "data:x", 1000);
    assert!(stale_ids(&cache, &[5], 1000).is_empty());
    assert!(stale_ids(&cache, &[5], 0).is_empty());
    assert!(stale_ids(&cache, &[5], 999 + DAY).is_empty());
    assert_eq!(stale_ids(&cache, &[5], 1000 + DAY), vec![5]);
    assert_eq!(stale_ids(&cache, &[6, 5, 7], 1000), vec![6, 7]);
    assert_eq!(DAY, 24 * 60 * 60 * 1000);
}

#[test]
fn kept_details_are_shown() {
    let mut cache = open_cache(Some("{\"7\": {\"teaser\": \"seven\"}}".to_string()));
    remember(&mut cache, &item(5), "data:x", 1000);
    let shown = get_mod_meta(&cache, &[7, 6, 5]);
    assert_eq!(shown.len(), 2);
    assert_eq!(shown[0].id, 7);
    assert_eq!(shown[0].teaser, "seven");
    assert_eq!(shown[0].thumbnail, "");
    assert_eq!(shown[0].downloads, 0);
    assert_eq!(shown[1].id, 5);
    assert_eq!(shown[1].thumbnail, "data:x");
    assert_eq!(shown[1].author, "a");
    assert_eq!(shown[1].downloads, 8);
    assert_eq!(shown[1].category, "c");
}

#[test]
fn the_cache_survives_being_written() {
    let mut cache = open_cache(None);
    remember(&mut cache, &item(5), "data:x", 1000);
    let t = cache_text(cache);
    assert_eq!(
        t,
        "{\"5\":{\"author\":\"a\",\"category\":\"c\",\"downloads\":8,\"fetched_at\":1000,\
         \"teaser\":\"t\",\"thumbnail\":\"data:x\"}}"
    );
    let again = open_cache(Some(t));
    assert_eq!(get_mod_meta(&again, &[5])[0].teaser, "t");
}

#[test]
fn broken_caches_are_empty() {
    assert!(get_mod_meta(&open_cache(Some("[1]".to_string())), &[1]).is_empty());
    assert!(get_mod_meta(&open_cache(Some("{".to_string())), &[1]).is_empty());
    assert_eq!(cache_text(cache_of(Json::Bool(true))), "{}");
}

#[test]
fn details_are_read_from_answers() {
    let body = "{\"data\": [{\"id\": 3, \"thumbnail\": \"u\", \"owner\": {\"name\": \"O\"}, \
        \"category\": {\"title\": \"T\"}, \"downloads\": 2}, {\"id\": 0}, {}]}";
    let items = read_details(body);
    assert_eq!(items.len(), 1);
    assert_eq!(items[0].id, 3);
    assert_eq!(items[0].thumbnail, "u");
    assert_eq!(items[0].author, "O");
    assert_eq!(items[0].category, "T");
    assert_eq!(items[0].downloads, 2);
    assert_eq!(items[0].teaser, "");
    assert!(read_details("oops").is_empty());
    assert_eq!(details_of(&json::parse(body).unwrap()).len(), 1);
    assert_eq!(ids_text(&[3, 1, 2]), "3,1,2");
    assert_eq!(ids_text(&[]), "");
}

fn zipped(names: &[(&str, &str)]) -> Vec<u8> {
    let mut w = zip::ZipWriter::new(std::io::Cursor::new(Vec::new()));
    let plain = zip::write::SimpleFileOptions::default()
        .compression_method(zip::CompressionMethod::Deflated);
    for (name, content) in names {
        if name.ends_with('/') {
            w.add_directory(*name, plain).unwrap();
        } else {
            w.start_file(*name, plain).unwrap();
            w.write_all(content.as_bytes()).unwrap();
        }
    }
    w.finish().unwrap().into_inner()
}

#[test]
fn zips_are_unpacked_in_order() {
    let bytes = zipped(&[
        ("BepInEx/", ""),
        ("BepInEx/plugins/x.dll", "xx"),
        ("a\\b.txt", "back"),
        ("c/../d", "no"),
        ("e", "outside"),
        ("big", &"z".repeat(5000)),
    ]);
    let mut z = open(bytes).unwrap();
    assert_eq!(
        z.paths(),
        vec![
            "BepInEx/".to_string(),
            "BepInEx/plugins/x.dll".to_string(),
            "a/b.txt".to_string(),
            "c/../d".to_string(),
            "e".to_string(),
            "big".to_string(),
        ]
    );
    let got = match z.extract_zip(&[true, true, true, true, false, true]) {
        Extraction::Done(got) => got,
        _ => panic!("the archive is fine"),
    };
    assert_eq!(got.len(), 4);
    match &got[0] {
        Unpacked::Folder(p) => assert_eq!(p, "BepInEx/"),
        _ => panic!("a folder comes first"),
    }
    match &got[1] {
        Unpacked::File(p, d) => {
            assert_eq!(p, "BepInEx/plugins/x.dll");
            assert_eq!(d, b"xx");
        }
        _ => panic!("a file comes next"),
    }
    match &got[2] {
        Unpacked::File(p, d) => {
            assert_eq!(p, "a/b.txt");
            assert_eq!(d, b"back");
        }
        _ => panic!("a file comes next"),
    }
    match &got[3] {
        Unpacked::File(_, d) => assert_eq!(d.len(), 5000),
        _ => panic!("a file comes last"),
    }
}

#[test]
fn broken_zips_are_errors() {
    match open(b"PK\x03\x04 and nothing".to_vec()) {
        Err(e) => assert!(e.starts_with("Invalid zip: ")),
        Ok(_) => panic!("that is no archive"),
    }
    let mut bytes = zipped(&[("x", "content that is long enough to be damaged")]);
    bytes[40] ^= 0xff;
    let mut z = open(bytes).unwrap();
    match z.extract_zip(&[true]) {
        Extraction::Failed(e) => assert!(e.starts_with("read zip entry: ")),
        _ => panic!("the content is damaged"),
    }
    match z.extract_zip(&[false]) {
        Extraction::Done(skipped) => assert!(skipped.is_empty()),
        _ => panic!("the entry is skipped"),
    }
}

#[test]
fn lzma_is_not_read() {
    let mut bytes = zipped(&[("x", "content")]);
    let central = bytes.windows(4).position(|w| w == b"PK\x01\x02").unwrap();
    bytes[8] = LZMA as u8;
    bytes[central + 10] = LZMA as u8;
    let mut z = open(bytes).unwrap();
    assert_eq!(z.paths(), vec!["x".to_string()]);
    assert!(matches!(z.extract_zip(&[true]), Extraction::Lzma));
    assert!(matches!(z.extract_zip(&[false]), Extraction::Done(_)));
}

#[test]
fn abandoned_installs_copy_nothing() {
    let mut phase = Phase::Unpacking;
    match wait_step(&mut phase, false, true) {
        Waiting::Abandon(e) => assert_eq!(e, "Cancelled"),
        _ => panic!("the installation is cancelled"),
    }
    assert!(phase == Phase::Abandoned);
    assert_eq!(start_copying(&mut phase), Err("Cancelled".to_string()));
    assert!(phase == Phase::Abandoned);
    assert!(matches!(wait_step(&mut phase, false, false), Waiting::Abandon(_)));
}

#[test]
fn installs_that_copy_are_waited_for() {
    let mut phase = Phase::Unpacking;
    assert_eq!(start_copying(&mut phase), Ok(()));
    assert!(phase == Phase::Copying);
    assert!(matches!(wait_step(&mut phase, false, true), Waiting::Sleep(150)));
    assert!(phase == Phase::Copying);
    assert!(matches!(wait_step(&mut phase, true, true), Waiting::Take));
}

#[test]
fn entries_are_planned_by_their_names() {
    let named = |name: &str, is_dir: bool| Ok((name.to_string(), is_dir));
    assert!(matches!(plan_entry(named("a\\b", false), true), Ok(Planned::File(p)) if p == "a/b"));
    assert!(matches!(plan_entry(named("a/", true), true), Ok(Planned::Folder(p)) if p == "a/"));
    assert!(matches!(plan_entry(named("a", false), false), Ok(Planned::Skip)));
    assert!(matches!(plan_entry(named("a/..", false), true), Ok(Planned::Skip)));
    match plan_entry(Err("locked".to_string()), true) {
        Err(e) => assert_eq!(e, "zip entry: locked"),
        Ok(_) => panic!("the entry is locked"),
    }
    match plan_file("p".to_string(), Err("crc".to_string())) {
        Err(e) => assert_eq!(e, "read zip entry: crc"),
        Ok(_) => panic!("the entry is damaged"),
    }
    match plan_file("p".to_string(), Ok(vec![1])) {
        Ok(Unpacked::File(p, d)) => {
            assert_eq!(p, "p");
            assert_eq!(d, vec![1]);
        }
        _ => panic!("the entry is fine"),
    }
}

#[test]
fn json_is_read_and_written() {
    let j = json::parse("{\"b\": [1, -2, 1.5, null, true], \"a\": \"x\", \"b\": \"last\"}").unwrap();
    assert_eq!(j.str_member("a"), Some("x".to_string()));
    assert_eq!(j.str_member("b"), Some("last".to_string()));
    assert_eq!(json::to_compact(&j), "{\"a\":\"x\",\"b\":\"last\"}");
    let j = json::parse("[1, -2, 1.5, null, true, 18446744073709551615]").unwrap();
    let items = j.as_array().unwrap();
    assert_eq!(items[0].as_u64(), Some(1));
    assert_eq!(items[1].as_u64(), None);
    assert_eq!(items[2].as_u64(), None);
    assert_eq!(items[4].as_bool(), Some(true));
    assert_eq!(items[5].as_u64(), Some(u64::MAX));
    assert_eq!(json::to_compact(&j), "[1,-2,1.5,null,true,18446744073709551615]");
    assert_eq!(json::to_pretty(&json::array_of(vec![json::string("x")])), "[\n  \"x\"\n]");
}

#[test]
fn deep_json_is_not_read() {
    let deep = |n: usize| format!("{}{}", "[".repeat(n), "]".repeat(n));
    assert!(json::parse(&deep(127)).is_ok());
    match json::parse(&deep(128)) {
        Err(e) => assert!(e.starts_with("recursion limit exceeded")),
        Ok(_) => panic!("that is too deep"),
    }
}

#[test]
fn the_first_of_two_members_counts() {
    let j = json::object_with(vec![
        ("k".to_string(), Json::Unsigned(1)),
        ("k".to_string(), Json::Unsigned(2)),
    ]);
    assert_eq!(j.u64_member("k"), Some(1));
    assert_eq!(json::to_compact(&j), "{\"k\":1}");
}
