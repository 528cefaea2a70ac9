use kermin_mod_manager::dependencies::{
    collect_deps, dependency_query, missing_mods, resolve_dependencies,
};
use kermin_mod_manager::forge::{
    check_list_url, download_of, fetch_step, latest_full, latest_version, linked_mods, lookup_mod,
    parse_list_mods, prettify, release_of, resolve_modlist, versions_url, Download, Release, Reply,
    ResolvedMod, Step, USER_AGENT,
};
use kermin_mod_manager::json;
use kermin_mod_manager::manifest::Manifest;
use kermin_mod_manager::search::{found_mods, parse_search_mod, search_mods, worth_searching};
use kermin_mod_manager::updates::{
    newest_installs, shown_name, update_for, InstalledMod,
};
use std::collections::HashSet;

fn error<T>(r: Result<T, String>) -> String {
    match r {
        Ok(_) => panic!("an error was due"),
        Err(e) => e,
    }
}

fn pair(id: &str, slug: &str) -> (String, String) {
    (id.to_string(), slug.to_string())
}

#[test]
fn lists_link_to_mods() {
    let html = "<a href=\"https://forge.sp-tarkov.com/mod/791/sain\">\
        forge.sp-tarkov.com/mod/12/big_Brain-2/versions \
        forge.sp-tarkov.com/mod/791/sain-again \
        forge.sp-tarkov.com/mod/0/none \
        forge.sp-tarkov.com/mod//x forge.sp-tarkov.com/mod/5/ forgeXsp-tarkov.com/mod/7/y";
    assert_eq!(
        parse_list_mods(html),
        vec![(791, "sain".to_string()), (12, "big_Brain-2".to_string())]
    );
}

#[test]
fn links_on_pages_that_are_not_ascii() {
    let html = "\u{fc}ber forge.sp-tarkov.com/mod/42/caf\u{e9} \u{1f600} \
        forge.sp-tarkov.com/mod/\u{664}\u{662}/arabic";
    assert_eq!(parse_list_mods(html), vec![(42, "caf".to_string())]);
}

#[test]
fn links_without_usable_ids_lead_nowhere() {
    assert_eq!(
        linked_mods(&[
            pair("18446744073709551615", "most"),
            pair("18446744073709551616", "too-many"),
            pair("007", "bond"),
            pair("7", "again"),
            pair("", "none"),
        ]),
        vec![(u64::MAX, "most".to_string()), (7, "bond".to_string())]
    );
}

#[test]
fn slugs_become_titles() {
    assert_eq!(prettify("project-fika"), "Project Fika");
    assert_eq!(prettify("-a--b-"), "A B");
    assert_eq!(prettify("x2-3d"), "X2 3d");
    assert_eq!(prettify("\u{df}-\u{e9}t\u{e9}"), "SS \u{c9}t\u{e9}");
    assert_eq!(prettify(""), "");
}

#[test]
fn failed_requests_are_tried_four_times() {
    for attempt in 1..4u64 {
        match fetch_step(attempt, Reply::Failed("down".to_string())) {
            Step::Retry(ms) => assert_eq!(ms, 400 * attempt),
            _ => panic!("it is too early to give up"),
        }
    }
    match fetch_step(4, Reply::Failed("down".to_string())) {
        Step::GiveUp(e) => assert_eq!(e, "down"),
        _ => panic!("it is time to give up"),
    }
}

#[test]
fn busy_servers_are_asked_six_times() {
    for status in [429u16, 500, 599] {
        match fetch_step(3, Reply::Status(status)) {
            Step::Retry(ms) => assert_eq!(ms, 4500),
            _ => panic!("it is too early to give up"),
        }
        match fetch_step(6, Reply::Status(status)) {
            Step::GiveUp(e) => assert_eq!(e, format!("rate limited (HTTP {})", status)),
            _ => panic!("it is time to give up"),
        }
    }
    assert!(matches!(fetch_step(5, Reply::Status(503)), Step::Retry(12500)));
}

#[test]
fn answers_are_final() {
    assert!(matches!(fetch_step(1, Reply::Status(200)), Step::Read));
    assert!(matches!(fetch_step(9, Reply::Status(299)), Step::Read));
    match fetch_step(1, Reply::Status(404)) {
        Step::GiveUp(e) => assert_eq!(e, "HTTP 404"),
        _ => panic!("a refusal is final"),
    }
    assert!(matches!(fetch_step(1, Reply::Status(304)), Step::GiveUp(_)));
}

#[test]
fn versions_are_asked_for_by_id() {
    assert_eq!(
        versions_url(791),
        "https://forge.sp-tarkov.com/api/v0/mod/791/versions?sort=-created_at&per_page=1"
    );
    assert_eq!(USER_AGENT, "spt-mod-installer/0.3 (SPT mod manager)");
}

const VERSIONS: &str = "{\"data\": [{\"version\": \"3.1\", \"link\": \"https://x/y\", \
    \"content_length\": 77, \"spt_version_constraint\": \"~4.0\", \"description\": \"News\"}, \
    {\"version\": \"3.0\"}]}";

#[test]
fn the_first_version_is_the_latest() {
    let d = latest_version(VERSIONS).unwrap().unwrap();
    assert_eq!(d.version, "3.1");
    assert_eq!(d.link, "https://x/y");
    assert_eq!(d.size, Some(77));
    assert_eq!(d.spt_constraint, Some("~4.0".to_string()));
    let r = latest_full(VERSIONS).unwrap().unwrap();
    assert_eq!(r.version, "3.1");
    assert_eq!(r.changelog, Some("News".to_string()));
}

#[test]
fn versions_may_be_missing() {
    assert!(latest_version("{\"data\": []}").unwrap().is_none());
    assert!(latest_version("{}").unwrap().is_none());
    assert!(latest_version("{\"data\": [{\"version\": \"1\"}]}").unwrap().is_none());
    let d = latest_version("{\"data\": [{\"link\": \"l\"}]}").unwrap().unwrap();
    assert_eq!(d.version, "");
    assert!(latest_full("{\"data\": [{\"link\": \"l\"}]}").unwrap().is_none());
    let r = latest_full("{\"data\": [{\"version\": \"1\"}]}").unwrap().unwrap();
    assert_eq!(r.link, "");
    assert_eq!(r.size, None);
    assert!(latest_version("<html>").is_err());
    assert_eq!(
        error(latest_full("")),
        "EOF while parsing a value at line 1 column 0"
    );
}

#[test]
fn versions_of_parsed_answers() {
    let j = json::parse(VERSIONS).unwrap();
    assert_eq!(download_of(&j).unwrap().link, "https://x/y");
    assert_eq!(release_of(&j).unwrap().version, "3.1");
}

#[test]
fn looked_up_mods_have_a_link_or_a_note() {
    let d = Download {
        version: "1".to_string(),
        link: "l".to_string(),
        size: Some(3),
        spt_constraint: None,
    };
    let m = lookup_mod(5, "a-b", Ok(Some(d)));
    assert_eq!(m.id, 5);
    assert_eq!(m.name, "A B");
    assert_eq!(m.slug, "a-b");
    assert_eq!(m.version, Some("1".to_string()));
    assert_eq!(m.link, Some("l".to_string()));
    assert_eq!(m.size, Some(3));
    assert_eq!(m.note, None);
    let m = lookup_mod(5, "a-b", Ok(None));
    assert_eq!(m.link, None);
    assert_eq!(m.note, Some("No downloadable version found".to_string()));
    let m = lookup_mod(5, "a-b", Err("HTTP 500".to_string()));
    assert_eq!(m.note, Some("Lookup failed: HTTP 500".to_string()));
}

#[test]
fn list_addresses_are_checked() {
    assert!(check_list_url("https://forge.sp-tarkov.com/list/7/x").is_ok());
    assert_eq!(
        error(check_list_url("https://forge.sp-tarkov.com/mod/7")),
        "That doesn't look like a Forge mod-list URL (forge.sp-tarkov.com/list/...)."
    );
}

#[test]
fn empty_lists_are_an_error() {
    assert_eq!(
        error(resolve_modlist("<html></html>")),
        "No mods found on that page. Make sure the list is public and the URL is correct."
    );
    assert_eq!(
        resolve_modlist("forge.sp-tarkov.com/mod/3/c").unwrap(),
        vec![(3, "c".to_string())]
    );
}

const TREE: &str = "{\"data\": [\
    {\"id\": 1, \"name\": \"One\", \"slug\": \"one\", \
     \"latest_compatible_version\": {\"version\": \"1.0\", \"link\": \"l1\", \"content_length\": 9}, \
     \"dependencies\": [\
        {\"id\": 2, \"name\": \"\", \"slug\": \"two-mod\", \
         \"latest_compatible_version\": {\"link\": \"l2\"}, \
         \"dependencies\": [{\"id\": 1}, {\"id\": 4, \"slug\": \"four\"}]}]}, \
    {\"id\": 3, \"latest_compatible_version\": {\"link\": \"l3\"}}, \
    {\"id\": 2, \"name\": \"Again\"}, \
    {\"name\": \"without id\", \"dependencies\": \
        [{\"id\": 5, \"latest_compatible_version\": {\"link\": \"l5\"}}]}]}";

#[test]
fn dependencies_are_found_at_every_depth() {
    let have: HashSet<u64> = [3].into_iter().collect();
    let found = resolve_dependencies(TREE, &have).unwrap();
    let ids: Vec<u64> = found.iter().map(|m| m.id).collect();
    assert_eq!(ids, vec![1, 2, 5]);
    assert_eq!(found[0].name, "One");
    assert_eq!(found[0].version, Some("1.0".to_string()));
    assert_eq!(found[0].size, Some(9));
    assert_eq!(found[1].name, "Two Mod");
    assert_eq!(found[1].link, Some("l2".to_string()));
    assert_eq!(found[2].slug, "");
    assert!(resolve_dependencies("oops", &have).is_err());
    assert!(resolve_dependencies("{}", &have).unwrap().is_empty());
}

#[test]
fn dependencies_come_once() {
    let j = json::parse(TREE).unwrap();
    let have: HashSet<u64> = HashSet::new();
    let mut seen: HashSet<u64> = HashSet::new();
    let mut out: Vec<ResolvedMod> = Vec::new();
    collect_deps(j.get("data").unwrap(), &have, &mut seen, &mut out);
    let ids: Vec<u64> = out.iter().map(|m| m.id).collect();
    assert_eq!(ids, vec![1, 2, 4, 3, 5]);
    assert_eq!(seen.len(), 5);
    collect_deps(j.get("data").unwrap(), &have, &mut seen, &mut out);
    assert_eq!(out.len(), 5);
    assert_eq!(missing_mods(&j, &have).len(), 4);
}

fn install(id: Option<u64>, version: Option<&str>, at: u128, files: &[&str]) -> Manifest {
    Manifest {
        path: "p".to_string(),
        files: files.iter().map(|s| s.to_string()).collect(),
        forge_id: id,
        forge_version: version.map(|s| s.to_string()),
        installed_at: at,
    }
}

#[test]
fn what_is_there_is_not_asked_for() {
    let ms = vec![install(Some(7), None, 0, &[]), install(None, None, 0, &[])];
    let q = dependency_query(&ms, &[(1, "1.0".to_string()), (2, "0.5".to_string())]).unwrap();
    assert_eq!(q.mods, "1:1.0,2:0.5");
    let want: HashSet<u64> = [7, 1, 2].into_iter().collect();
    assert_eq!(q.have, want);
    assert!(dependency_query(&ms, &[]).is_none());
}

#[test]
fn the_newest_install_counts() {
    let ms = vec![
        install(Some(1), Some("1.0"), 10, &["SPT/user/mods/A/x"]),
        install(Some(2), Some("5.0"), 3, &[]),
        install(Some(1), Some("1.1"), 10, &["SPT/user/mods/B/x"]),
        install(Some(1), Some("0.9"), 4, &[]),
        install(Some(3), None, 99, &[]),
        install(None, Some("1"), 99, &[]),
    ];
    let mut found = newest_installs(&ms);
    found.sort_by(|a, b| a.forge_id.cmp(&b.forge_id));
    assert_eq!(found.len(), 2);
    assert_eq!(found[0].forge_id, 1);
    assert_eq!(found[0].version, "1.1");
    assert_eq!(found[0].hint, "SPT/user/mods/B/x");
    assert_eq!(found[1].version, "5.0");
    assert_eq!(found[1].hint, "");
}

fn installed(version: &str) -> InstalledMod {
    InstalledMod {
        forge_id: 4,
        installed_at: 0,
        version: version.to_string(),
        hint: "BepInEx/plugins/SAIN/x.dll".to_string(),
    }
}

fn release(version: &str) -> Result<Option<Release>, String> {
    Ok(Some(Release {
        version: version.to_string(),
        link: "l".to_string(),
        size: Some(1),
        changelog: Some("c".to_string()),
    }))
}

#[test]
fn updates_go_forward_only() {
    let u = update_for(installed("1.9"), release("1.10")).unwrap();
    assert_eq!(u.forge_id, 4);
    assert_eq!(u.name, "SAIN");
    assert_eq!(u.installed_version, "1.9");
    assert_eq!(u.latest_version, "1.10");
    assert_eq!(u.link, "l");
    assert_eq!(u.size, Some(1));
    assert_eq!(u.changelog, Some("c".to_string()));
    assert!(update_for(installed("1.10"), release("1.10")).is_none());
    assert!(update_for(installed("1.10"), release("1.9")).is_none());
    assert!(update_for(installed("1.0"), Ok(None)).is_none());
    assert!(update_for(installed("1.0"), Err("down".to_string())).is_none());
}

#[test]
fn names_from_install_paths() {
    assert_eq!(shown_name("SPT/user/mods/My Mod/src/a.js"), "My Mod");
    assert_eq!(shown_name("BepInEx/plugins/x.dll"), "x.dll");
    assert_eq!(shown_name("Tool.exe"), "Tool.exe");
    assert_eq!(shown_name(""), "");
}

const FOUND: &str = "{\"data\": [\
    {\"id\": 9, \"name\": \"\", \"slug\": \"big-mod\", \"teaser\": \"t\", \"thumbnail\": \"u\", \
     \"downloads\": 12, \"fika_compatibility\": true, \"owner\": {\"name\": \"Me\"}, \
     \"category\": {\"title\": \"Tools\"}, \"featured\": true, \
     \"versions\": [{\"version\": \"2\", \"link\": \"l\", \"content_length\": 5, \
     \"spt_version_constraint\": \"4\"}]}, \
    {\"name\": \"without id\"}, {\"id\": 10, \"name\": \"N\", \"fika_compatibility\": \"yes\"}]}";

#[test]
fn searches_find_mods() {
    let found = search_mods(FOUND).unwrap();
    assert_eq!(found.len(), 2);
    let m = &found[0];
    assert_eq!(m.id, 9);
    assert_eq!(m.name, "Big Mod");
    assert_eq!(m.slug, "big-mod");
    assert_eq!(m.teaser, "t");
    assert_eq!(m.thumbnail, "u");
    assert_eq!(m.downloads, 12);
    assert!(m.fika);
    assert_eq!(m.author, "Me");
    assert_eq!(m.category, "Tools");
    assert!(m.featured);
    assert_eq!(m.version, Some("2".to_string()));
    assert_eq!(m.link, Some("l".to_string()));
    assert_eq!(m.size, Some(5));
    assert_eq!(m.spt_constraint, Some("4".to_string()));
    assert_eq!(found[1].name, "N");
    assert!(!found[1].fika);
    assert_eq!(found[1].version, None);
    assert!(search_mods("oops").is_err());
    let j = json::parse(FOUND).unwrap();
    assert_eq!(found_mods(&j).len(), 2);
    assert!(parse_search_mod(&j).is_none());
}

#[test]
fn blank_queries_are_not_searched() {
    assert!(!worth_searching("  "));
    assert!(worth_searching(" fika "));
}
