//! Removing a mod: what is deleted for it, what is refused, and which folders are tidied up
//! afterwards.
use crate::inventory;
use crate::manifest;
use crate::manifest::{Manifest, ManifestView};
use crate::names;
use crate::paths;
use crate::paths::Found;
use crate::resolver::MappedView;
use crate::text;
use crate::text::Separator;
use crate::toggle;
use vstd::prelude::*;

verus! {

/// The last component of the path.
pub open spec fn last_component(rel: Seq<char>) -> Seq<char> {
    text::split(text::trim_slashes(rel), Separator::Slash).last()
}

/// The name without `.dll`, in any case, at its end.
pub open spec fn without_dll(name: Seq<char>) -> Seq<char> {
    if ".dll"@.is_suffix_of(text::ascii_lowercase(name)) {
        name.take(name.len() - 4)
    } else {
        name
    }
}

fn strip_dll(name: &str) -> (r: String)
    ensures
        r@ == without_dll(name@),
{
    let x = text::chars_of(name);
    let n: usize = x.len();
    let ghost low = text::ascii_lowercase(name@);
    proof {
        reveal_strlit(".dll");
    }
    if n < 4 {
        return text::owned(name);
    }
    let dll = text::lower_char(x[n - 4]) == '.' && text::lower_char(x[n - 3]) == 'd'
        && text::lower_char(x[n - 2]) == 'l' && text::lower_char(x[n - 1]) == 'l';
    proof {
        let end = low.subrange(n - 4, n as int);
        assert(end[0] == low[n - 4] && end[1] == low[n - 3] && end[2] == low[n - 2] && end[3]
            == low[n - 1]);
        if dll {
            assert(end =~= ".dll"@);
        }
        assert(dll == ".dll"@.is_suffix_of(low));
    }
    if dll {
        text::first_chars(name, n - 4)
    } else {
        text::owned(name)
    }
}

/// The path is one of SPT's own client files.
pub open spec fn is_core_path(rel: Seq<char>) -> bool {
    ("BepInEx/plugins/"@.is_prefix_of(rel) || "BepInEx/patchers/"@.is_prefix_of(rel))
        && inventory::core_client(without_dll(last_component(rel)))
}

fn is_core(rel_path: &str) -> (r: bool)
    ensures
        r == is_core_path(rel_path@),
{
    let trimmed = text::trim_end_slashes(rel_path);
    let parts = text::split_text(trimmed.as_str(), Separator::Slash);
    proof {
        text::lemma_split_not_empty(trimmed@, Separator::Slash);
        assert(text::texts(parts@).len() == parts@.len());
    }
    let last = &parts[parts.len() - 1];
    assert(text::texts(parts@).last() == last@);
    let stem = strip_dll(last.as_str());
    (text::starts_with(rel_path, "BepInEx/plugins/") || text::starts_with(
        rel_path,
        "BepInEx/patchers/",
    )) && inventory::is_spt_core_client(stem.as_str())
}

/// The reason for which removing the path is refused before anything on disk is looked at.
pub open spec fn refusal(root_is_dir: bool, rel: Seq<char>) -> Option<Seq<char>> {
    if !root_is_dir {
        Some("SPT root folder does not exist."@)
    } else if !paths::names_mod(rel) {
        Some("Invalid mod path."@)
    } else if is_core_path(rel) {
        Some("That's part of SPT itself and can't be removed here."@)
    } else {
        None
    }
}

/// Whether removing the path may go ahead, as far as the path itself tells.
pub fn check_uninstall(root_is_dir: bool, rel_path: &str) -> (r: Result<(), String>)
    ensures
        match r {
            Ok(_) => refusal(root_is_dir, rel_path@) is None,
            Err(e) => refusal(root_is_dir, rel_path@) == Some(e@),
        },
{
    match paths::check_root(root_is_dir) {
        Ok(_) => {},
        Err(e) => return Err(e),
    }
    match paths::check_mod_path(rel_path) {
        Ok(_) => {},
        Err(e) => return Err(e),
    }
    if is_core(rel_path) {
        return Err(text::owned("That's part of SPT itself and can't be removed here."));
    }
    Ok(())
}

/// All files that the given manifests record, one manifest after the other.
pub open spec fn all_files(ms: Seq<ManifestView>, own: Seq<int>) -> Seq<Seq<char>>
    decreases own.len(),
{
    if own.len() == 0 {
        Seq::empty()
    } else {
        all_files(ms, own.drop_last()) + ms[own.last()].files
    }
}

/// The files to delete for the given manifests: every recorded file, once.
pub open spec fn recorded_files(ms: Seq<ManifestView>, own: Seq<int>) -> Seq<Seq<char>> {
    text::distinct(all_files(ms, own))
}

/// Some file is in the folder whose path, with a slash at its end, is `folder`.
pub open spec fn some_in(files: Seq<Seq<char>>, folder: Seq<char>) -> bool {
    exists|i: int| 0 <= i < files.len() && folder.is_prefix_of(#[trigger] files[i])
}

/// The manifest has files in the client folder and in the server folder.
pub open spec fn spans_both(m: ManifestView) -> bool {
    some_in(m.files, "BepInEx/"@) && some_in(m.files, "SPT/"@)
}

/// One of the given manifests has files in both folders.
pub open spec fn some_spans_both(ms: Seq<ManifestView>, own: Seq<int>) -> bool {
    exists|k: int| 0 <= k < own.len() && spans_both(#[trigger] ms[own[k]])
}

fn has_file_in(files: &[String], folder: &str) -> (r: bool)
    ensures
        r == some_in(text::texts(files@), folder@),
{
    let ghost fs = text::texts(files@);
    for i in 0..files.len()
        invariant
            fs == text::texts(files@),
            forall|j: int| 0 <= j < i ==> !folder@.is_prefix_of(#[trigger] fs[j]),
    {
        if text::starts_with(files[i].as_str(), folder) {
            assert(folder@.is_prefix_of(fs[i as int]));
            return true;
        }
        assert(!folder@.is_prefix_of(fs[i as int]));
    }
    false
}

fn gather_files(files: &mut Vec<String>, more: &[String], Ghost(before): Ghost<Seq<Seq<char>>>)
    requires
        text::texts(old(files)@) == text::distinct(before),
    ensures
        text::texts(final(files)@) == text::distinct(before + text::texts(more@)),
{
    let ghost ts = text::texts(more@);
    assert(before + ts.take(0) =~= before);
    for i in 0..more.len()
        invariant
            ts == text::texts(more@),
            text::texts(files@) == text::distinct(before + ts.take(i as int)),
    {
        text::push_new(files, more[i].as_str());
        assert((before + ts.take(i + 1)).drop_last() =~= before + ts.take(i as int));
    }
    assert(ts.take(ts.len() as int) =~= ts);
}

/// The files that the given manifests record, each once, and whether one of the manifests has
/// files in the client folder and in the server folder.
fn gather_recorded(manifests: &[Manifest], own: &[usize]) -> (r: (Vec<String>, bool))
    requires
        forall|k: int| 0 <= k < own@.len() ==> 0 <= #[trigger] own@[k] < manifests@.len(),
    ensures
        ({
            let ms = manifest::manifest_views(manifests@);
            let ix = manifest::indices(own@);
            text::texts(r.0@) == recorded_files(ms, ix) && r.1 == some_spans_both(ms, ix)
        }),
{
    let ghost ms = manifest::manifest_views(manifests@);
    let ghost ix = manifest::indices(own@);
    let mut files: Vec<String> = Vec::new();
    let mut spanned_both = false;
    assert(text::texts(files@) =~= text::distinct(all_files(ms, ix.take(0))));
    for k in 0..own.len()
        invariant
            ms == manifest::manifest_views(manifests@),
            ix == manifest::indices(own@),
            forall|j: int| 0 <= j < own@.len() ==> 0 <= #[trigger] own@[j] < manifests@.len(),
            text::texts(files@) == text::distinct(all_files(ms, ix.take(k as int))),
            spanned_both == some_spans_both(ms, ix.take(k as int)),
    {
        let ghost next = ix.take(k + 1);
        assert(next.drop_last() =~= ix.take(k as int));
        assert(0 <= own@[k as int] < manifests@.len());
        let m = &manifests[own[k]];
        assert(ms[ix[k as int]] == m@);
        let both = has_file_in(m.files.as_slice(), "BepInEx/") && has_file_in(
            m.files.as_slice(),
            "SPT/",
        );
        proof {
            assert(next[k as int] == ix[k as int]);
            if both {
                assert(spans_both(ms[next[k as int]]));
            }
            assert forall|j: int| 0 <= j < k implies next[j] == #[trigger] ix.take(
                k as int,
            )[j] by {}
            if spanned_both {
                let j = choose|j: int|
                    0 <= j < k && spans_both(#[trigger] ms[ix.take(k as int)[j]]);
                assert(spans_both(ms[next[j]]));
            }
            if some_spans_both(ms, next) && !both {
                let j = choose|j: int| 0 <= j < next.len() && spans_both(#[trigger] ms[next[j]]);
                assert(spans_both(ms[ix.take(k as int)[j]]));
            }
        }
        spanned_both = spanned_both || both;
        gather_files(&mut files, m.files.as_slice(), Ghost(all_files(ms, ix.take(k as int))));
    }
    assert(ix.take(ix.len() as int) =~= ix);
    (files, spanned_both)
}

/// What is deleted from the store of disabled mods for a recorded file: its container, which is
/// what disabling moved there. Where the container is a folder of the game itself, which holds
/// other mods too, it is the file alone.
pub open spec fn unit(file: Seq<char>) -> Seq<char> {
    if is_guard(toggle::container(file)) {
        file
    } else {
        toggle::container(file)
    }
}

fn unit_of(file: &str) -> (r: String)
    ensures
        r@ == unit(file@),
{
    let c = toggle::mod_container(file);
    if guarded(c.as_str()) {
        text::owned(file)
    } else {
        c
    }
}

/// The path is that of a whole mod, as disabling moves it: its own container, and no folder of the
/// game itself.
pub open spec fn is_whole(rel: Seq<char>) -> bool {
    toggle::container(rel) == rel && !is_guard(rel)
}

/// What is deleted whole from the store for a disabled mod: what is at the path itself and, where
/// the path is that of a whole mod, the parts that its manifests record.
pub open spec fn disabled_paths(ms: Seq<ManifestView>, rel: Seq<char>) -> Seq<Seq<char>> {
    if is_whole(rel) {
        text::distinct(
            seq![rel] + recorded_files(ms, manifest::owners(ms, rel)).map_values(
                |f: Seq<char>| unit(f),
            ),
        )
    } else {
        seq![rel]
    }
}

fn whole_paths(rel_path: &str, files: &[String]) -> (r: Vec<String>)
    ensures
        text::texts(r@) == if is_whole(rel_path@) {
            text::distinct(
                seq![rel_path@] + text::texts(files@).map_values(|f: Seq<char>| unit(f)),
            )
        } else {
            seq![rel_path@]
        },
{
    let ghost us = seq![rel_path@] + text::texts(files@).map_values(|f: Seq<char>| unit(f));
    let mut r: Vec<String> = Vec::new();
    r.push(text::owned(rel_path));
    assert(text::texts(r@) =~= seq![rel_path@]);
    let c = toggle::mod_container(rel_path);
    if !text::same(c.as_str(), rel_path) || guarded(rel_path) {
        return r;
    }
    proof {
        assert(us.take(1).drop_last() =~= Seq::empty());
        assert(text::distinct(us.take(1).drop_last()) =~= Seq::empty());
        assert(text::texts(r@) =~= text::distinct(us.take(1)));
    }
    for i in 0..files.len()
        invariant
            us == seq![rel_path@] + text::texts(files@).map_values(|f: Seq<char>| unit(f)),
            text::texts(r@) == text::distinct(us.take(i + 1)),
    {
        assert(us.take(i + 2).drop_last() =~= us.take(i + 1));
        let u = unit_of(files[i].as_str());
        text::push_new(&mut r, u.as_str());
    }
    assert(us.take(us.len() as int) =~= us);
    r
}

/// Where the paths lie in the store of disabled mods.
pub open spec fn all_in_store(v: Seq<Seq<char>>) -> Seq<Seq<char>> {
    v.map_values(|p: Seq<char>| paths::in_store(p))
}

fn stored_paths(v: &[String]) -> (r: Vec<String>)
    ensures
        text::texts(r@) == all_in_store(text::texts(v@)),
{
    let ghost want = all_in_store(text::texts(v@));
    let mut r: Vec<String> = Vec::new();
    for i in 0..v.len()
        invariant
            want == all_in_store(text::texts(v@)),
            text::texts(r@) =~= want.take(i as int),
    {
        let ghost was = text::texts(r@);
        r.push(paths::stored_path(v[i].as_str()));
        assert(text::texts(r@) =~= was.push(want[i as int]));
    }
    assert(text::texts(r@) =~= want);
    r
}

/// What is to be deleted for a mod.
pub enum UninstallPlan {
    /// The mod is disabled: all that is at `stored`, which is where `paths` lie in the store of
    /// disabled mods; the recorded files, as far as they are still in the game folder or, at
    /// `stored_files`, in the store; and the manifests with these indices.
    Disabled {
        paths: Vec<String>,
        stored: Vec<String>,
        files: Vec<String>,
        stored_files: Vec<String>,
        manifests: Vec<usize>,
    },
    /// The mod was installed from manifests: the files they record, in the game folder and, at
    /// `stored`, in the store of disabled mods, and the manifests.
    Recorded {
        files: Vec<String>,
        stored: Vec<String>,
        manifests: Vec<usize>,
        spanned_both: bool,
    },
    /// The mod was put there by other means: what is at its path.
    External,
}

/// What removing the path comes to, once the path itself is not refused.
pub open spec fn plans(
    r: Result<UninstallPlan, String>,
    rel: Seq<char>,
    ms: Seq<ManifestView>,
    live: Found,
    live_inside: bool,
    stored: Found,
    stored_inside: bool,
) -> bool {
    let own = manifest::owners(ms, rel);
    if live == Found::Nothing && stored != Found::Nothing {
        if stored_inside {
            r matches Ok(
                UninstallPlan::Disabled { paths, stored: places, files, stored_files, manifests },
            ) && text::texts(paths@) == disabled_paths(ms, rel) && text::texts(places@)
                == all_in_store(disabled_paths(ms, rel)) && text::texts(files@) == recorded_files(
                ms,
                own,
            ) && text::texts(stored_files@) == all_in_store(recorded_files(ms, own))
                && manifest::indices(manifests@) == own
        } else {
            r matches Err(e) && e@ == "Refusing to delete outside the SPT folder."@
        }
    } else if own.len() > 0 {
        r matches Ok(UninstallPlan::Recorded { files, stored: places, manifests, spanned_both })
            && manifest::indices(manifests@) == own && text::texts(files@) == recorded_files(
            ms,
            own,
        ) && text::texts(places@) == all_in_store(recorded_files(ms, own)) && spanned_both
            == some_spans_both(ms, own)
    } else if !live_inside {
        r matches Err(e) && e@ == "Refusing to delete outside the SPT folder."@
    } else if live == Found::File || live == Found::Folder {
        r matches Ok(UninstallPlan::External)
    } else {
        r matches Err(e) && e@ == "That mod no longer exists on disk."@
    }
}

/// What removing the path comes to: a refusal, or what is planned.
pub open spec fn uninstalls(
    r: Result<UninstallPlan, String>,
    root_is_dir: bool,
    rel: Seq<char>,
    ms: Seq<ManifestView>,
    live: Found,
    live_inside: bool,
    stored: Found,
    stored_inside: bool,
) -> bool {
    match refusal(root_is_dir, rel) {
        Some(why) => r matches Err(e) && e@ == why,
        None => plans(r, rel, ms, live, live_inside, stored, stored_inside),
    }
}

/// What is to be deleted for the mod at `rel_path`. `live` tells what is at the path in the game
/// folder and `stored` what is at it in the store of disabled mods; the flags tell whether these
/// places, joined to the game root, stay in the game folder.
pub fn uninstall_mod(
    root_is_dir: bool,
    rel_path: &str,
    manifests: &[Manifest],
    live: Found,
    live_inside: bool,
    stored: Found,
    stored_inside: bool,
) -> (r: Result<UninstallPlan, String>)
    ensures
        uninstalls(
            r,
            root_is_dir,
            rel_path@,
            manifest::manifest_views(manifests@),
            live,
            live_inside,
            stored,
            stored_inside,
        ),
{
    match check_uninstall(root_is_dir, rel_path) {
        Ok(_) => {},
        Err(e) => return Err(e),
    }
    let ghost ms = manifest::manifest_views(manifests@);
    let own = manifest::owning_manifests(manifests, rel_path);
    proof {
        manifest::lemma_owners(ms, rel_path@);
        let ix = manifest::indices(own@);
        assert(ix.len() == own@.len());
        assert forall|k: int| 0 <= k < own@.len() implies 0 <= #[trigger] own@[k]
            < manifests@.len() by {
            assert(ix[k] == own@[k]);
        }
    }
    if live == Found::Nothing && stored != Found::Nothing {
        if !stored_inside {
            return Err(text::owned("Refusing to delete outside the SPT folder."));
        }
        let (files, _) = gather_recorded(manifests, own.as_slice());
        let paths = whole_paths(rel_path, files.as_slice());
        let places = stored_paths(paths.as_slice());
        let stored_files = stored_paths(files.as_slice());
        return Ok(
            UninstallPlan::Disabled { paths, stored: places, files, stored_files, manifests: own },
        );
    }
    if own.len() > 0 {
        let (files, spanned_both) = gather_recorded(manifests, own.as_slice());
        let places = stored_paths(files.as_slice());
        return Ok(
            UninstallPlan::Recorded { files, stored: places, manifests: own, spanned_both },
        );
    }
    if !live_inside {
        return Err(text::owned("Refusing to delete outside the SPT folder."));
    }
    if live == Found::File || live == Found::Folder {
        Ok(UninstallPlan::External)
    } else {
        Err(text::owned("That mod no longer exists on disk."))
    }
}

/// How something in the store of disabled mods is deleted.
#[derive(Clone, Copy, PartialEq, Eq, Structural)]
pub enum Removal {
    /// Not at all.
    Nothing,
    File,
    Folder,
}

/// How what is at a path of the store is deleted.
pub open spec fn removal(stored: Seq<char>, found: Found, inside: bool) -> Removal {
    if !inside || text::occurs(stored, ".."@) || found == Found::Nothing {
        Removal::Nothing
    } else if found == Found::Folder {
        Removal::Folder
    } else {
        Removal::File
    }
}

/// How what is at a path of the store is deleted, where `inside` tells whether the path, joined to
/// the game root, stays in the game folder.
pub fn stored_removal(stored: &str, found: Found, inside: bool) -> (r: Removal)
    ensures
        r == removal(stored@, found, inside),
{
    if !inside || text::contains(stored, "..") || found == Found::Nothing {
        Removal::Nothing
    } else if found == Found::Folder {
        Removal::Folder
    } else {
        Removal::File
    }
}

/// What an uninstallation did.
pub struct UninstallResult {
    pub removed: Vec<String>,
    pub via_manifest: bool,
    pub spanned_both: bool,
}

/// A recorded file may be deleted.
pub open spec fn is_removable(file: Seq<char>, inside: bool) -> bool {
    inside && !text::occurs(file, ".."@)
}

/// A recorded file may be deleted, where `inside` tells whether its path, joined to the game root,
/// stays in the game folder.
pub fn may_remove(file: &str, inside: bool) -> (r: bool)
    ensures
        r == is_removable(file@, inside),
{
    inside && !text::contains(file, "..")
}

/// The files for which deleting succeeded, in order.
pub open spec fn deleted(files: Seq<Seq<char>>, gone: Seq<bool>) -> Seq<Seq<char>>
    decreases files.len(),
{
    if files.len() == 0 {
        Seq::empty()
    } else {
        let before = deleted(files.drop_last(), gone);
        if gone[files.len() - 1] && !text::occurs(files.last(), ".."@) {
            before.push(files.last())
        } else {
            before
        }
    }
}

fn pick_deleted(files: &[String], gone: &[bool], removed: &mut Vec<String>)
    requires
        gone@.len() == files@.len(),
    ensures
        text::texts(final(removed)@) == text::texts(old(removed)@) + deleted(
            text::texts(files@),
            gone@,
        ),
{
    let ghost fs = text::texts(files@);
    let ghost before = text::texts(removed@);
    assert(fs.take(0) =~= Seq::empty());
    assert(before + deleted(fs.take(0), gone@) =~= before);
    for i in 0..files.len()
        invariant
            fs == text::texts(files@),
            gone@.len() == files@.len(),
            text::texts(removed@) == before + deleted(fs.take(i as int), gone@),
    {
        let ghost so_far = deleted(fs.take(i as int), gone@);
        assert(fs.take(i + 1).drop_last() =~= fs.take(i as int));
        if may_remove(files[i].as_str(), gone[i]) {
            removed.push(files[i].clone());
            assert(text::texts(removed@) =~= (before + so_far).push(fs[i as int]));
            assert((before + so_far).push(fs[i as int]) =~= before + so_far.push(fs[i as int]));
        }
    }
    assert(fs.take(fs.len() as int) =~= fs);
}

/// `r` tells of recorded files which of them were deleted.
pub open spec fn tells_recorded(
    r: UninstallResult,
    files: Seq<Seq<char>>,
    gone: Seq<bool>,
    spanned_both: bool,
) -> bool {
    &&& text::texts(r.removed@) == deleted(files, gone)
    &&& r.via_manifest
    &&& r.spanned_both == spanned_both
}

/// The result of deleting recorded files, where `gone` tells of each whether it was deleted, in the
/// game folder or in the store of disabled mods.
pub fn recorded_result(files: &[String], gone: &[bool], spanned_both: bool) -> (r: UninstallResult)
    requires
        gone@.len() == files@.len(),
    ensures
        tells_recorded(r, text::texts(files@), gone@, spanned_both),
{
    let mut removed: Vec<String> = Vec::new();
    assert(text::texts(removed@) =~= Seq::empty());
    pick_deleted(files, gone, &mut removed);
    assert(text::texts(removed@) =~= deleted(text::texts(files@), gone@));
    UninstallResult { removed, via_manifest: true, spanned_both }
}

/// `r` tells of a disabled mod what was deleted: of its paths, then of its recorded files.
pub open spec fn tells_disabled(
    r: UninstallResult,
    paths: Seq<Seq<char>>,
    paths_gone: Seq<bool>,
    files: Seq<Seq<char>>,
    files_gone: Seq<bool>,
    via_manifest: bool,
) -> bool {
    &&& text::texts(r.removed@) == deleted(paths, paths_gone) + deleted(files, files_gone)
    &&& r.via_manifest == via_manifest
    &&& !r.spanned_both
}

/// The result of deleting a disabled mod: `paths_gone` tells of each path whether what was at it
/// in the store was deleted, and `files_gone` of each recorded file whether it was deleted after
/// that, in the game folder or in the store.
pub fn disabled_result(
    paths: &[String],
    paths_gone: &[bool],
    files: &[String],
    files_gone: &[bool],
    via_manifest: bool,
) -> (r: UninstallResult)
    requires
        paths_gone@.len() == paths@.len(),
        files_gone@.len() == files@.len(),
    ensures
        tells_disabled(
            r,
            text::texts(paths@),
            paths_gone@,
            text::texts(files@),
            files_gone@,
            via_manifest,
        ),
{
    let mut removed: Vec<String> = Vec::new();
    assert(text::texts(removed@) =~= Seq::empty());
    pick_deleted(paths, paths_gone, &mut removed);
    assert(text::texts(removed@) =~= deleted(text::texts(paths@), paths_gone@));
    pick_deleted(files, files_gone, &mut removed);
    UninstallResult { removed, via_manifest, spanned_both: false }
}

/// `r` tells that what was at the path was deleted.
pub open spec fn tells_external(r: UninstallResult, rel: Seq<char>) -> bool {
    &&& text::texts(r.removed@) == seq![rel]
    &&& !r.via_manifest
    &&& !r.spanned_both
}

/// The result of deleting what was at the path of a mod that no manifest owns.
pub fn external_result(rel_path: &str) -> (r: UninstallResult)
    ensures
        tells_external(r, rel_path@),
{
    let mut removed: Vec<String> = Vec::new();
    removed.push(text::owned(rel_path));
    assert(text::texts(removed@) =~= seq![rel_path@]);
    UninstallResult { removed, via_manifest: false, spanned_both: false }
}

/// A folder that is kept though it is empty.
pub open spec fn is_guard(path: Seq<char>) -> bool {
    path == "BepInEx/plugins"@ || path == "BepInEx/patchers"@ || path == "BepInEx/config"@ || path
        == "BepInEx"@ || path == "SPT/user/mods"@ || path == "SPT/user"@ || path == "SPT"@
}

pub fn guarded(path: &str) -> (r: bool)
    ensures
        r == is_guard(path@),
{
    text::same(path, "BepInEx/plugins") || text::same(path, "BepInEx/patchers") || text::same(
        path,
        "BepInEx/config",
    ) || text::same(path, "BepInEx") || text::same(path, "SPT/user/mods") || text::same(
        path,
        "SPT/user",
    ) || text::same(path, "SPT")
}

/// The folder with these components and the folders around it, innermost first, up to the first
/// one that is kept or to the game root.
pub open spec fn prunable(dir: Seq<Seq<char>>) -> Seq<Seq<char>>
    decreases dir.len(),
{
    if dir.len() == 0 || is_guard(text::join(dir, "/"@)) {
        Seq::empty()
    } else {
        seq![text::join(dir, "/"@)] + prunable(dir.drop_last())
    }
}

/// The folders to tidy up after what was at `path` is gone.
pub open spec fn tidied(path: Seq<char>) -> Seq<Seq<char>> {
    if paths::components(path).len() == 0 {
        Seq::empty()
    } else {
        prunable(paths::components(path).drop_last())
    }
}

/// The folders to tidy up after what was at `path` is gone, in order. Each is deleted where it is
/// empty; the first one that is not, or that cannot be deleted, ends the tidying.
pub fn prune_empty_dirs(path: &str) -> (r: Vec<String>)
    ensures
        text::texts(r@) == tidied(path@),
{
    let all = text::pieces_of(path, Separator::Slash);
    let ghost whole = text::texts(all@);
    let ghost keep = |p: Seq<char>| p != "."@;
    let mut dir: Vec<String> = Vec::new();
    proof {
        text::lemma_filter_none(whole, keep);
        assert(text::texts(dir@) =~= Seq::empty());
    }
    for i in 0..all.len()
        invariant
            whole == text::texts(all@),
            keep == (|p: Seq<char>| p != "."@),
            text::texts(dir@) == whole.take(i as int).filter(keep),
    {
        proof {
            text::lemma_filter_next(whole, keep, i as int);
        }
        if !text::same(all[i].as_str(), ".") {
            let ghost was = text::texts(dir@);
            dir.push(all[i].clone());
            assert(text::texts(dir@) =~= was.push(whole[i as int]));
        }
    }
    assert(whole.take(whole.len() as int) =~= whole);
    let mut r: Vec<String> = Vec::new();
    assert(text::texts(r@) =~= Seq::empty());
    let ghost cs = paths::components(path@);
    assert(text::texts(dir@) == cs);
    if dir.len() == 0 {
        return r;
    }
    let ghost was = text::texts(dir@);
    dir.pop();
    assert(text::texts(dir@) =~= was.drop_last());
    let ghost goal = prunable(cs.drop_last());
    assert(text::texts(r@) + prunable(text::texts(dir@)) =~= goal);
    while dir.len() > 0
        invariant
            cs == paths::components(path@),
            cs.len() > 0,
            goal == prunable(cs.drop_last()),
            text::texts(r@) + prunable(text::texts(dir@)) == goal,
        decreases dir.len(),
    {
        let ghost now = text::texts(dir@);
        let ghost done = text::texts(r@);
        let here = text::join_from(dir.as_slice(), 0, "/");
        assert(now.skip(0) =~= now);
        if guarded(here.as_str()) {
            assert(prunable(now) =~= Seq::empty());
            assert(done =~= goal);
            return r;
        }
        r.push(here);
        dir.pop();
        proof {
            assert(text::texts(dir@) =~= now.drop_last());
            assert(text::texts(r@) =~= done.push(text::join(now, "/"@)));
            assert(text::texts(r@) + prunable(now.drop_last()) =~= done + prunable(now));
        }
    }
    assert(prunable(text::texts(dir@)) =~= Seq::empty());
    assert(text::texts(r@) =~= goal);
    r
}

proof fn lemma_all_files(ms: Seq<ManifestView>, own: Seq<int>, k: int, f: Seq<char>)
    requires
        0 <= k < own.len(),
        ms[own[k]].files.contains(f),
    ensures
        all_files(ms, own).contains(f),
    decreases own.len(),
{
    let before = all_files(ms, own.drop_last());
    let last = ms[own.last()].files;
    if k < own.len() - 1 {
        assert(own.drop_last()[k] == own[k]);
        lemma_all_files(ms, own.drop_last(), k, f);
        let i = choose|i: int| 0 <= i < before.len() && before[i] == f;
        assert((before + last)[i] == f);
    } else {
        let i = choose|i: int| 0 <= i < last.len() && last[i] == f;
        assert((before + last)[before.len() + i] == f);
    }
}

proof fn lemma_all_files_are_recorded(ms: Seq<ManifestView>, own: Seq<int>, f: Seq<char>)
    requires
        all_files(ms, own).contains(f),
    ensures
        exists|k: int| 0 <= k < own.len() && (#[trigger] ms[own[k]]).files.contains(f),
    decreases own.len(),
{
    if own.len() > 0 {
        let before = all_files(ms, own.drop_last());
        let last = ms[own.last()].files;
        let i = choose|i: int| 0 <= i < (before + last).len() && (before + last)[i] == f;
        if i < before.len() {
            assert(before[i] == f);
            lemma_all_files_are_recorded(ms, own.drop_last(), f);
            let k = choose|k: int|
                0 <= k < own.len() - 1 && (#[trigger] ms[own.drop_last()[k]]).files.contains(f);
            assert(ms[own[k]].files.contains(f));
        } else {
            assert(last[i - before.len()] == f);
            assert(ms[own[own.len() - 1]].files.contains(f));
        }
    }
}

/// Uninstalling deletes exactly what the manifests of the mod record, each file once: every file
/// of a manifest that owns the path is to be deleted, and every file that is to be deleted is
/// recorded by such a manifest.
pub proof fn law_uninstall_is_exact(ms: Seq<ManifestView>, rel: Seq<char>)
    ensures
        recorded_files(ms, manifest::owners(ms, rel)).no_duplicates(),
        forall|f: Seq<char>| #[trigger]
            recorded_files(ms, manifest::owners(ms, rel)).contains(f) <==> exists|i: int|
                0 <= i < ms.len() && manifest::owns(#[trigger] ms[i], rel) && ms[i].files.contains(
                    f,
                ),
{
    let own = manifest::owners(ms, rel);
    let all = all_files(ms, own);
    text::lemma_distinct(all);
    manifest::lemma_owners(ms, rel);
    assert forall|f: Seq<char>| #[trigger] recorded_files(ms, own).contains(f) implies exists|
        i: int,
    |
        0 <= i < ms.len() && manifest::owns(#[trigger] ms[i], rel) && ms[i].files.contains(f) by {
        assert(all.contains(f));
        lemma_all_files_are_recorded(ms, own, f);
        let k = choose|k: int| 0 <= k < own.len() && (#[trigger] ms[own[k]]).files.contains(f);
        assert(manifest::owns(ms[own[k]], rel));
    }
    assert forall|f: Seq<char>|
        (exists|i: int|
            0 <= i < ms.len() && manifest::owns(#[trigger] ms[i], rel) && ms[i].files.contains(
                f,
            )) implies #[trigger] recorded_files(ms, own).contains(f) by {
        let i = choose|i: int|
            0 <= i < ms.len() && manifest::owns(#[trigger] ms[i], rel) && ms[i].files.contains(f);
        assert(own.contains(i));
        let k = choose|k: int| 0 <= k < own.len() && own[k] == i;
        lemma_all_files(ms, own, k, f);
    }
}

/// The plan deletes the file: where it is in the game folder, and where disabling put it.
pub open spec fn takes(plan: UninstallPlan, file: Seq<char>) -> bool {
    match plan {
        UninstallPlan::Recorded { files, stored, .. } => text::texts(files@).contains(file)
            && text::texts(stored@).contains(paths::in_store(file)),
        UninstallPlan::Disabled { files, stored_files, .. } => text::texts(files@).contains(file)
            && text::texts(stored_files@).contains(paths::in_store(file)),
        UninstallPlan::External => false,
    }
}

/// A clean uninstall: whatever is planned for a mod that manifests own, no file that they record is
/// left, neither in the game folder nor in the store of disabled mods, and the manifests go with
/// them.
pub proof fn law_no_recorded_file_is_left(
    r: Result<UninstallPlan, String>,
    rel: Seq<char>,
    ms: Seq<ManifestView>,
    live: Found,
    live_inside: bool,
    stored: Found,
    stored_inside: bool,
    f: Seq<char>,
)
    requires
        plans(r, rel, ms, live, live_inside, stored, stored_inside),
        r is Ok,
        recorded_files(ms, manifest::owners(ms, rel)).contains(f),
    ensures
        takes(r->Ok_0, f),
        match r->Ok_0 {
            UninstallPlan::Recorded { manifests, .. } => manifest::indices(manifests@)
                == manifest::owners(ms, rel),
            UninstallPlan::Disabled { manifests, .. } => manifest::indices(manifests@)
                == manifest::owners(ms, rel),
            UninstallPlan::External => false,
        },
{
    let own = manifest::owners(ms, rel);
    let all = recorded_files(ms, own);
    if own.len() == 0 {
        assert(all =~= Seq::empty());
    }
    let i = choose|i: int| 0 <= i < all.len() && all[i] == f;
    assert(all_in_store(all)[i] == paths::in_store(f));
    assert(all_in_store(all).contains(paths::in_store(f)));
}

proof fn lemma_distinct_first(s: Seq<Seq<char>>)
    requires
        s.len() > 0,
    ensures
        text::distinct(s).len() > 0,
        text::distinct(s)[0] == s[0],
    decreases s.len(),
{
    if s.len() > 1 {
        lemma_distinct_first(s.drop_last());
    } else {
        assert(s.drop_last() =~= Seq::empty());
        assert(text::distinct(s.drop_last()) =~= Seq::empty());
    }
}

/// Removing a disabled mod deletes all that is at its path in the store, and tells of the path
/// first. Where the path is that of a whole mod, the container of every file that its manifests
/// record is deleted with all that is in it, but for the folders of the game itself; where it is
/// not, nothing but what is at the path is deleted with all that is in it.
pub proof fn law_disabled_mod_goes_from_the_store(
    r: Result<UninstallPlan, String>,
    rel: Seq<char>,
    ms: Seq<ManifestView>,
    live_inside: bool,
    stored: Found,
)
    requires
        plans(r, rel, ms, Found::Nothing, live_inside, stored, true),
        stored != Found::Nothing,
    ensures
        r matches Ok(UninstallPlan::Disabled { paths, stored: places, .. }) && {
            &&& paths@.len() == places@.len() > 0
            &&& paths@[0]@ == rel
            &&& places@[0]@ == paths::in_store(rel)
            &&& is_whole(rel) ==> forall|f: Seq<char>|
                recorded_files(ms, manifest::owners(ms, rel)).contains(f) && !is_guard(
                    toggle::container(f),
                ) ==> #[trigger] text::texts(places@).contains(
                    paths::in_store(toggle::container(f)),
                )
            &&& !is_whole(rel) ==> text::texts(places@) == seq![paths::in_store(rel)]
        },
{
    let all = recorded_files(ms, manifest::owners(ms, rel));
    let us = seq![rel] + all.map_values(|f: Seq<char>| unit(f));
    let ds = disabled_paths(ms, rel);
    if is_whole(rel) {
        lemma_distinct_first(us);
        assert(us[0] == rel);
        text::lemma_distinct(us);
        assert forall|f: Seq<char>|
            all.contains(f) && !is_guard(toggle::container(f)) implies #[trigger] all_in_store(
            ds,
        ).contains(paths::in_store(toggle::container(f))) by {
            let i = choose|i: int| 0 <= i < all.len() && all[i] == f;
            assert(us[i + 1] == unit(f));
            assert(ds.contains(unit(f)));
            let k = choose|k: int| 0 <= k < ds.len() && ds[k] == unit(f);
            assert(all_in_store(ds)[k] == paths::in_store(unit(f)));
        }
    } else {
        assert(all_in_store(ds) =~= seq![paths::in_store(rel)]);
    }
    if let Ok(UninstallPlan::Disabled { paths, stored: places, .. }) = r {
        assert(text::texts(paths@).len() == paths@.len());
        assert(text::texts(places@).len() == places@.len());
        assert(all_in_store(ds).len() == ds.len());
        assert(text::texts(paths@)[0] == paths@[0]@);
        assert(text::texts(places@)[0] == places@[0]@);
        assert(all_in_store(ds)[0] == paths::in_store(ds[0]));
    }
}

/// An installation can be taken back whole: where the manifest of an installation is among the
/// manifests and owns the path, what is planned for the path deletes every file of the
/// installation and that manifest.
pub proof fn law_uninstall_takes_back_an_install(
    r: Result<UninstallPlan, String>,
    rel: Seq<char>,
    ms: Seq<ManifestView>,
    live: Found,
    live_inside: bool,
    stored: Found,
    stored_inside: bool,
    i: int,
    path: Seq<char>,
    mod_name: Seq<char>,
    source: Seq<char>,
    at: u64,
    classification: Seq<char>,
    client_count: u64,
    server_count: u64,
    files: Seq<MappedView>,
)
    requires
        plans(r, rel, ms, live, live_inside, stored, stored_inside),
        r is Ok,
        0 <= i < ms.len(),
        ms[i] == manifest::manifest_of(
            path,
            manifest::manifest_tree(
                mod_name,
                source,
                at,
                classification,
                client_count,
                server_count,
                files,
            ),
        ),
        manifest::owns(ms[i], rel),
    ensures
        forall|k: int|
            0 <= k < files.len() ==> takes(
                r->Ok_0,
                text::slashed((#[trigger] files[k]).target),
            ),
        match r->Ok_0 {
            UninstallPlan::Recorded { manifests, .. } => manifest::indices(
                manifests@,
            ).contains(i),
            UninstallPlan::Disabled { manifests, .. } => manifest::indices(
                manifests@,
            ).contains(i),
            UninstallPlan::External => false,
        },
{
    manifest::law_manifest_reads_back(
        path,
        mod_name,
        source,
        at,
        classification,
        client_count,
        server_count,
        files,
    );
    law_uninstall_is_exact(ms, rel);
    manifest::lemma_owners(ms, rel);
    let own = manifest::owners(ms, rel);
    assert(own.contains(i));
    assert forall|k: int| 0 <= k < files.len() implies takes(
        r->Ok_0,
        text::slashed((#[trigger] files[k]).target),
    ) by {
        let f = text::slashed(files[k].target);
        assert(ms[i].files[k] == f);
        assert(ms[i].files.contains(f));
        assert(recorded_files(ms, own).contains(f));
        law_no_recorded_file_is_left(
            r,
            rel,
            ms,
            live,
            live_inside,
            stored,
            stored_inside,
            f,
        );
    }
}

/// Tidying up never deletes a folder that the game needs, nor the game root, and touches nothing
/// but folders around what was deleted.
pub proof fn law_tidying_spares_the_game(dir: Seq<Seq<char>>)
    ensures
        prunable(dir).len() <= dir.len(),
        forall|k: int|
            0 <= k < prunable(dir).len() ==> #[trigger] prunable(dir)[k] == text::join(
                dir.take(dir.len() - k),
                "/"@,
            ) && !is_guard(prunable(dir)[k]),
    decreases dir.len(),
{
    if dir.len() > 0 && !is_guard(text::join(dir, "/"@)) {
        let outer = dir.drop_last();
        law_tidying_spares_the_game(outer);
        assert forall|k: int| 0 <= k < prunable(dir).len() implies #[trigger] prunable(dir)[k]
            == text::join(dir.take(dir.len() - k), "/"@) && !is_guard(prunable(dir)[k]) by {
            if k == 0 {
                assert(dir.take(dir.len() as int) =~= dir);
            } else {
                assert(prunable(dir)[k] == prunable(outer)[k - 1]);
                assert(outer.take(outer.len() - (k - 1)) =~= dir.take(dir.len() - k));
            }
        }
    }
}

/// What is reported as deleted was recorded, and two dots stand in none of it.
pub proof fn law_deleted_was_recorded(files: Seq<Seq<char>>, gone: Seq<bool>)
    ensures
        forall|k: int|
            0 <= k < deleted(files, gone).len() ==> files.contains(
                #[trigger] deleted(files, gone)[k],
            ) && !text::occurs(deleted(files, gone)[k], ".."@),
    decreases files.len(),
{
    if files.len() > 0 {
        let before = files.drop_last();
        law_deleted_was_recorded(before, gone);
        assert forall|k: int| 0 <= k < deleted(files, gone).len() implies files.contains(
            #[trigger] deleted(files, gone)[k],
        ) && !text::occurs(deleted(files, gone)[k], ".."@) by {
            let d = deleted(before, gone);
            if k < d.len() {
                assert(before.contains(d[k]));
                let i = choose|i: int| 0 <= i < before.len() && before[i] == d[k];
                assert(files[i] == d[k]);
            } else {
                assert(files[files.len() - 1] == deleted(files, gone)[k]);
            }
        }
    }
}

proof fn lemma_trim_nothing(s: Seq<char>)
    requires
        s.len() > 0,
        s.last() != '/',
    ensures
        text::trim_slashes(s) == s,
{
}

/// SPT's own client files cannot be removed: neither their folders nor their libraries, whatever
/// the manifests say and whatever is on disk.
pub proof fn law_core_files_cannot_be_removed(root_is_dir: bool, folder: Seq<char>, file: Seq<char>)
    requires
        folder == "BepInEx/plugins"@ || folder == "BepInEx/patchers"@,
        file.len() > 0,
        text::uncut(file, Separator::Slash),
        inventory::core_client(without_dll(file)),
    ensures
        refusal(root_is_dir, folder + "/"@ + file) is Some,
{
    reveal_strlit("BepInEx/plugins");
    reveal_strlit("BepInEx/patchers");
    reveal_strlit("BepInEx/plugins/");
    reveal_strlit("BepInEx/patchers/");
    reveal_strlit("/");
    let rel = folder + "/"@ + file;
    assert(rel =~= folder.push('/') + file);
    assert(rel.last() == file[file.len() - 1]);
    lemma_trim_nothing(rel);
    text::lemma_split_at(folder, '/', file, Separator::Slash);
    text::lemma_split_uncut(file, Separator::Slash);
    assert(last_component(rel) == file);
    if folder == "BepInEx/plugins"@ {
        assert(rel.subrange(0, 16) =~= "BepInEx/plugins/"@);
        assert("BepInEx/plugins/"@.is_prefix_of(rel));
    } else {
        assert(rel.subrange(0, 17) =~= "BepInEx/patchers/"@);
        assert("BepInEx/patchers/"@.is_prefix_of(rel));
    }
}

/// What the list of mods hides as one of SPT's own libraries cannot be removed either.
pub proof fn law_hidden_libraries_cannot_be_removed(
    root_is_dir: bool,
    folder: Seq<char>,
    file: Seq<char>,
)
    requires
        folder == "BepInEx/plugins"@ || folder == "BepInEx/patchers"@,
        text::uncut(file, Separator::Slash),
        inventory::is_library(file),
        inventory::core_client(names::stem(file)),
    ensures
        refusal(root_is_dir, folder + "/"@ + file) is Some,
{
    reveal_strlit("dll");
    reveal_strlit(".dll");
    let at = names::last_dot(file);
    let ext = file.skip(at + 1);
    let low = text::ascii_lowercase(ext);
    names::lemma_dot_at(file);
    assert(text::ascii_lowercase("dll"@) =~= "dll"@);
    assert(low.len() == ext.len());
    assert(low[0] == 'd' && low[1] == 'l' && low[2] == 'l');
    let whole = text::ascii_lowercase(file);
    let n = file.len();
    assert(at == n - 4);
    assert(ext[0] == file[n - 3] && ext[1] == file[n - 2] && ext[2] == file[n - 1]);
    assert(whole.subrange(n - 4, n as int) =~= ".dll"@);
    assert(".dll"@.is_suffix_of(whole));
    assert(without_dll(file) =~= names::stem(file));
    law_core_files_cannot_be_removed(root_is_dir, folder, file);
}

} // verus!
