//! What removing, enabling and disabling a mod are for, told from what is asked and what is on disk.
use crate::manifest;
use crate::manifest::ManifestView;
use crate::paths;
use crate::paths::Found;
use crate::text;
use crate::text::Separator;
use crate::toggle;
use crate::toggle::Place;
use crate::uninstall;
use crate::uninstall::{UninstallPlan, UninstallResult};
use vstd::prelude::*;

verus! {

/// The file is at the path, or below it; slashes at the end of the path do not count.
pub open spec fn at_or_below(file: Seq<char>, rel: Seq<char>) -> bool {
    file == rel || (text::trim_slashes(rel) + "/"@).is_prefix_of(file)
}

/// The manifest records a file at the path or below it.
pub open spec fn records(m: ManifestView, rel: Seq<char>) -> bool {
    exists|k: int| 0 <= k < m.files.len() && at_or_below(#[trigger] m.files[k], rel)
}

/// Some manifest records a file at the path or below it.
pub open spec fn recorded(ms: Seq<ManifestView>, rel: Seq<char>) -> bool {
    exists|i: int| 0 <= i < ms.len() && records(#[trigger] ms[i], rel)
}

/// The path names something: it holds no two dots, and not only whitespace.
pub open spec fn is_named(rel: Seq<char>) -> bool {
    &&& !text::occurs(rel, ".."@)
    &&& exists|i: int| 0 <= i < rel.len() && !text::whitespace(#[trigger] rel[i])
}

/// The path is one of SPT's own client files: below a client folder, and its last component,
/// without the ending of a library, is called `spt` or starts with `spt-` or `spt_`, in any case.
pub open spec fn is_spts_own(rel: Seq<char>) -> bool {
    let stem = uninstall::without_dll(uninstall::last_component(rel));
    let low = text::lowercase(stem);
    &&& "BepInEx/plugins/"@.is_prefix_of(rel) || "BepInEx/patchers/"@.is_prefix_of(rel)
    &&& low == "spt"@ || "spt-"@.is_prefix_of(low) || "spt_"@.is_prefix_of(low)
}

/// The request is in order: the game folder is there, the path names something, and that is not
/// SPT's own.
pub open spec fn in_order(root_is_dir: bool, rel: Seq<char>) -> bool {
    root_is_dir && is_named(rel) && !is_spts_own(rel)
}

pub proof fn lemma_owns(m: ManifestView, rel: Seq<char>)
    ensures
        manifest::owns(m, rel) == records(m, rel),
{
    if manifest::owns(m, rel) {
        let k = choose|k: int| 0 <= k < m.files.len() && manifest::covers(#[trigger] m.files[k], rel);
        assert(at_or_below(m.files[k], rel));
    }
    if records(m, rel) {
        let k = choose|k: int| 0 <= k < m.files.len() && at_or_below(#[trigger] m.files[k], rel);
        assert(manifest::covers(m.files[k], rel));
    }
}

proof fn lemma_recorded(ms: Seq<ManifestView>, rel: Seq<char>)
    ensures
        recorded(ms, rel) == (manifest::owners(ms, rel).len() > 0),
{
    manifest::lemma_owners(ms, rel);
    let own = manifest::owners(ms, rel);
    if own.len() > 0 {
        lemma_owns(ms[own[0]], rel);
        assert(records(ms[own[0]], rel));
    }
    if recorded(ms, rel) {
        let i = choose|i: int| 0 <= i < ms.len() && records(#[trigger] ms[i], rel);
        lemma_owns(ms[i], rel);
        assert(own.contains(i));
    }
}

pub proof fn lemma_in_order(root_is_dir: bool, rel: Seq<char>)
    ensures
        in_order(root_is_dir, rel) == (uninstall::refusal(root_is_dir, rel) is None),
        is_named(rel) == paths::names_mod(rel),
        is_spts_own(rel) == uninstall::is_core_path(rel),
{
    if !text::blank(rel) {
        let i = choose|i: int| 0 <= i < rel.len() && !text::whitespace(#[trigger] rel[i]);
        assert(!text::whitespace(rel[i]));
    }
}

proof fn lemma_errors_differ()
    ensures
        "That mod no longer exists on disk."@ != "SPT root folder does not exist."@,
        "That mod no longer exists on disk."@ != "Invalid mod path."@,
        "That mod no longer exists on disk."@
            != "That's part of SPT itself and can't be removed here."@,
        "That mod no longer exists on disk."@ != "Refusing to delete outside the SPT folder."@,
        "Refusing to delete outside the SPT folder."@ != "SPT root folder does not exist."@,
        "Refusing to delete outside the SPT folder."@ != "Invalid mod path."@,
        "Refusing to delete outside the SPT folder."@
            != "That's part of SPT itself and can't be removed here."@,
{
    reveal_strlit("That mod no longer exists on disk.");
    reveal_strlit("SPT root folder does not exist.");
    reveal_strlit("Invalid mod path.");
    reveal_strlit("That's part of SPT itself and can't be removed here.");
    reveal_strlit("Refusing to delete outside the SPT folder.");
    assert("That mod no longer exists on disk."@.len() == 34);
    assert("SPT root folder does not exist."@.len() == 31);
    assert("Invalid mod path."@.len() == 17);
    assert("That's part of SPT itself and can't be removed here."@.len() == 52);
    assert("Refusing to delete outside the SPT folder."@.len() == 42);
}

/// A request that is not in order is refused, and the reasons come in this order: there is no game
/// folder, the path names nothing, it is SPT's own.
pub proof fn law_bad_requests_are_refused(
    r: Result<UninstallPlan, String>,
    root_is_dir: bool,
    rel: Seq<char>,
    ms: Seq<ManifestView>,
    live: Found,
    live_inside: bool,
    stored: Found,
    stored_inside: bool,
)
    requires
        uninstall::uninstalls(r, root_is_dir, rel, ms, live, live_inside, stored, stored_inside),
    ensures
        !root_is_dir ==> (r matches Err(e) && e@ == "SPT root folder does not exist."@),
        root_is_dir && !is_named(rel) ==> (r matches Err(e) && e@ == "Invalid mod path."@),
        root_is_dir && is_named(rel) && is_spts_own(rel) ==> (r matches Err(e) && e@
            == "That's part of SPT itself and can't be removed here."@),
{
    lemma_in_order(root_is_dir, rel);
}

/// A mod that was put there by hand can be removed: where the request is in order, no manifest
/// records the path, a file or a folder is there and the place stays in the game folder, what is
/// at the path is removed.
pub proof fn law_mods_without_manifest_can_be_removed(
    r: Result<UninstallPlan, String>,
    root_is_dir: bool,
    rel: Seq<char>,
    ms: Seq<ManifestView>,
    live: Found,
    stored: Found,
    stored_inside: bool,
)
    requires
        uninstall::uninstalls(r, root_is_dir, rel, ms, live, true, stored, stored_inside),
        in_order(root_is_dir, rel),
        !recorded(ms, rel),
        live is File || live is Folder,
    ensures
        r matches Ok(UninstallPlan::External),
{
    lemma_in_order(root_is_dir, rel);
    lemma_recorded(ms, rel);
}

/// A mod is reported as gone only where it is: the error comes where the request is in order, no
/// manifest records the path and neither a file nor a folder is there, and only there.
pub proof fn law_only_missing_mods_are_missing(
    r: Result<UninstallPlan, String>,
    root_is_dir: bool,
    rel: Seq<char>,
    ms: Seq<ManifestView>,
    live: Found,
    live_inside: bool,
    stored: Found,
    stored_inside: bool,
)
    requires
        uninstall::uninstalls(r, root_is_dir, rel, ms, live, live_inside, stored, stored_inside),
    ensures
        (r matches Err(e) && e@ == "That mod no longer exists on disk."@) ==> !(live is File)
            && !(live is Folder) && !(live is Nothing && !(stored is Nothing)) && !recorded(ms, rel)
            && in_order(root_is_dir, rel),
        in_order(root_is_dir, rel) && !recorded(ms, rel) && live_inside && (live is Other || (live
            is Nothing && stored is Nothing)) ==> (r matches Err(e) && e@
            == "That mod no longer exists on disk."@),
{
    lemma_in_order(root_is_dir, rel);
    lemma_recorded(ms, rel);
    lemma_errors_differ();
}

/// Nothing is removed outside the game folder, and that alone is refused for it: a path that leads
/// out is refused where the path itself is what would be removed.
pub proof fn law_nothing_outside_is_removed(
    r: Result<UninstallPlan, String>,
    root_is_dir: bool,
    rel: Seq<char>,
    ms: Seq<ManifestView>,
    live: Found,
    live_inside: bool,
    stored: Found,
    stored_inside: bool,
)
    requires
        uninstall::uninstalls(r, root_is_dir, rel, ms, live, live_inside, stored, stored_inside),
        in_order(root_is_dir, rel),
    ensures
        ({
            let disabled = live is Nothing && !(stored is Nothing);
            (r matches Err(e) && e@ == "Refusing to delete outside the SPT folder."@) <==> if disabled {
                !stored_inside
            } else {
                !recorded(ms, rel) && !live_inside
            }
        }),
        (r matches Ok(UninstallPlan::External)) ==> live_inside,
        (r matches Ok(UninstallPlan::Disabled { .. })) ==> stored_inside,
{
    lemma_in_order(root_is_dir, rel);
    lemma_recorded(ms, rel);
    lemma_errors_differ();
}

/// The files are exactly those that manifests with a file at the path or below it record, each
/// once.
pub open spec fn all_recorded(files: Seq<Seq<char>>, ms: Seq<ManifestView>, rel: Seq<char>) -> bool {
    &&& files.no_duplicates()
    &&& forall|f: Seq<char>| #[trigger]
        files.contains(f) <==> exists|i: int|
            0 <= i < ms.len() && records(#[trigger] ms[i], rel) && ms[i].files.contains(f)
}

/// The indices are exactly those of the manifests with a file at the path or below it.
pub open spec fn all_recording(ix: Seq<int>, ms: Seq<ManifestView>, rel: Seq<char>) -> bool {
    forall|i: int| #[trigger]
        ix.contains(i) <==> 0 <= i < ms.len() && records(ms[i], rel)
}

/// Some manifest with a file at the path or below it has files on the client and on the server
/// side.
pub open spec fn on_both_sides(ms: Seq<ManifestView>, rel: Seq<char>) -> bool {
    exists|i: int|
        0 <= i < ms.len() && records(#[trigger] ms[i], rel) && (exists|a: int|
            0 <= a < ms[i].files.len() && "BepInEx/"@.is_prefix_of(#[trigger] ms[i].files[a])) && (
        exists|b: int|
            0 <= b < ms[i].files.len() && "SPT/"@.is_prefix_of(#[trigger] ms[i].files[b]))
}

proof fn lemma_all_recorded(ms: Seq<ManifestView>, rel: Seq<char>)
    ensures
        all_recorded(uninstall::recorded_files(ms, manifest::owners(ms, rel)), ms, rel),
        all_recording(manifest::owners(ms, rel), ms, rel),
        uninstall::some_spans_both(ms, manifest::owners(ms, rel)) == on_both_sides(ms, rel),
{
    let own = manifest::owners(ms, rel);
    let files = uninstall::recorded_files(ms, own);
    uninstall::law_uninstall_is_exact(ms, rel);
    manifest::lemma_owners(ms, rel);
    assert forall|i: int| 0 <= i < ms.len() implies manifest::owns(#[trigger] ms[i], rel) == records(
        ms[i],
        rel,
    ) by {
        lemma_owns(ms[i], rel);
    }
    assert forall|f: Seq<char>| #[trigger] files.contains(f) <==> exists|i: int|
        0 <= i < ms.len() && records(#[trigger] ms[i], rel) && ms[i].files.contains(f) by {
        if files.contains(f) {
            let i = choose|i: int|
                0 <= i < ms.len() && manifest::owns(#[trigger] ms[i], rel) && ms[i].files.contains(
                    f,
                );
            assert(records(ms[i], rel));
        }
        if exists|i: int|
            0 <= i < ms.len() && records(#[trigger] ms[i], rel) && ms[i].files.contains(f) {
            let i = choose|i: int|
                0 <= i < ms.len() && records(#[trigger] ms[i], rel) && ms[i].files.contains(f);
            assert(manifest::owns(ms[i], rel));
        }
    }
    assert forall|i: int| #[trigger] own.contains(i) <==> 0 <= i < ms.len() && records(
        ms[i],
        rel,
    ) by {
        if own.contains(i) {
            let k = choose|k: int| 0 <= k < own.len() && own[k] == i;
            assert(manifest::owns(ms[own[k]], rel));
        }
        if 0 <= i < ms.len() && records(ms[i], rel) {
            assert(manifest::owns(ms[i], rel));
        }
    }
    if uninstall::some_spans_both(ms, own) {
        let k = choose|k: int| 0 <= k < own.len() && uninstall::spans_both(#[trigger] ms[own[k]]);
        let m = ms[own[k]];
        assert(own.contains(own[k]));
        assert(records(ms[own[k]], rel));
        let a = choose|a: int| 0 <= a < m.files.len() && "BepInEx/"@.is_prefix_of(#[trigger] m.files[a]);
        let b = choose|b: int| 0 <= b < m.files.len() && "SPT/"@.is_prefix_of(#[trigger] m.files[b]);
        assert("BepInEx/"@.is_prefix_of(ms[own[k]].files[a]));
        assert("SPT/"@.is_prefix_of(ms[own[k]].files[b]));
    }
    if on_both_sides(ms, rel) {
        let i = choose|i: int|
            0 <= i < ms.len() && records(#[trigger] ms[i], rel) && (exists|a: int|
                0 <= a < ms[i].files.len() && "BepInEx/"@.is_prefix_of(#[trigger] ms[i].files[a]))
                && (exists|b: int|
                0 <= b < ms[i].files.len() && "SPT/"@.is_prefix_of(#[trigger] ms[i].files[b]));
        assert(own.contains(i));
        let k = choose|k: int| 0 <= k < own.len() && own[k] == i;
        assert(uninstall::spans_both(ms[own[k]]));
    }
}

/// The paths with the store of disabled mods in front of them.
pub open spec fn in_the_store(files: Seq<Seq<char>>) -> Seq<Seq<char>> {
    files.map_values(|f: Seq<char>| ".spt-mod-installer/disabled/"@ + f)
}

pub proof fn lemma_in_the_store(files: Seq<Seq<char>>)
    ensures
        uninstall::all_in_store(files) == in_the_store(files),
{
    reveal_strlit(".spt-mod-installer/disabled");
    reveal_strlit(".spt-mod-installer/disabled/");
    reveal_strlit("/");
    assert(".spt-mod-installer/disabled"@ + "/"@ =~= ".spt-mod-installer/disabled/"@);
    assert forall|p: Seq<char>| #[trigger] paths::in_store(p) == ".spt-mod-installer/disabled/"@ + p by {
        assert(paths::in_store(p) =~= ".spt-mod-installer/disabled/"@ + p);
    }
    assert(uninstall::all_in_store(files) =~= in_the_store(files));
}

/// A mod that manifests record is removed file by file, wherever it is and whatever is left of it:
/// every file that these manifests record goes, in the game folder and in the store, and no other;
/// and so do the manifests. Only a mod of which nothing but a disabled copy is left is removed as
/// such.
pub proof fn law_recorded_mods_go_by_their_manifests(
    r: Result<UninstallPlan, String>,
    root_is_dir: bool,
    rel: Seq<char>,
    ms: Seq<ManifestView>,
    live: Found,
    live_inside: bool,
    stored: Found,
    stored_inside: bool,
)
    requires
        uninstall::uninstalls(r, root_is_dir, rel, ms, live, live_inside, stored, stored_inside),
        in_order(root_is_dir, rel),
        recorded(ms, rel),
        !(live is Nothing) || stored is Nothing,
    ensures
        r matches Ok(UninstallPlan::Recorded { files, stored: places, manifests, spanned_both }) && {
            &&& all_recorded(text::texts(files@), ms, rel)
            &&& text::texts(places@) == in_the_store(text::texts(files@))
            &&& all_recording(manifest::indices(manifests@), ms, rel)
            &&& spanned_both == on_both_sides(ms, rel)
        },
{
    lemma_in_order(root_is_dir, rel);
    lemma_recorded(ms, rel);
    lemma_all_recorded(ms, rel);
    lemma_in_the_store(uninstall::recorded_files(ms, manifest::owners(ms, rel)));
}

/// A mod of which only a disabled copy is left is removed from the store: all that is at its path
/// there, every file that its manifests record, wherever it is, and the manifests.
pub proof fn law_disabled_mods_can_be_removed(
    r: Result<UninstallPlan, String>,
    root_is_dir: bool,
    rel: Seq<char>,
    ms: Seq<ManifestView>,
    live_inside: bool,
    stored: Found,
)
    requires
        uninstall::uninstalls(r, root_is_dir, rel, ms, Found::Nothing, live_inside, stored, true),
        in_order(root_is_dir, rel),
        !(stored is Nothing),
    ensures
        r matches Ok(
            UninstallPlan::Disabled { paths, stored: places, files, stored_files, manifests },
        ) && {
            &&& text::texts(paths@).contains(rel)
            &&& text::texts(places@) == in_the_store(text::texts(paths@))
            &&& all_recorded(text::texts(files@), ms, rel)
            &&& text::texts(stored_files@) == in_the_store(text::texts(files@))
            &&& all_recording(manifest::indices(manifests@), ms, rel)
        },
{
    lemma_in_order(root_is_dir, rel);
    lemma_all_recorded(ms, rel);
    uninstall::law_disabled_mod_goes_from_the_store(r, rel, ms, live_inside, stored);
    lemma_in_the_store(uninstall::recorded_files(ms, manifest::owners(ms, rel)));
    lemma_in_the_store(uninstall::disabled_paths(ms, rel));
    if let Ok(UninstallPlan::Disabled { paths, .. }) = r {
        assert(text::texts(paths@)[0] == paths@[0]@);
    }
}

/// Nothing else goes whole from the store: what is deleted there with all that is in it is the path
/// itself, a file that its manifests record, or the folder that such a file was moved there with.
pub proof fn law_other_mods_stay_in_the_store(
    r: Result<UninstallPlan, String>,
    root_is_dir: bool,
    rel: Seq<char>,
    ms: Seq<ManifestView>,
    live: Found,
    live_inside: bool,
    stored: Found,
    stored_inside: bool,
    p: Seq<char>,
)
    requires
        uninstall::uninstalls(r, root_is_dir, rel, ms, live, live_inside, stored, stored_inside),
    ensures
        r matches Ok(UninstallPlan::Disabled { paths, files, .. }) ==> (text::texts(
            paths@,
        ).contains(p) ==> p == rel || exists|f: Seq<char>| #[trigger]
            text::texts(files@).contains(f) && (p == f || (p == toggle::container(f)
                && !uninstall::is_guard(p)))),
        r matches Ok(UninstallPlan::Disabled { .. }) ==> live is Nothing && !(stored is Nothing),
{
    let all = uninstall::recorded_files(ms, manifest::owners(ms, rel));
    let us = seq![rel] + all.map_values(|f: Seq<char>| uninstall::unit(f));
    if let Ok(UninstallPlan::Disabled { paths, files, .. }) = r {
        if text::texts(paths@).contains(p) && p != rel {
            text::lemma_distinct(us);
            assert(uninstall::disabled_paths(ms, rel).contains(p));
            assert(us.contains(p));
            let i = choose|i: int| 0 <= i < us.len() && us[i] == p;
            assert(p == uninstall::unit(all[i - 1]));
            assert(all.contains(all[i - 1]));
            assert(text::texts(files@).contains(all[i - 1]));
        }
    }
}

/// What is reported as removed is what went: each file that was deleted is reported, in order, and
/// no other, but for names with two dots, which are never deleted.
pub proof fn law_what_went_is_reported(files: Seq<Seq<char>>, gone: Seq<bool>)
    requires
        files.len() <= gone.len(),
    ensures
        forall|k: int|
            0 <= k < files.len() && gone[k] && !text::occurs(#[trigger] files[k], ".."@)
                ==> uninstall::deleted(files, gone).contains(files[k]),
        forall|f: Seq<char>| #[trigger]
            uninstall::deleted(files, gone).contains(f) ==> exists|k: int|
                0 <= k < files.len() && gone[k] && #[trigger] files[k] == f,
        (forall|k: int| 0 <= k < files.len() ==> !#[trigger] gone[k]) ==> uninstall::deleted(
            files,
            gone,
        ).len() == 0,
    decreases files.len(),
{
    if files.len() > 0 {
        let before = files.drop_last();
        let last = files.len() - 1;
        law_what_went_is_reported(before, gone);
        let d0 = uninstall::deleted(before, gone);
        let d = uninstall::deleted(files, gone);
        assert forall|k: int|
            0 <= k < files.len() && gone[k] && !text::occurs(#[trigger] files[k], ".."@) implies d.contains(
            files[k],
        ) by {
            if k < last {
                assert(before[k] == files[k]);
                assert(d0.contains(files[k]));
                let j = choose|j: int| 0 <= j < d0.len() && d0[j] == files[k];
                assert(d[j] == files[k]);
            } else {
                assert(d[d.len() - 1] == files[k]);
            }
        }
        assert forall|f: Seq<char>| #[trigger] d.contains(f) implies exists|k: int|
            0 <= k < files.len() && gone[k] && #[trigger] files[k] == f by {
            let j = choose|j: int| 0 <= j < d.len() && d[j] == f;
            if j < d0.len() {
                assert(d0[j] == f);
                assert(d0.contains(f));
                let k = choose|k: int| 0 <= k < before.len() && gone[k] && #[trigger] before[k] == f;
                assert(files[k] == f);
            } else {
                assert(files[last] == f);
            }
        }
        if forall|k: int| 0 <= k < files.len() ==> !#[trigger] gone[k] {
            assert(!gone[last]);
        }
    }
}

/// Where everything went, everything is reported, as it was listed.
pub proof fn law_all_that_went_is_reported(files: Seq<Seq<char>>, gone: Seq<bool>)
    requires
        files.len() <= gone.len(),
        forall|k: int| 0 <= k < files.len() ==> #[trigger] gone[k],
        forall|k: int| 0 <= k < files.len() ==> !text::occurs(#[trigger] files[k], ".."@),
    ensures
        uninstall::deleted(files, gone) == files,
    decreases files.len(),
{
    if files.len() > 0 {
        let before = files.drop_last();
        assert forall|k: int| 0 <= k < before.len() implies !text::occurs(
            #[trigger] before[k],
            ".."@,
        ) by {
            assert(before[k] == files[k]);
        }
        law_all_that_went_is_reported(before, gone);
        assert(gone[files.len() - 1]);
        assert(!text::occurs(files[files.len() - 1], ".."@));
        assert(uninstall::deleted(files, gone) =~= files);
    }
}

/// Tidying goes on up to the first folder that is kept: it ends at the game root or right below
/// such a folder.
pub proof fn law_tidying_goes_up(dir: Seq<Seq<char>>)
    ensures
        ({
            let n = dir.len() - uninstall::prunable(dir).len();
            &&& 0 <= n <= dir.len()
            &&& n == 0 || uninstall::is_guard(text::join(dir.take(n), "/"@))
        }),
    decreases dir.len(),
{
    assert(dir.take(dir.len() as int) =~= dir);
    if dir.len() > 0 && !uninstall::is_guard(text::join(dir, "/"@)) {
        let outer = dir.drop_last();
        law_tidying_goes_up(outer);
        let n = outer.len() - uninstall::prunable(outer).len();
        assert(outer.take(n) =~= dir.take(n));
    }
}

/// Enabling and disabling are refused like this: there is no game folder, or the path names
/// nothing. Otherwise something is to be moved.
pub proof fn law_toggling_is_refused_only_so(
    r: Result<Vec<String>, String>,
    root_is_dir: bool,
    rel: Seq<char>,
    ms: Seq<ManifestView>,
)
    requires
        toggle::toggles(r, root_is_dir, rel, ms),
    ensures
        !root_is_dir ==> (r matches Err(e) && e@ == "SPT root folder does not exist."@),
        root_is_dir && !is_named(rel) ==> (r matches Err(e) && e@ == "Invalid mod path."@),
        root_is_dir && is_named(rel) ==> (r matches Ok(v) && v@.len() > 0),
{
    lemma_in_order(root_is_dir, rel);
    if let Ok(v) = r {
        assert(text::texts(v@).len() == v@.len());
    }
}

/// Where no manifest records the path, the mod's own folder or file is moved alone; where one does,
/// the folders and files of all that the first such manifest records are moved, each once: the
/// halves of a mod move together.
pub proof fn law_halves_move_together(
    r: Result<Vec<String>, String>,
    rel: Seq<char>,
    ms: Seq<ManifestView>,
    i: int,
)
    requires
        toggle::toggles(r, true, rel, ms),
        is_named(rel),
        0 <= i < ms.len(),
        forall|j: int| 0 <= j < i ==> !records(#[trigger] ms[j], rel),
    ensures
        records(ms[i], rel) ==> (r matches Ok(v) && text::texts(v@).no_duplicates() && forall|
            c: Seq<char>,
        | #[trigger]
            text::texts(v@).contains(c) <==> exists|k: int|
                0 <= k < ms[i].files.len() && toggle::container(#[trigger] ms[i].files[k]) == c),
        !recorded(ms, rel) ==> (r matches Ok(v) && text::texts(v@) == seq![toggle::container(rel)]),
{
    lemma_in_order(true, rel);
    manifest::lemma_first_owner(ms, rel);
    if records(ms[i], rel) {
        lemma_owns(ms[i], rel);
        match manifest::first_owner(ms, rel) {
            Some(f) => {
                lemma_owns(ms[f], rel);
                if f < i {
                    assert(!records(ms[f], rel));
                }
                if i < f {
                    assert(!manifest::owns(ms[i], rel));
                }
                toggle::law_parts_move_together(ms, rel, i);
            },
            None => {
                assert(!manifest::owns(ms[i], rel));
            },
        }
    }
    if !recorded(ms, rel) {
        if let Some(f) = manifest::first_owner(ms, rel) {
            lemma_owns(ms[f], rel);
            assert(records(ms[f], rel));
        }
    }
}

/// No name among the components is empty or holds a slash.
pub open spec fn are_names(ps: Seq<Seq<char>>) -> bool {
    forall|k: int| 0 <= k < ps.len() ==> (#[trigger] ps[k]).len() > 0 && !ps[k].contains('/')
}

/// What is moved for a file: below `BepInEx` the second folder with all that is in it, below
/// `SPT/user/mods` the first one, and anywhere else what is in the game root.
#[verifier::spinoff_prover]
pub proof fn law_container_by_components(ps: Seq<Seq<char>>)
    requires
        are_names(ps),
        ps.len() > 0,
    ensures
        ({
            let c = toggle::container(text::join(ps, "/"@));
            if ps[0] == "BepInEx"@ && ps.len() >= 3 {
                c == text::join(ps.take(3), "/"@)
            } else if ps.len() >= 4 && ps[0] == "SPT"@ && ps[1] == "user"@ && ps[2] == "mods"@ {
                c == text::join(ps.take(4), "/"@)
            } else {
                c == ps[0]
            }
        }),
{
    let path = text::join(ps, "/"@);
    lemma_pieces_of_names(ps);
    lemma_two_roots();
    if ps[0] == "BepInEx"@ && ps.len() >= 3 {
        lemma_join_three(ps.take(3));
        assert(ps.take(3)[0] == ps[0] && ps.take(3)[1] == ps[1] && ps.take(3)[2] == ps[2]);
    } else if ps.len() >= 4 && ps[0] == "SPT"@ && ps[1] == "user"@ && ps[2] == "mods"@ {
        lemma_join_mods(ps);
    } else {
        lemma_no_mods(ps);
    }
}

proof fn lemma_pieces_of_names(ps: Seq<Seq<char>>)
    requires
        are_names(ps),
    ensures
        text::pieces(text::join(ps, "/"@), Separator::Slash) == ps,
{
    let s = Separator::Slash;
    assert forall|k: int| 0 <= k < ps.len() implies (#[trigger] ps[k]).len() > 0 && text::uncut(
        ps[k],
        s,
    ) by {
        assert forall|i: int| 0 <= i < ps[k].len() implies !s.cuts(#[trigger] ps[k][i]) by {
            if ps[k][i] == '/' {
                assert(ps[k].contains('/'));
            }
        }
    }
    text::lemma_pieces_of_join(ps);
}

proof fn lemma_two_roots()
    ensures
        "SPT"@ != "BepInEx"@,
{
    reveal_strlit("SPT");
    reveal_strlit("BepInEx");
    assert("SPT"@.len() == 3 && "BepInEx"@.len() == 7);
}

/// A path of server mods starts with their folder.
proof fn lemma_join_mods(ps: Seq<Seq<char>>)
    requires
        ps.len() >= 4,
        ps[0] == "SPT"@,
        ps[1] == "user"@,
        ps[2] == "mods"@,
    ensures
        text::join(ps.take(4), "/"@) == "SPT/user/mods/"@ + ps[3],
        "SPT/user/mods/"@.is_prefix_of(text::join(ps, "/"@)),
{
    let three = ps.take(3);
    let four = text::join(ps.take(4), "/"@);
    let path = text::join(ps, "/"@);
    lemma_join_three(three);
    assert(three[0] == ps[0] && three[1] == ps[1] && three[2] == ps[2]);
    assert(ps.take(4).drop_last() =~= three);
    assert(ps.take(4).last() == ps[3]);
    lemma_mods_folder();
    assert(four == "SPT"@ + "/"@ + "user"@ + "/"@ + "mods"@ + "/"@ + ps[3]);
    lemma_join_prefix(ps, 4);
    let n = "SPT/user/mods/"@.len() as int;
    assert(four.subrange(0, n) =~= "SPT/user/mods/"@);
    assert(path.subrange(0, n) =~= path.subrange(0, four.len() as int).subrange(0, n));
}

proof fn lemma_mods_folder()
    ensures
        "SPT"@ + "/"@ + "user"@ + "/"@ + "mods"@ + "/"@ == "SPT/user/mods/"@,
{
    reveal_strlit("SPT/user/mods/");
    reveal_strlit("SPT");
    reveal_strlit("user");
    reveal_strlit("mods");
    reveal_strlit("/");
    assert("SPT"@ + "/"@ + "user"@ + "/"@ + "mods"@ + "/"@ =~= "SPT/user/mods/"@);
}

/// A path that starts with the folder of server mods has its components.
proof fn lemma_no_mods(ps: Seq<Seq<char>>)
    requires
        are_names(ps),
        ps.len() > 0,
        !(ps.len() >= 3 && ps[0] == "SPT"@ && ps[1] == "user"@ && ps[2] == "mods"@) || ps.len() < 4,
    ensures
        ps.len() < 4 || !"SPT/user/mods/"@.is_prefix_of(text::join(ps, "/"@)),
{
    let path = text::join(ps, "/"@);
    lemma_pieces_of_names(ps);
    if "SPT/user/mods/"@.is_prefix_of(path) {
        let n = "SPT/user/mods/"@.len() as int;
        assert(path =~= "SPT/user/mods/"@ + path.skip(n));
        lemma_mods_pieces(path.skip(n));
    }
}

proof fn lemma_mods_pieces(rest: Seq<char>)
    ensures
        ({
            let ps = text::pieces("SPT/user/mods/"@ + rest, Separator::Slash);
            ps.len() >= 3 && ps[0] == "SPT"@ && ps[1] == "user"@ && ps[2] == "mods"@
        }),
{
    let s = Separator::Slash;
    reveal_strlit("SPT/user/mods/");
    reveal_strlit("SPT");
    reveal_strlit("user");
    reveal_strlit("mods");
    let whole = "SPT/user/mods/"@ + rest;
    let c = "mods"@.push('/') + rest;
    let b = "user"@.push('/') + c;
    assert(whole =~= "SPT"@.push('/') + b);
    text::lemma_pieces_at("SPT"@, '/', b, s);
    text::lemma_pieces_at("user"@, '/', c, s);
    text::lemma_pieces_at("mods"@, '/', rest, s);
    text::lemma_pieces_uncut("SPT"@, s);
    text::lemma_pieces_uncut("user"@, s);
    text::lemma_pieces_uncut("mods"@, s);
}

proof fn lemma_join_three(t: Seq<Seq<char>>)
    requires
        t.len() == 3,
    ensures
        text::join(t, "/"@) == t[0] + "/"@ + t[1] + "/"@ + t[2],
{
    assert(t.drop_last().drop_last() =~= seq![t[0]]);
    assert(text::join(t.drop_last().drop_last(), "/"@) == t[0]);
    assert(text::join(t.drop_last(), "/"@) == t[0] + "/"@ + t[1]);
}

proof fn lemma_join_prefix(ps: Seq<Seq<char>>, n: int)
    requires
        1 <= n <= ps.len(),
    ensures
        text::join(ps.take(n), "/"@).is_prefix_of(text::join(ps, "/"@)),
    decreases ps.len(),
{
    let a = text::join(ps.take(n), "/"@);
    let whole = text::join(ps, "/"@);
    if n == ps.len() {
        assert(ps.take(n) =~= ps);
        assert(whole.subrange(0, whole.len() as int) =~= whole);
    } else {
        lemma_join_prefix(ps.drop_last(), n);
        assert(ps.drop_last().take(n) =~= ps.take(n));
        let before = text::join(ps.drop_last(), "/"@);
        assert(whole.subrange(0, a.len() as int) =~= before.subrange(0, a.len() as int));
    }
}

/// Disabling moves what is in the game folder to its place in the store, and enabling moves it
/// back, whatever is at the other place; nothing is moved that is not there, that leads out of the
/// game folder or that holds two dots.
pub proof fn law_moves_go_to_the_store_and_back(c: Seq<char>, live: Place, stored: Place)
    ensures
        ({
            let may = !text::occurs(c, ".."@) && live.inside && stored.inside;
            let there = ".spt-mod-installer/disabled/"@ + c;
            &&& may && live.exists ==> toggle::moved(c, false, live, stored) == Some((c, there))
            &&& may && stored.exists ==> toggle::moved(c, true, live, stored) == Some((there, c))
            &&& !may || !live.exists ==> toggle::moved(c, false, live, stored) is None
            &&& !may || !stored.exists ==> toggle::moved(c, true, live, stored) is None
        }),
{
    lemma_in_the_store(seq![c]);
    assert(uninstall::all_in_store(seq![c])[0] == paths::in_store(c));
    assert(in_the_store(seq![c])[0] == ".spt-mod-installer/disabled/"@ + c);
}

/// One move is enough for success, whichever it is, and without any there is an error.
pub proof fn law_one_move_is_enough(r: Result<(), String>, done: Seq<bool>, i: int)
    requires
        toggle::tells_moves(r, done),
    ensures
        0 <= i < done.len() && done[i] ==> r is Ok,
        (forall|k: int| 0 <= k < done.len() ==> !#[trigger] done[k]) ==> (r matches Err(e) && e@
            == "That mod's files were not found where expected."@),
{
    if 0 <= i < done.len() && done[i] {
        assert(done.contains(true));
    }
}

/// The folders that are kept though they are empty are those that the game needs, and no others.
pub proof fn law_kept_folders_are_the_games(path: Seq<char>)
    ensures
        uninstall::is_guard(path) <==> path == "BepInEx"@ || path == "BepInEx/plugins"@ || path
            == "BepInEx/patchers"@ || path == "BepInEx/config"@ || path == "SPT"@ || path
            == "SPT/user"@ || path == "SPT/user/mods"@,
{
}

/// What is told in the end: of a recorded mod that manifests told of it, and whether it was on both
/// sides; of a disabled one whether manifests did; and of any other just its path.
pub proof fn law_results_tell_how_it_went(
    r: UninstallResult,
    paths: Seq<Seq<char>>,
    paths_gone: Seq<bool>,
    files: Seq<Seq<char>>,
    files_gone: Seq<bool>,
    flag: bool,
    rel: Seq<char>,
    k: int,
)
    requires
        paths.len() <= paths_gone.len(),
        files.len() <= files_gone.len(),
    ensures
        uninstall::tells_recorded(r, files, files_gone, flag) ==> r.via_manifest && r.spanned_both
            == flag && (0 <= k < files.len() && files_gone[k] && !text::occurs(files[k], ".."@)
            ==> text::texts(r.removed@).contains(files[k])),
        uninstall::tells_disabled(r, paths, paths_gone, files, files_gone, flag) ==> r.via_manifest
            == flag && !r.spanned_both && (0 <= k < paths.len() && paths_gone[k] && !text::occurs(
            paths[k],
            ".."@,
        ) ==> text::texts(r.removed@).contains(paths[k])) && (0 <= k < files.len() && files_gone[k]
            && !text::occurs(files[k], ".."@) ==> text::texts(r.removed@).contains(files[k])),
        uninstall::tells_external(r, rel) ==> !r.via_manifest && !r.spanned_both && text::texts(
            r.removed@,
        ) == seq![rel],
{
    law_what_went_is_reported(paths, paths_gone);
    law_what_went_is_reported(files, files_gone);
    let a = uninstall::deleted(paths, paths_gone);
    let b = uninstall::deleted(files, files_gone);
    if 0 <= k < paths.len() && paths_gone[k] && !text::occurs(paths[k], ".."@) {
        assert(a.contains(paths[k]));
        let i = choose|i: int| 0 <= i < a.len() && a[i] == paths[k];
        assert((a + b)[i] == paths[k]);
    }
    if 0 <= k < files.len() && files_gone[k] && !text::occurs(files[k], ".."@) {
        assert(b.contains(files[k]));
        let i = choose|i: int| 0 <= i < b.len() && b[i] == files[k];
        assert((a + b)[a.len() + i] == files[k]);
    }
}

/// What may be deleted: nothing that leads out of the game folder, nothing with two dots in its
/// path and nothing that is not there; everything else, a folder as such and anything else as a
/// file.
pub proof fn law_what_may_be_deleted(path: Seq<char>, found: Found, inside: bool)
    ensures
        !inside || text::occurs(path, ".."@) || found is Nothing ==> uninstall::removal(
            path,
            found,
            inside,
        ) is Nothing,
        inside && !text::occurs(path, ".."@) && found is Folder ==> uninstall::removal(
            path,
            found,
            inside,
        ) is Folder,
        inside && !text::occurs(path, ".."@) && (found is File || found is Other)
            ==> uninstall::removal(path, found, inside) is File,
        uninstall::is_removable(path, inside) <==> inside && !text::occurs(path, ".."@),
{
}

/// After a file is gone, the folders around it are tidied up, the innermost first: they are the
/// folders on its path, without the file itself.
pub proof fn law_folders_around_are_tidied(path: Seq<char>, k: int)
    requires
        0 <= k < uninstall::tidied(path).len(),
    ensures
        ({
            let cs = paths::components(path);
            &&& k < cs.len() - 1
            &&& uninstall::tidied(path)[k] == text::join(cs.take(cs.len() - 1 - k), "/"@)
        }),
{
    let cs = paths::components(path);
    let dir = cs.drop_last();
    uninstall::law_tidying_spares_the_game(dir);
    assert(uninstall::prunable(dir)[k] == text::join(dir.take(dir.len() - k), "/"@));
    assert(dir.take(dir.len() - k) =~= cs.take(cs.len() - 1 - k));
}

} // verus!
