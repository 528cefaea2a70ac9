//! What reporting, installing and recording a mod are for, told from the archive and from what is
//! written.
use crate::archive;
use crate::archive::{Decoder, ZipReport};
use crate::install;
use crate::install::{InstallResult, Installed, Placement};
use crate::json;
use crate::json::JsonView;
use crate::manifest;
use crate::manifest::{ManifestFile, ManifestView};
use crate::names;
use crate::resolver;
use crate::resolver::{Layout, MappedView, Resolution};
use crate::resolver_laws;
use crate::text;
use crate::unzip;
use crate::unzip::{EntryView, ExtractionView, UnpackedView};
use vstd::prelude::*;

verus! {

/// The bytes start like a 7z archive.
pub open spec fn starts_as_7z(b: Seq<u8>) -> bool {
    b.len() >= 6 && b[0] == 0x37 && b[1] == 0x7A && b[2] == 0xBC && b[3] == 0xAF && b[4] == 0x27
        && b[5] == 0x1C
}

/// The bytes start like a zip archive: `PK`, and three and four or five and six.
pub open spec fn starts_as_zip(b: Seq<u8>) -> bool {
    b.len() >= 4 && b[0] == 0x50 && b[1] == 0x4B && ((b[2] == 3 && b[3] == 4) || (b[2] == 5 && b[3]
        == 6))
}

/// The bytes start like a rar archive: `Rar!`.
pub open spec fn starts_as_rar(b: Seq<u8>) -> bool {
    b.len() >= 4 && b[0] == 0x52 && b[1] == 0x61 && b[2] == 0x72 && b[3] == 0x21
}

proof fn lemma_starts(b: Seq<u8>)
    ensures
        archive::seven_zip_magic().is_prefix_of(b) == starts_as_7z(b),
        (archive::zip_magic().is_prefix_of(b) || archive::empty_zip_magic().is_prefix_of(b))
            == starts_as_zip(b),
        archive::rar_magic().is_prefix_of(b) == starts_as_rar(b),
{
    lemma_prefix_bytes(archive::seven_zip_magic(), b);
    lemma_prefix_bytes(archive::zip_magic(), b);
    lemma_prefix_bytes(archive::empty_zip_magic(), b);
    lemma_prefix_bytes(archive::rar_magic(), b);
    let s = archive::seven_zip_magic();
    let z = archive::zip_magic();
    let e = archive::empty_zip_magic();
    let r = archive::rar_magic();
    assert(s[0] == 0x37 && s[1] == 0x7A && s[2] == 0xBC && s[3] == 0xAF && s[4] == 0x27 && s[5]
        == 0x1C);
    assert(z[0] == 0x50 && z[1] == 0x4B && z[2] == 3 && z[3] == 4);
    assert(e[0] == 0x50 && e[1] == 0x4B && e[2] == 5 && e[3] == 6);
    assert(r[0] == 0x52 && r[1] == 0x61 && r[2] == 0x72 && r[3] == 0x21);
}

proof fn lemma_prefix_bytes(m: Seq<u8>, b: Seq<u8>)
    ensures
        m.is_prefix_of(b) <==> m.len() <= b.len() && forall|i: int|
            0 <= i < m.len() ==> #[trigger] m[i] == b[i],
{
    if m.is_prefix_of(b) {
        assert forall|i: int| 0 <= i < m.len() implies #[trigger] m[i] == b[i] by {
            assert(b.subrange(0, m.len() as int)[i] == m[i]);
        }
    }
    if m.len() <= b.len() && forall|i: int| 0 <= i < m.len() ==> #[trigger] m[i] == b[i] {
        assert(b.subrange(0, m.len() as int) =~= m);
    }
}

/// An archive is unpacked by the decoder that its first bytes ask for, whatever follows them, and
/// what starts like no known archive is refused.
pub proof fn law_first_bytes_choose_the_decoder(r: Result<Decoder, String>, b: Seq<u8>)
    requires
        archive::decodes(r, b),
    ensures
        starts_as_7z(b) ==> r == Ok::<Decoder, String>(Decoder::SevenZip),
        starts_as_zip(b) ==> r == Ok::<Decoder, String>(Decoder::Zip),
        starts_as_rar(b) ==> r == Ok::<Decoder, String>(Decoder::Rar),
        !starts_as_7z(b) && !starts_as_zip(b) && !starts_as_rar(b) ==> (r matches Err(e) && e@
            == "Unrecognized archive format (expected .zip or .7z)."@),
{
    lemma_starts(b);
    reveal_strlit("7z");
    reveal_strlit("zip");
    reveal_strlit("rar");
    reveal_strlit("unknown");
    assert("7z"@.len() == 2 && "zip"@.len() == 3 && "rar"@.len() == 3 && "unknown"@.len() == 7);
    assert("zip"@[0] == 'z' && "rar"@[0] == 'r');
}

proof fn lemma_known_categories(l: Layout, mod_name: Seq<char>, files: Seq<Seq<char>>)
    ensures
        forall|k: int|
            0 <= k < resolver::placed(l, mod_name, files).len() ==> (
            #[trigger] resolver::placed(l, mod_name, files)[k]).category == "client"@
                || resolver::placed(l, mod_name, files)[k].category == "server"@,
{
    let ms = resolver::placed(l, mod_name, files);
    resolver_laws::law_every_file_is_accounted_for(l, mod_name, files);
    assert forall|k: int| 0 <= k < ms.len() implies (#[trigger] ms[k]).category == "client"@
        || ms[k].category == "server"@ by {
        resolver_laws::law_targets_are_canonical(l, mod_name, ms[k].original);
    }
}

/// A report tells what an installation would do: its client and its server files are the files that
/// the archive is resolved to, each in its part and in order, and it reports the same files as
/// unrecognised. It is a guess unless anchors tell the places or there is nothing to place.
pub proof fn law_reports_tell_the_resolution(
    r: ZipReport,
    q: Resolution,
    names: Seq<Seq<char>>,
    mod_name: Seq<char>,
)
    requires
        archive::reports(r, names, mod_name),
        resolver::resolves(q, names, mod_name),
    ensures
        resolver::mapped_views(r.client@) == resolver::mapped_views(q.mapped@).filter(
            |m: MappedView| m.category == "client"@,
        ),
        resolver::mapped_views(r.server@) == resolver::mapped_views(q.mapped@).filter(
            |m: MappedView| m.category == "server"@,
        ),
        r.client@.len() + r.server@.len() == q.mapped@.len(),
        text::texts(r.unrecognized@) == text::texts(q.unrecognized@),
        r.mod_name@ == mod_name,
        r.total_files == names.len(),
        q.mode@ == "bare-root"@ ==> r.mode@ == "bare-client"@,
        q.mode@ != "bare-root"@ ==> r.mode@ == q.mode@,
        r.heuristic <==> q.mode@ != "anchored"@ && q.mode@ != "empty"@,
        r.classification@ == if r.client@.len() > 0 && r.server@.len() > 0 {
            "mixed"@
        } else if r.client@.len() > 0 {
            "client"@
        } else if r.server@.len() > 0 {
            "server"@
        } else {
            "unknown"@
        },
{
    let files = resolver::files_of(names);
    let l = resolver::layout_of(files);
    let mapped = resolver::placed(l, mod_name, files);
    lemma_known_categories(l, mod_name, files);
    archive::lemma_two_categories(mapped);
    assert(resolver::mapped_views(q.mapped@).len() == q.mapped@.len());
    assert(resolver::mapped_views(r.client@).len() == r.client@.len());
    assert(resolver::mapped_views(r.server@).len() == r.server@.len());
    lemma_category_found(mapped, "client"@);
    lemma_category_found(mapped, "server"@);
    reveal_strlit("anchored");
    reveal_strlit("bare-server");
    reveal_strlit("bare-client");
    reveal_strlit("bare-root");
    reveal_strlit("empty");
    assert("bare-root"@.len() == 9 && "anchored"@.len() == 8 && "bare-server"@.len() == 11
        && "bare-client"@.len() == 11 && "empty"@.len() == 5);
}

proof fn lemma_category_found(ms: Seq<MappedView>, category: Seq<char>)
    ensures
        resolver::has_category(ms, category) <==> archive::of_category(ms, category).len() > 0,
{
    let keep = |m: MappedView| m.category == category;
    let kept = ms.filter(keep);
    if resolver::has_category(ms, category) {
        let i = choose|i: int| 0 <= i < ms.len() && (#[trigger] ms[i]).category == category;
        ms.lemma_filter_contains(keep, i);
    }
    if kept.len() > 0 {
        ms.lemma_filter_pred(keep, 0);
        ms.lemma_filter_contains_rev(keep, kept[0]);
        let i = choose|i: int| 0 <= i < ms.len() && ms[i] == kept[0];
        assert(ms[i].category == category);
    }
}

/// An installation goes by the resolution of the archive, and is refused only where there is
/// nothing that it could place.
pub proof fn law_plans_are_the_resolution(
    r: Result<Resolution, String>,
    q: Resolution,
    names: Seq<Seq<char>>,
    mod_name: Seq<char>,
)
    requires
        install::planned(r, names, mod_name),
        resolver::resolves(q, names, mod_name),
    ensures
        q.mapped@.len() > 0 ==> (r matches Ok(p) && p.mode@ == q.mode@ && resolver::mapped_views(
            p.mapped@,
        ) == resolver::mapped_views(q.mapped@) && text::texts(p.unrecognized@) == text::texts(
            q.unrecognized@,
        )),
        q.mapped@.len() == 0 ==> (r matches Err(e) && e@
            == "Nothing installable was found in this archive. Its layout is not recognised."@),
{
    assert(resolver::mapped_views(q.mapped@).len() == q.mapped@.len());
}

/// The mapped file is put into the game folder: its target stays inside, and holds no two dots.
pub open spec fn is_put(m: MappedView, p: Placement) -> bool {
    !(p is Outside) && !text::occurs(m.target, ".."@)
}

proof fn lemma_more_placements(ms: Seq<MappedView>, ps: Seq<Placement>, p: Placement)
    requires
        ms.len() <= ps.len(),
    ensures
        install::written(ms, ps.push(p)) == install::written(ms, ps),
        install::left_out(ms, ps.push(p)) == install::left_out(ms, ps),
        install::replaced(ms, ps.push(p)) == install::replaced(ms, ps),
    decreases ms.len(),
{
    if ms.len() > 0 {
        lemma_more_placements(ms.drop_last(), ps, p);
        assert(ps.push(p)[ms.len() - 1] == ps[ms.len() - 1]);
    }
}

/// Installing goes file by file, in order: one more file is installed at the end where it is put
/// into the game folder, and counted in its category; it is told as overwriting where it replaced
/// another, and as skipped where it was not put there.
pub proof fn law_installing_goes_file_by_file(
    ms: Seq<MappedView>,
    ps: Seq<Placement>,
    m: MappedView,
    p: Placement,
    category: Seq<char>,
)
    requires
        ms.len() == ps.len(),
    ensures
        install::written(ms.push(m), ps.push(p)) == if is_put(m, p) {
            install::written(ms, ps).push(m)
        } else {
            install::written(ms, ps)
        },
        install::left_out(ms.push(m), ps.push(p)) == if is_put(m, p) {
            install::left_out(ms, ps)
        } else {
            install::left_out(ms, ps).push(m.original)
        },
        install::replaced(ms.push(m), ps.push(p)) == if is_put(m, p) && p is Replaced {
            install::replaced(ms, ps).push(m.target)
        } else {
            install::replaced(ms, ps)
        },
        install::count_of(ms.push(m), category) == install::count_of(ms, category) + if m.category
            == category {
            1int
        } else {
            0
        },
{
    let all = ms.push(m);
    assert(all.drop_last() =~= ms);
    assert(all.last() == m);
    assert(ps.push(p)[all.len() - 1] == p);
    lemma_more_placements(ms, ps, p);
}

/// An installation succeeds where some file was put into the game folder, and tells of every mapped
/// file and of every unrecognised one; it fails only where no file was put there.
pub proof fn law_one_file_is_enough(
    r: Result<Installed, String>,
    ms: Seq<MappedView>,
    unrecognized: Seq<Seq<char>>,
    ps: Seq<Placement>,
    i: int,
)
    requires
        install::installs(r, ms, unrecognized, ps),
        ms.len() <= ps.len(),
        0 <= i < ms.len(),
        is_put(ms[i], ps[i]),
    ensures
        r matches Ok(d) && resolver::mapped_views(d.files@).contains(ms[i]) && d.files@.len()
            + d.skipped@.len() == ms.len() + unrecognized.len() && (ps[i] is Replaced
            ==> text::texts(d.overwritten@).contains(ms[i].target)) && (forall|k: int|
            0 <= k < unrecognized.len() ==> text::texts(d.skipped@).contains(
                #[trigger] unrecognized[k],
            )),
{
    install::law_written_or_skipped(ms, ps);
    assert(install::is_written(ms[i], ps[i]));
    assert(install::written(ms, ps).contains(ms[i]));
    if let Ok(d) = r {
        assert(resolver::mapped_views(d.files@).len() == d.files@.len());
        assert(text::texts(d.skipped@).len() == d.skipped@.len());
        if ps[i] is Replaced {
            lemma_replaced_is_told(ms, ps, i);
        }
        let left = install::left_out(ms, ps);
        assert forall|k: int| 0 <= k < unrecognized.len() implies text::texts(d.skipped@).contains(
            #[trigger] unrecognized[k],
        ) by {
            assert((left + unrecognized)[left.len() + k] == unrecognized[k]);
        }
    }
}

proof fn lemma_replaced_is_told(ms: Seq<MappedView>, ps: Seq<Placement>, i: int)
    requires
        ms.len() <= ps.len(),
        0 <= i < ms.len(),
        is_put(ms[i], ps[i]),
        ps[i] is Replaced,
    ensures
        install::replaced(ms, ps).contains(ms[i].target),
    decreases ms.len(),
{
    let before = install::replaced(ms.drop_last(), ps);
    let all = install::replaced(ms, ps);
    if i < ms.len() - 1 {
        assert(ms.drop_last()[i] == ms[i]);
        lemma_replaced_is_told(ms.drop_last(), ps, i);
        let k = choose|k: int| 0 <= k < before.len() && before[k] == ms[i].target;
        assert(all[k] == ms[i].target);
    } else {
        assert(all[all.len() - 1] == ms[i].target);
    }
}

/// Where no file was put into the game folder, the installation fails.
pub proof fn law_no_file_is_a_failure(
    r: Result<Installed, String>,
    ms: Seq<MappedView>,
    unrecognized: Seq<Seq<char>>,
    ps: Seq<Placement>,
)
    requires
        install::installs(r, ms, unrecognized, ps),
        ms.len() <= ps.len(),
        forall|i: int| 0 <= i < ms.len() ==> !is_put(#[trigger] ms[i], ps[i]),
    ensures
        r matches Err(e) && e@
            == "Nothing was installed (no files mapped to a valid SPT location)."@,
{
    install::law_written_or_skipped(ms, ps);
    let w = install::written(ms, ps);
    if w.len() > 0 {
        assert(install::target_allowed(w[0].target));
        let i = choose|i: int|
            0 <= i < ms.len() && ms[i] == w[0] && #[trigger] install::is_written(ms[i], ps[i]);
        assert(!is_put(ms[i], ps[i]));
    }
}

proof fn lemma_manifest_keys()
    ensures
        "mod_name"@ != "source"@,
        "mod_name"@ != "installed_at_ms"@,
        "mod_name"@ != "classification"@,
        "mod_name"@ != "client_count"@,
        "mod_name"@ != "server_count"@,
        "mod_name"@ != "files"@,
        "source"@ != "installed_at_ms"@,
        "source"@ != "classification"@,
        "source"@ != "client_count"@,
        "source"@ != "server_count"@,
        "source"@ != "files"@,
        "installed_at_ms"@ != "classification"@,
        "installed_at_ms"@ != "client_count"@,
        "installed_at_ms"@ != "server_count"@,
        "installed_at_ms"@ != "files"@,
        "classification"@ != "client_count"@,
        "classification"@ != "server_count"@,
        "classification"@ != "files"@,
        "client_count"@ != "server_count"@,
        "client_count"@ != "files"@,
        "server_count"@ != "files"@,
        "original"@ != "target"@,
        "original"@ != "category"@,
        "target"@ != "category"@,
{
    reveal_strlit("mod_name");
    reveal_strlit("source");
    reveal_strlit("installed_at_ms");
    reveal_strlit("classification");
    reveal_strlit("client_count");
    reveal_strlit("server_count");
    reveal_strlit("files");
    reveal_strlit("original");
    reveal_strlit("target");
    reveal_strlit("category");
    assert("mod_name"@.len() == 8 && "source"@.len() == 6 && "installed_at_ms"@.len() == 15
        && "classification"@.len() == 14 && "client_count"@.len() == 12 && "server_count"@.len()
        == 12 && "files"@.len() == 5);
    assert("client_count"@[0] == 'c' && "server_count"@[0] == 's');
    assert("original"@[0] == 'o' && "target"@[0] == 't' && "category"@[0] == 'c');
}

/// A manifest records the whole installation: the mod's name, where it came from, when, what it is,
/// the counts, and of every file where it was in the archive, where it went and what it is.
pub proof fn law_manifests_record_the_installation(
    mod_name: Seq<char>,
    source: Seq<char>,
    at: u64,
    classification: Seq<char>,
    client_count: u64,
    server_count: u64,
    files: Seq<MappedView>,
    k: int,
)
    ensures
        ({
            let t = manifest::manifest_tree(
                mod_name,
                source,
                at,
                classification,
                client_count,
                server_count,
                files,
            );
            &&& json::str_member(t, "mod_name"@) == Some(mod_name)
            &&& json::str_member(t, "source"@) == Some(source)
            &&& json::u64_member(t, "installed_at_ms"@) == Some(at)
            &&& json::str_member(t, "classification"@) == Some(classification)
            &&& json::u64_member(t, "client_count"@) == Some(client_count)
            &&& json::u64_member(t, "server_count"@) == Some(server_count)
            &&& json::array_member(t, "files"@) matches Some(fs) && fs.len() == files.len() && (0
                <= k < files.len() ==> json::str_member(fs[k], "original"@) == Some(
                files[k].original,
            ) && json::str_member(fs[k], "target"@) == Some(files[k].target) && json::str_member(
                fs[k],
                "category"@,
            ) == Some(files[k].category))
        }),
{
    lemma_manifest_keys();
}

/// A manifest is read by its members: what it does not tell is unknown, empty or zero, and files
/// without a target do not count. Targets have forward slashes.
pub proof fn law_manifests_are_read_by_their_members(
    path: Seq<char>,
    j: JsonView,
    fs: Seq<JsonView>,
    f: JsonView,
)
    ensures
        ({
            let m = manifest::manifest_of(path, j);
            &&& m.path == path
            &&& m.forge_id == json::u64_member(j, "forge_id"@)
            &&& m.forge_version == json::str_member(j, "forge_version"@)
            &&& m.installed_at == if json::u64_member(j, "installed_at_ms"@) is Some {
                json::u64_member(j, "installed_at_ms"@)->0 as u128
            } else {
                0
            }
            &&& json::array_member(j, "files"@) is None ==> m.files.len() == 0
            &&& json::array_member(j, "files"@) == Some(fs) ==> m.files
                == manifest::recorded_targets(fs)
        }),
        manifest::recorded_targets(fs.push(f)) == match json::str_member(f, "target"@) {
            Some(t) => manifest::recorded_targets(fs).push(text::slashed(t)),
            None => manifest::recorded_targets(fs),
        },
        manifest::recorded_targets(Seq::<JsonView>::empty()).len() == 0,
{
    let all = fs.push(f);
    assert(all.drop_last() =~= fs);
    assert(all.last() == f);
}

/// The manifests are those files of the manifest folder whose names end with `.json` and whose
/// texts can be read as JSON, in order.
pub proof fn law_manifests_are_json_files(files: Seq<ManifestFile>, f: ManifestFile)
    ensures
        ({
            let before = manifest::manifests_in(files);
            let all = manifest::manifests_in(files.push(f));
            if names::extension(f.name@) == Some("json"@) && (f.text matches Some(t)
                && json::parsed(t@) is Ok) {
                all == before.push(manifest::manifest_of(f.path@, json::parsed((f.text->0)@)->Ok_0))
            } else {
                all == before
            }
        }),
        manifest::manifests_in(Seq::<ManifestFile>::empty()).len() == 0,
{
    let all = files.push(f);
    assert(all.drop_last() =~= files);
    assert(all.last() == f);
}

/// Exactly the other manifests of the same mod are superseded: those with its Forge id that are not
/// the one to keep.
pub proof fn law_other_manifests_are_superseded(
    ms: Seq<ManifestView>,
    id: u64,
    keep: Seq<char>,
    i: int,
)
    ensures
        manifest::superseded(ms, id, keep).contains(i) <==> 0 <= i < ms.len() && ms[i].forge_id
            == Some(id) && ms[i].path != keep,
    decreases ms.len(),
{
    let all = manifest::superseded(ms, id, keep);
    if ms.len() > 0 {
        let before = manifest::superseded(ms.drop_last(), id, keep);
        law_other_manifests_are_superseded(ms.drop_last(), id, keep, i);
        if before.contains(i) {
            let k = choose|k: int| 0 <= k < before.len() && before[k] == i;
            assert(all[k] == i);
            assert(ms.drop_last()[i] == ms[i]);
        }
        if all.contains(i) {
            let k = choose|k: int| 0 <= k < all.len() && all[k] == i;
            if k < before.len() {
                assert(before[k] == i);
                assert(before.contains(i));
            }
        }
        if i == ms.len() - 1 && ms[i].forge_id == Some(id) && ms[i].path != keep {
            assert(all[all.len() - 1] == i);
        }
        if 0 <= i < ms.len() - 1 {
            assert(ms.drop_last()[i] == ms[i]);
        }
    }
}

proof fn lemma_more_flags(entries: Seq<EntryView>, inside: Seq<bool>, b: bool)
    requires
        entries.len() <= inside.len(),
    ensures
        unzip::unpack(entries, inside.push(b)) == unzip::unpack(entries, inside),
    decreases entries.len(),
{
    if entries.len() > 0 {
        lemma_more_flags(entries.drop_last(), inside, b);
        assert(inside.push(b)[entries.len() - 1] == inside[entries.len() - 1]);
    }
}

/// A zip archive is unpacked entry by entry, in order. Once unpacking has ended, nothing follows.
/// An entry that cannot be looked at ends it; one that leads out of the folder or holds two dots is
/// passed over; a folder and a file are unpacked to their names, with forward slashes, and a file
/// with what it holds.
pub proof fn law_unpacking_goes_entry_by_entry(
    entries: Seq<EntryView>,
    inside: Seq<bool>,
    e: EntryView,
    b: bool,
)
    requires
        entries.len() == inside.len(),
    ensures
        ({
            let all = unzip::unpack(entries.push(e), inside.push(b));
            match unzip::unpack(entries, inside) {
                ExtractionView::Done(before) => match e.head {
                    Err(told) => all == ExtractionView::Failed("zip entry: "@ + told),
                    Ok((name, is_folder, method)) => if !b || text::occurs(
                        text::slashed(name),
                        ".."@,
                    ) {
                        all == ExtractionView::Done(before)
                    } else if is_folder {
                        all == ExtractionView::Done(
                            before.push(UnpackedView::Folder(text::slashed(name))),
                        )
                    } else if method == 14 {
                        all is Lzma
                    } else {
                        match e.data {
                            Ok(d) => all == ExtractionView::Done(
                                before.push(UnpackedView::File(text::slashed(name), d)),
                            ),
                            Err(told) => all == ExtractionView::Failed("read zip entry: "@ + told),
                        }
                    },
                },
                other => all == other,
            }
        }),
        unzip::unpack(Seq::<EntryView>::empty(), Seq::<bool>::empty()) == ExtractionView::Done(
            Seq::<UnpackedView>::empty(),
        ),
{
    let all = entries.push(e);
    assert(all.drop_last() =~= entries);
    assert(all.last() == e);
    assert(inside.push(b)[all.len() - 1] == b);
    lemma_more_flags(entries, inside, b);
}

/// What is left out of an archive: an entry with two dots anywhere in its path, however its slashes
/// lean, and no other.
pub proof fn law_two_dots_are_left_out(a: Seq<char>, b: Seq<char>)
    ensures
        !archive::entry_allowed(a + ".."@ + b),
        !text::occurs(text::slashed(a), ".."@) ==> archive::entry_allowed(a),
{
    reveal_strlit("..");
    let whole = text::slashed(a + ".."@ + b);
    assert(whole.subrange(a.len() as int, a.len() as int + 2) =~= ".."@);
    assert(text::occurs_at(whole, ".."@, a.len() as int));
}

/// What is told in the end adds up: every mapped or unrecognised file is told as installed or as
/// skipped, what was overwritten was installed, and the counts are those of the installed files.
pub proof fn law_results_add_up(
    r: InstallResult,
    done: Installed,
    manifest_path: String,
    ms: Seq<MappedView>,
    unrecognized: Seq<Seq<char>>,
    ps: Seq<Placement>,
    f: Seq<char>,
)
    requires
        install::tells_all(r, done, manifest_path),
        install::installs(Ok::<Installed, String>(done), ms, unrecognized, ps),
        ms.len() <= ps.len(),
    ensures
        r.manifest_path@ == manifest_path@,
        r.installed@.len() + r.skipped@.len() == ms.len() + unrecognized.len(),
        text::texts(r.overwritten@).contains(f) ==> exists|k: int|
            0 <= k < r.installed@.len() && (#[trigger] r.installed@[k]).target@ == f,
        unrecognized.contains(f) ==> text::texts(r.skipped@).contains(f),
        r.client_count == install::count_of(resolver::mapped_views(r.installed@), "client"@),
        r.server_count == install::count_of(resolver::mapped_views(r.installed@), "server"@),
{
    install::law_written_or_skipped(ms, ps);
    let w = install::written(ms, ps);
    assert(resolver::mapped_views(r.installed@) == w);
    assert(w.len() == r.installed@.len());
    assert(text::texts(r.skipped@).len() == r.skipped@.len());
    if text::texts(r.overwritten@).contains(f) {
        lemma_replaced_is_written(ms, ps, f);
        let k = choose|k: int| 0 <= k < w.len() && (#[trigger] w[k]).target == f;
        assert(r.installed@[k]@ == w[k]);
    }
    if unrecognized.contains(f) {
        let left = install::left_out(ms, ps);
        let k = choose|k: int| 0 <= k < unrecognized.len() && unrecognized[k] == f;
        assert((left + unrecognized)[left.len() + k] == f);
    }
}

proof fn lemma_replaced_is_written(ms: Seq<MappedView>, ps: Seq<Placement>, f: Seq<char>)
    requires
        install::replaced(ms, ps).contains(f),
    ensures
        exists|k: int|
            0 <= k < install::written(ms, ps).len() && (#[trigger] install::written(
                ms,
                ps,
            )[k]).target == f,
    decreases ms.len(),
{
    if ms.len() > 0 {
        let before = install::replaced(ms.drop_last(), ps);
        let all = install::replaced(ms, ps);
        let w0 = install::written(ms.drop_last(), ps);
        let w = install::written(ms, ps);
        let i = choose|i: int| 0 <= i < all.len() && all[i] == f;
        if i < before.len() {
            assert(before[i] == f);
            lemma_replaced_is_written(ms.drop_last(), ps, f);
            let k = choose|k: int| 0 <= k < w0.len() && (#[trigger] w0[k]).target == f;
            assert(w[k].target == f);
        } else {
            assert(w[w.len() - 1].target == f);
        }
    }
}

/// What is written and what is unpacked: nothing that leads out of its folder and nothing with two
/// dots in its path, and everything else, a folder as such; of a rar archive the files alone.
pub proof fn law_what_is_written_and_unpacked(
    m: MappedView,
    name: Seq<char>,
    is_dir: bool,
    inside: bool,
)
    ensures
        install::is_writable(m, inside) <==> inside && !text::occurs(m.target, ".."@),
        !inside || text::occurs(text::slashed(name), ".."@) ==> archive::unpacking(
            name,
            is_dir,
            inside,
        ) is Skip,
        inside && !text::occurs(text::slashed(name), ".."@) && is_dir ==> archive::unpacking(
            name,
            is_dir,
            inside,
        ) is Folder,
        inside && !text::occurs(text::slashed(name), ".."@) && !is_dir ==> archive::unpacking(
            name,
            is_dir,
            inside,
        ) is File,
        archive::rar_unpacked(name, !is_dir) <==> !is_dir && !text::occurs(
            text::slashed(name),
            ".."@,
        ),
{
}

/// The Forge id and version are recorded in every manifest that can be read, next to all that it
/// tells already; read again, it tells the id, the version and the same files.
pub proof fn law_forge_ids_are_recorded(
    r: Option<String>,
    source: Seq<char>,
    id: u64,
    version: Option<Seq<char>>,
    members: Map<Seq<char>, JsonView>,
    path: Seq<char>,
    key: Seq<char>,
)
    requires
        manifest::records_forge(r, source, id, version),
        json::parsed(source) == Ok::<JsonView, Seq<char>>(JsonView::Object(members)),
    ensures
        r is Some,
        ({
            let t = manifest::forge_tree(members, id, version);
            let m = manifest::manifest_of(path, JsonView::Object(t));
            let was = manifest::manifest_of(path, JsonView::Object(members));
            &&& (r->0)@ == json::pretty(JsonView::Object(t))
            &&& m.forge_id == Some(id)
            &&& version is Some ==> m.forge_version == version
            &&& version is None ==> m.forge_version == was.forge_version
            &&& m.files == was.files && m.installed_at == was.installed_at
            &&& key != "forge_id"@ && key != "forge_version"@ ==> json::get(
                JsonView::Object(t),
                key,
            ) == json::get(JsonView::Object(members), key)
        }),
{
    manifest::law_forge_record_reads_back(path, members, id, version);
}

} // verus!
