//! Installing an unpacked archive: which files are put into the game folder, and what is told and
//! recorded about it.
use crate::archive;
use crate::archive::ZipReport;
use crate::resolver;
use crate::resolver::{Layout, MappedFile, MappedView, Resolution};
use crate::text;
use vstd::prelude::*;

verus! {

/// What became of a mapped file when its target was looked at.
#[derive(Clone, Copy, PartialEq, Eq, Structural)]
pub enum Placement {
    /// The target lies outside the game folder.
    Outside,
    /// The file was written where there was none.
    New,
    /// The file was written over another one.
    Replaced,
}

/// What an installation did.
pub struct InstallResult {
    pub installed: Vec<MappedFile>,
    pub overwritten: Vec<String>,
    pub skipped: Vec<String>,
    pub client_count: usize,
    pub server_count: usize,
    pub manifest_path: String,
}

/// What an installation did, before its manifest has been written.
pub struct Installed {
    pub files: Vec<MappedFile>,
    pub overwritten: Vec<String>,
    pub skipped: Vec<String>,
    pub client_count: usize,
    pub server_count: usize,
    pub classification: String,
}

/// `r` is the plan to install files with these names.
pub open spec fn planned(
    r: Result<Resolution, String>,
    names: Seq<Seq<char>>,
    mod_name: Seq<char>,
) -> bool {
    let files = resolver::files_of(names);
    let l = resolver::layout_of(files);
    let mapped = resolver::placed(l, mod_name, files);
    match r {
        Ok(res) => {
            &&& mapped.len() > 0
            &&& res.mode@ == resolver::mode_name(l)
            &&& resolver::mapped_views(res.mapped@) == mapped
            &&& text::texts(res.unrecognized@) == resolver::unplaced(l, mod_name, files)
        },
        Err(e) => mapped.len() == 0 && e@
            == "Nothing installable was found in this archive. Its layout is not recognised."@,
    }
}

/// The plan to install the files with these names; an error where none of them is recognised.
pub fn plan_install(names: &[String], mod_name: &str) -> (r: Result<Resolution, String>)
    ensures
        planned(r, text::texts(names@), mod_name@),
{
    let res = resolver::resolve_all(names, mod_name);
    assert(resolver::mapped_views(res.mapped@).len() == res.mapped@.len());
    if res.mapped.len() == 0 {
        Err(
            text::owned(
                "Nothing installable was found in this archive. Its layout is not recognised.",
            ),
        )
    } else {
        Ok(res)
    }
}

/// The target may be written: two dots stand nowhere in it.
pub open spec fn target_allowed(target: Seq<char>) -> bool {
    !text::occurs(target, ".."@)
}

/// The file is written.
pub open spec fn is_written(m: MappedView, p: Placement) -> bool {
    target_allowed(m.target) && p != Placement::Outside
}

/// The mapped file is to be written.
pub open spec fn is_writable(m: MappedView, inside: bool) -> bool {
    target_allowed(m.target) && inside
}

/// Whether a mapped file is to be written, where `inside` tells whether its target, joined to the
/// game root, stays in the game folder.
pub fn may_write(m: &MappedFile, inside: bool) -> (r: bool)
    ensures
        r == is_writable(m@, inside),
{
    !text::contains(m.target.as_str(), "..") && inside
}

/// The files that were written, in order.
pub open spec fn written(ms: Seq<MappedView>, ps: Seq<Placement>) -> Seq<MappedView>
    decreases ms.len(),
{
    if ms.len() == 0 {
        Seq::empty()
    } else {
        let before = written(ms.drop_last(), ps);
        if is_written(ms.last(), ps[ms.len() - 1]) {
            before.push(ms.last())
        } else {
            before
        }
    }
}

/// The archive paths of the mapped files that were not written, in order.
pub open spec fn left_out(ms: Seq<MappedView>, ps: Seq<Placement>) -> Seq<Seq<char>>
    decreases ms.len(),
{
    if ms.len() == 0 {
        Seq::empty()
    } else {
        let before = left_out(ms.drop_last(), ps);
        if is_written(ms.last(), ps[ms.len() - 1]) {
            before
        } else {
            before.push(ms.last().original)
        }
    }
}

/// The targets that were written over another file, in order.
pub open spec fn replaced(ms: Seq<MappedView>, ps: Seq<Placement>) -> Seq<Seq<char>>
    decreases ms.len(),
{
    if ms.len() == 0 {
        Seq::empty()
    } else {
        let before = replaced(ms.drop_last(), ps);
        let p = ps[ms.len() - 1];
        if is_written(ms.last(), p) && p == Placement::Replaced {
            before.push(ms.last().target)
        } else {
            before
        }
    }
}

/// How many of the files are of the category.
pub open spec fn count_of(ms: Seq<MappedView>, category: Seq<char>) -> nat
    decreases ms.len(),
{
    if ms.len() == 0 {
        0
    } else {
        count_of(ms.drop_last(), category) + if ms.last().category == category {
            1nat
        } else {
            0nat
        }
    }
}

proof fn lemma_count_bound(ms: Seq<MappedView>, category: Seq<char>)
    ensures
        count_of(ms, category) <= ms.len(),
    decreases ms.len(),
{
    if ms.len() > 0 {
        lemma_count_bound(ms.drop_last(), category);
    }
}

proof fn lemma_client_is_not_server()
    ensures
        "client"@ != "server"@,
{
    reveal_strlit("client");
    reveal_strlit("server");
    assert("client"@[0] == 'c' && "server"@[0] == 's');
}

/// `r` tells what installing the mapped files did, given what became of each of them.
pub open spec fn installs(
    r: Result<Installed, String>,
    ms: Seq<MappedView>,
    unrecognized: Seq<Seq<char>>,
    ps: Seq<Placement>,
) -> bool {
    let done = written(ms, ps);
    match r {
        Ok(d) => {
            &&& done.len() > 0
            &&& resolver::mapped_views(d.files@) == done
            &&& text::texts(d.overwritten@) == replaced(ms, ps)
            &&& text::texts(d.skipped@) == left_out(ms, ps) + unrecognized
            &&& d.client_count == count_of(done, "client"@)
            &&& d.server_count == count_of(done, "server"@)
            &&& d.classification@ == resolver::classification(done)
        },
        Err(e) => done.len() == 0 && e@
            == "Nothing was installed (no files mapped to a valid SPT location)."@,
    }
}

/// What installing a resolved archive did, given what became of each mapped file: an error where
/// no file was written.
pub fn install_from_extracted(res: Resolution, placements: &[Placement]) -> (r: Result<
    Installed,
    String,
>)
    requires
        placements@.len() == res.mapped@.len(),
    ensures
        installs(
            r,
            resolver::mapped_views(res.mapped@),
            text::texts(res.unrecognized@),
            placements@,
        ),
{
    let ghost ms = resolver::mapped_views(res.mapped@);
    let ghost ps = placements@;
    let mut files: Vec<MappedFile> = Vec::new();
    let mut overwritten: Vec<String> = Vec::new();
    let mut skipped: Vec<String> = Vec::new();
    let mut client_count: usize = 0;
    let mut server_count: usize = 0;
    proof {
        assert(ms.take(0) =~= Seq::empty());
        assert(resolver::mapped_views(files@) =~= Seq::empty());
        assert(text::texts(overwritten@) =~= Seq::empty());
        assert(text::texts(skipped@) =~= Seq::empty());
        lemma_client_is_not_server();
    }
    for i in 0..res.mapped.len()
        invariant
            ms == resolver::mapped_views(res.mapped@),
            ps == placements@,
            ps.len() == ms.len(),
            ms.len() == res.mapped@.len(),
            "client"@ != "server"@,
            resolver::mapped_views(files@) == written(ms.take(i as int), ps),
            files@.len() <= i,
            text::texts(overwritten@) == replaced(ms.take(i as int), ps),
            text::texts(skipped@) == left_out(ms.take(i as int), ps),
            client_count == count_of(written(ms.take(i as int), ps), "client"@),
            server_count == count_of(written(ms.take(i as int), ps), "server"@),
    {
        let m = &res.mapped[i];
        let p = placements[i];
        let ghost next = ms.take(i + 1);
        proof {
            assert(next.drop_last() =~= ms.take(i as int));
            assert(next.last() == m@);
            lemma_count_bound(written(ms.take(i as int), ps), "client"@);
            lemma_count_bound(written(ms.take(i as int), ps), "server"@);
            assert(resolver::mapped_views(files@).len() == files@.len());
        }
        let ghost done = written(ms.take(i as int), ps);
        if may_write(m, p != Placement::Outside) {
            if p == Placement::Replaced {
                overwritten.push(m.target.clone());
            }
            if text::same(m.category.as_str(), "client") {
                client_count = client_count + 1;
            } else if text::same(m.category.as_str(), "server") {
                server_count = server_count + 1;
            }
            files.push(m.clone());
            assert(resolver::mapped_views(files@) =~= done.push(m@));
            assert(done.push(m@).drop_last() =~= done);
        } else {
            let ghost was = text::texts(skipped@);
            skipped.push(m.original.clone());
            assert(text::texts(skipped@) =~= was.push(m@.original));
        }
    }
    proof {
        assert(ms.take(ms.len() as int) =~= ms);
        assert(resolver::mapped_views(files@).len() == files@.len());
    }
    let ghost out = text::texts(skipped@);
    assert(text::texts(res.unrecognized@).take(0) =~= Seq::empty());
    for i in 0..res.unrecognized.len()
        invariant
            text::texts(skipped@) == out + text::texts(res.unrecognized@).take(i as int),
    {
        let ghost us = text::texts(res.unrecognized@);
        let ghost was = text::texts(skipped@);
        skipped.push(res.unrecognized[i].clone());
        assert(text::texts(skipped@) =~= was.push(us[i as int]));
        assert(us.take(i + 1) =~= us.take(i as int).push(us[i as int]));
        assert(text::texts(skipped@) =~= out + us.take(i + 1));
    }
    assert(text::texts(res.unrecognized@).take(res.unrecognized@.len() as int) =~= text::texts(
        res.unrecognized@,
    ));
    if files.len() == 0 {
        return Err(
            text::owned("Nothing was installed (no files mapped to a valid SPT location)."),
        );
    }
    let classification = resolver::classify(files.as_slice());
    Ok(Installed { files, overwritten, skipped, client_count, server_count, classification })
}

/// `r` tells all that an installation did, and where its manifest is.
pub open spec fn tells_all(r: InstallResult, done: Installed, manifest_path: String) -> bool {
    &&& r.installed == done.files
    &&& r.overwritten == done.overwritten
    &&& r.skipped == done.skipped
    &&& r.client_count == done.client_count
    &&& r.server_count == done.server_count
    &&& r.manifest_path == manifest_path
}

/// The result of an installation whose manifest is at `manifest_path`.
pub fn install_result(done: Installed, manifest_path: String) -> (r: InstallResult)
    ensures
        tells_all(r, done, manifest_path),
{
    InstallResult {
        installed: done.files,
        overwritten: done.overwritten,
        skipped: done.skipped,
        client_count: done.client_count,
        server_count: done.server_count,
        manifest_path,
    }
}

/// The plan to install an archive from memory, given what unpacking it gave: the names of its
/// files, or an error.
pub fn build_install(extracted: Result<Vec<String>, String>, mod_name: &str) -> (r: Result<
    Resolution,
    String,
>)
    ensures
        match extracted {
            Ok(names) => planned(r, text::texts(names@), mod_name@),
            Err(e) => r matches Err(told) && told@ == e@,
        },
{
    match extracted {
        Ok(names) => plan_install(names.as_slice(), mod_name),
        Err(e) => Err(e),
    }
}

/// The plan to install an archive from disk, given what unpacking it gave: the names of its
/// files, or an error.
pub fn build_install_path(extracted: Result<Vec<String>, String>, mod_name: &str) -> (r: Result<
    Resolution,
    String,
>)
    ensures
        match extracted {
            Ok(names) => planned(r, text::texts(names@), mod_name@),
            Err(e) => r matches Err(told) && told@ == e@,
        },
{
    build_install(extracted, mod_name)
}

/// Every mapped file is either written or reported as skipped, and nothing is written whose
/// target lies outside the game folder or holds two dots. Each file has its placement.
#[verifier::spinoff_prover]
pub proof fn law_written_or_skipped(ms: Seq<MappedView>, ps: Seq<Placement>)
    requires
        ms.len() <= ps.len(),
    ensures
        written(ms, ps).len() + left_out(ms, ps).len() == ms.len(),
        forall|i: int| #![trigger ms[i]]
            0 <= i < ms.len() ==> if is_written(ms[i], ps[i]) {
                written(ms, ps).contains(ms[i])
            } else {
                left_out(ms, ps).contains(ms[i].original)
            },
        forall|k: int| #![trigger written(ms, ps)[k]]
            0 <= k < written(ms, ps).len() ==> target_allowed(written(ms, ps)[k].target)
                && exists|i: int|
                0 <= i < ms.len() && ms[i] == written(ms, ps)[k] && #[trigger] is_written(
                    ms[i],
                    ps[i],
                ),
    decreases ms.len(),
{
    if ms.len() > 0 {
        let before = ms.drop_last();
        let last = ms.len() - 1;
        let w0 = written(before, ps);
        let w = written(ms, ps);
        let o0 = left_out(before, ps);
        let o = left_out(ms, ps);
        law_written_or_skipped(before, ps);
        assert forall|i: int| #![trigger ms[i]] 0 <= i < ms.len() implies if is_written(
            ms[i],
            ps[i],
        ) {
            w.contains(ms[i])
        } else {
            o.contains(ms[i].original)
        } by {
            if i < last {
                assert(before[i] == ms[i]);
                if is_written(ms[i], ps[i]) {
                    assert(w0.contains(ms[i]));
                    let k = choose|k: int| 0 <= k < w0.len() && w0[k] == ms[i];
                    assert(w[k] == ms[i]);
                } else {
                    assert(o0.contains(ms[i].original));
                    let k = choose|k: int| 0 <= k < o0.len() && o0[k] == ms[i].original;
                    assert(o[k] == ms[i].original);
                }
            } else if is_written(ms[i], ps[i]) {
                assert(w[w.len() - 1] == ms[i]);
            } else {
                assert(o[o.len() - 1] == ms[i].original);
            }
        }
        assert forall|k: int| #![trigger w[k]] 0 <= k < w.len() implies target_allowed(w[k].target)
            && exists|i: int|
            0 <= i < ms.len() && ms[i] == w[k] && #[trigger] is_written(ms[i], ps[i]) by {
            if k < w0.len() {
                assert(w[k] == w0[k]);
                let i = choose|i: int|
                    0 <= i < before.len() && before[i] == w0[k] && #[trigger] is_written(
                        before[i],
                        ps[i],
                    );
                assert(ms[i] == before[i]);
                assert(is_written(ms[i], ps[i]));
            } else {
                assert(w[k] == ms[last]);
                assert(is_written(ms[last], ps[last]));
            }
        }
    }
}

/// The client and the server count add up to the number of files, since the resolver knows no
/// third category.
pub proof fn law_counts_add_up(ms: Seq<MappedView>)
    requires
        forall|k: int|
            0 <= k < ms.len() ==> (#[trigger] ms[k]).category == "client"@ || ms[k].category
                == "server"@,
    ensures
        count_of(ms, "client"@) + count_of(ms, "server"@) == ms.len(),
    decreases ms.len(),
{
    lemma_client_is_not_server();
    if ms.len() > 0 {
        let before = ms.drop_last();
        assert forall|k: int| 0 <= k < before.len() implies (#[trigger] before[k]).category
            == "client"@ || before[k].category == "server"@ by {
            assert(before[k] == ms[k]);
        }
        assert(ms[ms.len() - 1] == ms.last());
        law_counts_add_up(before);
    }
}

/// How an archive came to the manager.
#[derive(Clone, Copy, PartialEq, Eq, Structural)]
pub enum Origin {
    Local,
    DragDrop,
    ModList,
}

/// What a manifest says of the source of the files.
pub open spec fn source_of(name: Seq<char>, origin: Origin) -> Seq<char> {
    name + match origin {
        Origin::Local => " (local)"@,
        Origin::DragDrop => " (drag-drop)"@,
        Origin::ModList => " (mod list)"@,
    }
}

pub fn source_label(name: &str, origin: Origin) -> (r: String)
    ensures
        r@ == source_of(name@, origin),
{
    match origin {
        Origin::Local => text::concat(name, " (local)"),
        Origin::DragDrop => text::concat(name, " (drag-drop)"),
        Origin::ModList => text::concat(name, " (mod list)"),
    }
}

/// What is shown of an archive before it is installed is what is planned to be installed.
pub proof fn law_report_tells_the_plan(
    report: ZipReport,
    plan: Result<Resolution, String>,
    names: Seq<Seq<char>>,
    mod_name: Seq<char>,
)
    requires
        archive::reports(report, names, mod_name),
        planned(plan, names, mod_name),
    ensures
        match plan {
            Ok(res) => {
                let ms = resolver::mapped_views(res.mapped@);
                &&& exists|l: Layout|
                    res.mode@ == resolver::mode_name(l) && report.mode@ == #[trigger] archive::shown_mode(
                        l,
                    )
                &&& resolver::mapped_views(report.client@) == archive::of_category(ms, "client"@)
                &&& resolver::mapped_views(report.server@) == archive::of_category(ms, "server"@)
                &&& text::texts(report.unrecognized@) == text::texts(res.unrecognized@)
            },
            Err(_) => report.client@.len() == 0 && report.server@.len() == 0,
        },
{
    if plan is Err {
        let files = resolver::files_of(names);
        let mapped = resolver::placed(resolver::layout_of(files), mod_name, files);
        archive::law_report_counts_every_file(report, names, mod_name);
        crate::resolver_laws::law_every_file_is_accounted_for(
            resolver::layout_of(files),
            mod_name,
            files,
        );
        assert(mapped.len() == 0);
        assert(text::texts(report.unrecognized@).len() == report.unrecognized@.len());
    }
}

} // verus!
