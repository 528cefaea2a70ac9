//! What the resolver is for: which file goes where, told from the names in an archive alone.
use crate::resolver;
use crate::resolver::{Layout, MappedView, Resolution};
use crate::resolver_laws;
use crate::text;
use crate::text::Separator;
use vstd::prelude::*;

verus! {

/// The entry is a file: its name does not end with a slash.
pub open spec fn names_file(n: Seq<char>) -> bool {
    n.len() == 0 || n[n.len() - 1] != '/'
}

/// The entries that are files, in order.
pub open spec fn file_names(names: Seq<Seq<char>>) -> Seq<Seq<char>> {
    names.filter(|n: Seq<char>| names_file(n))
}

/// The component is one of the six folder names that anchor a path, in any case.
pub open spec fn anchors(component: Seq<char>) -> bool {
    let low = text::lowercase(component);
    low == "spt"@ || low == "bepinex"@ || low == "user"@ || low == "mods"@ || low == "plugins"@
        || low == "patchers"@
}

/// Some component of the path is an anchor.
pub open spec fn on_anchor(n: Seq<char>) -> bool {
    exists|k: int| 0 <= k < resolver::parts(n).len() && anchors(#[trigger] resolver::parts(n)[k])
}

/// Some component of the path is `..`.
pub open spec fn climbs(n: Seq<char>) -> bool {
    resolver::parts(n).contains(".."@)
}

/// No file among the entries has an anchor on its path.
pub open spec fn bare(names: Seq<Seq<char>>) -> bool {
    forall|i: int| 0 <= i < names.len() && names_file(#[trigger] names[i]) ==> !on_anchor(names[i])
}

/// The file is called `package.json`, in any ASCII case.
pub open spec fn names_package(n: Seq<char>) -> bool {
    let ps = resolver::parts(n);
    ps.len() > 0 && text::ascii_lowercase(ps[ps.len() - 1]) == "package.json"@
}

/// Some file among the entries is called `package.json`.
pub open spec fn with_package(names: Seq<Seq<char>>) -> bool {
    exists|i: int|
        0 <= i < names.len() && names_file(#[trigger] names[i]) && names_package(names[i])
}

/// Some file among the entries has a name that, in lower case, ends with `ending`.
pub open spec fn with_ending(names: Seq<Seq<char>>, ending: Seq<char>) -> bool {
    exists|i: int|
        0 <= i < names.len() && names_file(#[trigger] names[i]) && ending.is_suffix_of(
            text::lowercase(names[i]),
        )
}

/// The file is mapped to this target in this category, and to nothing else.
pub open spec fn goes_to(
    r: Resolution,
    n: Seq<char>,
    target: Seq<char>,
    category: Seq<char>,
) -> bool {
    &&& exists|k: int| 0 <= k < r.mapped@.len() && (#[trigger] r.mapped@[k]).original@ == n
    &&& forall|k: int|
        0 <= k < r.mapped@.len() && (#[trigger] r.mapped@[k]).original@ == n
            ==> r.mapped@[k].target@ == target && r.mapped@[k].category@ == category
}

/// The file is mapped to nothing, and is reported.
pub open spec fn is_reported(r: Resolution, n: Seq<char>) -> bool {
    &&& text::texts(r.unrecognized@).contains(n)
    &&& forall|k: int| 0 <= k < r.mapped@.len() ==> (#[trigger] r.mapped@[k]).original@ != n
}

proof fn lemma_files(names: Seq<Seq<char>>)
    ensures
        resolver::files_of(names) == file_names(names),
        forall|n: Seq<char>| #[trigger]
            file_names(names).contains(n) <==> names.contains(n) && names_file(n),
{
    let a = |n: Seq<char>| resolver::is_file_name(n);
    let b = |n: Seq<char>| names_file(n);
    assert(a =~= b);
    assert forall|n: Seq<char>| #[trigger] file_names(names).contains(n) <==> names.contains(n)
        && names_file(n) by {
        if file_names(names).contains(n) {
            let i = choose|i: int| 0 <= i < file_names(names).len() && file_names(names)[i] == n;
            names.lemma_filter_pred(b, i);
            names.lemma_filter_contains_rev(b, n);
        }
        if names.contains(n) && names_file(n) {
            let i = choose|i: int| 0 <= i < names.len() && names[i] == n;
            names.lemma_filter_contains(b, i);
        }
    }
}

proof fn lemma_anchor_of(component: Seq<char>)
    ensures
        resolver::anchor_of(component) is Some <==> anchors(component),
{
}

proof fn lemma_has_anchor(n: Seq<char>)
    ensures
        resolver::has_anchor(resolver::parts(n)) == on_anchor(n),
{
    let ps = resolver::parts(n);
    if on_anchor(n) {
        let k = choose|k: int| 0 <= k < ps.len() && anchors(#[trigger] ps[k]);
        assert(resolver::anchor_of(ps[k]) is Some);
    }
    if resolver::has_anchor(ps) {
        let k = choose|k: int| 0 <= k < ps.len() && (#[trigger] resolver::anchor_of(ps[k])) is Some;
        assert(anchors(ps[k]));
    }
}

proof fn lemma_climbs(n: Seq<char>)
    ensures
        resolver::traverses(resolver::parts(n)) == climbs(n),
{
    let ps = resolver::parts(n);
    if climbs(n) {
        let k = choose|k: int| 0 <= k < ps.len() && ps[k] == ".."@;
        assert(ps[k] == ".."@);
    }
}

proof fn lemma_anchored(names: Seq<Seq<char>>)
    ensures
        resolver::anchored(resolver::files_of(names)) == !bare(names),
{
    let files = resolver::files_of(names);
    lemma_files(names);
    if resolver::anchored(files) {
        let i = choose|i: int|
            0 <= i < files.len() && #[trigger] resolver::has_anchor(resolver::parts(files[i]));
        lemma_has_anchor(files[i]);
        assert(files.contains(files[i]));
        assert(names.contains(files[i]) && names_file(files[i]));
        let j = choose|j: int| 0 <= j < names.len() && names[j] == files[i];
        assert(names_file(names[j]) && on_anchor(names[j]));
    }
    if !bare(names) {
        let j = choose|j: int|
            0 <= j < names.len() && names_file(#[trigger] names[j]) && on_anchor(names[j]);
        assert(names.contains(names[j]));
        assert(files.contains(names[j]));
        let i = choose|i: int| 0 <= i < files.len() && files[i] == names[j];
        lemma_has_anchor(files[i]);
        assert(resolver::has_anchor(resolver::parts(files[i])));
    }
}

proof fn lemma_package(names: Seq<Seq<char>>)
    ensures
        resolver::some_package(resolver::files_of(names)) == with_package(names),
{
    let files = resolver::files_of(names);
    lemma_files(names);
    reveal_strlit("package.json");
    assert(text::ascii_lowercase("package.json"@) =~= "package.json"@);
    if resolver::some_package(files) {
        let i = choose|i: int| 0 <= i < files.len() && resolver::is_package(#[trigger] files[i]);
        assert(files.contains(files[i]));
        assert(names.contains(files[i]) && names_file(files[i]));
        let j = choose|j: int| 0 <= j < names.len() && names[j] == files[i];
        assert(names_file(names[j]) && names_package(names[j]));
    }
    if with_package(names) {
        let j = choose|j: int|
            0 <= j < names.len() && names_file(#[trigger] names[j]) && names_package(names[j]);
        assert(names.contains(names[j]));
        assert(files.contains(names[j]));
        let i = choose|i: int| 0 <= i < files.len() && files[i] == names[j];
        assert(resolver::is_package(files[i]));
    }
}

proof fn lemma_ending(names: Seq<Seq<char>>, ending: Seq<char>)
    ensures
        resolver::some_ending(resolver::files_of(names), ending) == with_ending(names, ending),
{
    let files = resolver::files_of(names);
    lemma_files(names);
    if resolver::some_ending(files, ending) {
        let i = choose|i: int|
            0 <= i < files.len() && resolver::has_ending(#[trigger] files[i], ending);
        assert(files.contains(files[i]));
        assert(names.contains(files[i]) && names_file(files[i]));
        let j = choose|j: int| 0 <= j < names.len() && names[j] == files[i];
        assert(names_file(names[j]));
    }
    if with_ending(names, ending) {
        let j = choose|j: int|
            0 <= j < names.len() && names_file(#[trigger] names[j]) && ending.is_suffix_of(
                text::lowercase(names[j]),
            );
        assert(names.contains(names[j]));
        assert(files.contains(names[j]));
        let i = choose|i: int| 0 <= i < files.len() && files[i] == names[j];
        assert(resolver::has_ending(files[i], ending));
    }
}

/// What becomes of a file, from its place by the layout.
proof fn lemma_outcome(r: Resolution, names: Seq<Seq<char>>, mod_name: Seq<char>, n: Seq<char>)
    requires
        resolver::resolves(r, names, mod_name),
        names.contains(n),
        names_file(n),
    ensures
        match resolver::place(resolver::layout_of(resolver::files_of(names)), mod_name, n) {
            Some((target, category)) => goes_to(r, n, target, category),
            None => is_reported(r, n),
        },
{
    let files = resolver::files_of(names);
    let l = resolver::layout_of(files);
    lemma_files(names);
    assert(files.contains(n));
    let i = choose|i: int| 0 <= i < files.len() && files[i] == n;
    resolver_laws::law_every_file_is_accounted_for(l, mod_name, files);
    let ms = resolver::placed(l, mod_name, files);
    let vs = resolver::mapped_views(r.mapped@);
    assert(vs.len() == r.mapped@.len());
    assert forall|k: int| 0 <= k < r.mapped@.len() implies (#[trigger] r.mapped@[k])@ == ms[k] by {
        assert(vs[k] == r.mapped@[k]@);
    }
    match resolver::place(l, mod_name, n) {
        Some((target, category)) => {
            let m = MappedView { original: n, target, category };
            assert(files[i] == n);
            assert(ms.contains(m));
            let k = choose|k: int| 0 <= k < ms.len() && ms[k] == m;
            assert(r.mapped@[k]@ == m);
            assert(r.mapped@[k].original@ == n);
            assert forall|k: int|
                0 <= k < r.mapped@.len() && (#[trigger] r.mapped@[k]).original@
                    == n implies r.mapped@[k].target@ == target && r.mapped@[k].category@
                == category by {
                assert(r.mapped@[k]@ == ms[k]);
            }
        },
        None => {
            assert(files[i] == n);
            assert forall|k: int| 0 <= k < r.mapped@.len() implies (
            #[trigger] r.mapped@[k]).original@ != n by {
                assert(r.mapped@[k]@ == ms[k]);
            }
        },
    }
}

proof fn lemma_split_filters(
    l: Layout,
    mod_name: Seq<char>,
    files: Seq<Seq<char>>,
    reported: Seq<Seq<char>>,
)
    requires
        forall|n: Seq<char>|
            files.contains(n) ==> (reported.contains(n) <==> (#[trigger] resolver::place(
                l,
                mod_name,
                n,
            )) is None),
    ensures
        resolver::placed(l, mod_name, files).map_values(|m: MappedView| m.original)
            == files.filter(|n: Seq<char>| !reported.contains(n)),
        resolver::unplaced(l, mod_name, files) == files.filter(
            |n: Seq<char>| reported.contains(n),
        ),
    decreases files.len(),
{
    let orig = |m: MappedView| m.original;
    let yes = |n: Seq<char>| !reported.contains(n);
    let no = |n: Seq<char>| reported.contains(n);
    reveal(Seq::filter);
    if files.len() > 0 {
        let before = files.drop_last();
        assert forall|n: Seq<char>| before.contains(n) implies (reported.contains(n) <==> (
        #[trigger] resolver::place(l, mod_name, n)) is None) by {
            let i = choose|i: int| 0 <= i < before.len() && before[i] == n;
            assert(files[i] == n);
            assert(files.contains(n));
        }
        lemma_split_filters(l, mod_name, before, reported);
        assert(files.contains(files[files.len() - 1]));
        let p = resolver::place(l, mod_name, files.last());
        if let Some((target, category)) = p {
            let m = MappedView { original: files.last(), target, category };
            assert(resolver::placed(l, mod_name, files).map_values(orig)
                =~= resolver::placed(l, mod_name, before).map_values(orig).push(files.last()));
        }
    } else {
        assert(resolver::placed(l, mod_name, files).map_values(orig) =~= Seq::empty());
    }
}

/// Nothing is lost and nothing is made up: the mapped files and the reported files, each in the
/// order of the archive, are together the entries that are no folders.
pub proof fn law_mapped_or_reported(r: Resolution, names: Seq<Seq<char>>, mod_name: Seq<char>)
    requires
        resolver::resolves(r, names, mod_name),
    ensures
        ({
            let reported = text::texts(r.unrecognized@);
            let files = names.filter(|n: Seq<char>| n.len() == 0 || n[n.len() - 1] != '/');
            &&& reported == files.filter(|n: Seq<char>| reported.contains(n))
            &&& resolver::mapped_views(r.mapped@).map_values(|m: MappedView| m.original)
                == files.filter(|n: Seq<char>| !reported.contains(n))
        }),
{
    let files = resolver::files_of(names);
    let l = resolver::layout_of(files);
    lemma_files(names);
    assert((|n: Seq<char>| names_file(n)) =~= (|n: Seq<char>|
        n.len() == 0 || n[n.len() - 1] != '/'));
    let reported = text::texts(r.unrecognized@);
    resolver_laws::law_every_file_is_accounted_for(l, mod_name, files);
    assert forall|n: Seq<char>| files.contains(n) implies (reported.contains(n) <==> (
    #[trigger] resolver::place(l, mod_name, n)) is None) by {
        let i = choose|i: int| 0 <= i < files.len() && files[i] == n;
        assert(files[i] == n);
        if reported.contains(n) {
            let k = choose|k: int| 0 <= k < reported.len() && reported[k] == n;
            assert(resolver::unplaced(l, mod_name, files)[k] == n);
        }
    }
    lemma_split_filters(l, mod_name, files, reported);
}

/// The path made of these components, one below the other.
pub open spec fn path_of(components: Seq<Seq<char>>) -> Seq<char> {
    text::join(components, "/"@)
}

proof fn lemma_under_is_path(rest: Seq<Seq<char>>)
    ensures
        resolver::under("SPT"@, rest) == path_of(seq!["SPT"@] + rest),
        resolver::under("BepInEx"@, rest) == path_of(seq!["BepInEx"@] + rest),
        rest.len() > 0 ==> resolver::under("SPT/user"@, rest) == path_of(
            seq!["SPT"@, "user"@] + rest,
        ),
{
    resolver_laws::lemma_join_front("SPT"@, rest);
    resolver_laws::lemma_join_front("BepInEx"@, rest);
    if rest.len() > 0 {
        resolver_laws::lemma_join_front("user"@, rest);
        resolver_laws::lemma_join_front("SPT"@, seq!["user"@] + rest);
        assert(seq!["SPT"@, "user"@] + rest =~= seq!["SPT"@] + (seq!["user"@] + rest));
        reveal_strlit("SPT");
        reveal_strlit("user");
        reveal_strlit("SPT/user");
        reveal_strlit("/");
        let j = text::join(rest, "/"@);
        assert("SPT/user"@ + "/"@ + j =~= "SPT"@ + "/"@ + ("user"@ + "/"@ + j));
    }
}

/// An archive with anchors: a file that does not climb is put where its outermost anchor, in any
/// case, belongs, with all that stands below that anchor on its path; what stands above it is
/// dropped.
pub proof fn law_outermost_anchor_decides(
    r: Resolution,
    names: Seq<Seq<char>>,
    mod_name: Seq<char>,
    n: Seq<char>,
    a: int,
)
    requires
        resolver::resolves(r, names, mod_name),
        names.contains(n),
        names_file(n),
        !climbs(n),
        0 <= a < resolver::parts(n).len(),
        anchors(resolver::parts(n)[a]),
        forall|k: int| 0 <= k < a ==> !anchors(#[trigger] resolver::parts(n)[k]),
    ensures
        ({
            let ps = resolver::parts(n);
            let low = text::lowercase(ps[a]);
            &&& r.mode@ == "anchored"@
            &&& low == "spt"@ ==> goes_to(r, n, path_of(seq!["SPT"@] + ps.skip(a + 1)), "server"@)
            &&& low == "bepinex"@ ==> goes_to(
                r,
                n,
                path_of(seq!["BepInEx"@] + ps.skip(a + 1)),
                "client"@,
            )
            &&& low == "user"@ ==> goes_to(r, n, path_of(seq!["SPT"@] + ps.skip(a)), "server"@)
            &&& low == "mods"@ ==> goes_to(
                r,
                n,
                path_of(seq!["SPT"@, "user"@] + ps.skip(a)),
                "server"@,
            )
            &&& low == "plugins"@ ==> goes_to(
                r,
                n,
                path_of(seq!["BepInEx"@] + ps.skip(a)),
                "client"@,
            )
            &&& low == "patchers"@ ==> goes_to(
                r,
                n,
                path_of(seq!["BepInEx"@] + ps.skip(a)),
                "client"@,
            )
        }),
{
    let ps = resolver::parts(n);
    let i = choose|i: int| 0 <= i < names.len() && names[i] == n;
    assert(names_file(names[i]) && on_anchor(names[i]));
    lemma_anchored(names);
    lemma_outcome(r, names, mod_name, n);
    lemma_climbs(n);
    lemma_has_anchor(n);
    resolver::lemma_first_anchor(ps);
    let f = resolver::first_anchor(ps)->0;
    lemma_anchor_of(ps[f]);
    lemma_anchor_of(ps[a]);
    if f < a {
        assert(!anchors(ps[f]));
    }
    if a < f {
        assert(resolver::anchor_of(ps[a]) is None);
    }
    assert(f == a);
    lemma_under_is_path(ps.skip(a));
    lemma_under_is_path(ps.skip(a + 1));
    reveal_strlit("spt");
    reveal_strlit("bepinex");
    reveal_strlit("user");
    reveal_strlit("mods");
    reveal_strlit("plugins");
    reveal_strlit("patchers");
    assert("spt"@.len() == 3 && "bepinex"@.len() == 7 && "user"@.len() == 4 && "mods"@.len() == 4
        && "plugins"@.len() == 7 && "patchers"@.len() == 8);
    assert("user"@[0] == 'u' && "mods"@[0] == 'm' && "bepinex"@[0] == 'b' && "plugins"@[0] == 'p');
}

/// The file name of an executable: what stands behind the last slash of a path that ends with
/// `.exe`, where it is not empty and holds no two dots.
pub open spec fn is_tool(n: Seq<char>, folder: Seq<char>, base: Seq<char>) -> bool {
    &&& text::slashed(n) == folder + base
    &&& folder.len() == 0 || folder[folder.len() - 1] == '/'
    &&& !base.contains('/')
    &&& base.len() > 0
    &&& !text::occurs(base, ".."@)
    &&& ".exe"@.is_suffix_of(text::lowercase(text::slashed(n)))
}

proof fn lemma_exe_place(n: Seq<char>, folder: Seq<char>, base: Seq<char>)
    requires
        is_tool(n, folder, base),
    ensures
        resolver::exe_place(n) == Some((base, "client"@)),
{
    let s = Separator::Slash;
    assert(text::uncut(base, s)) by {
        assert forall|i: int| 0 <= i < base.len() implies !s.cuts(#[trigger] base[i]) by {
            if base[i] == '/' {
                assert(base.contains('/'));
            }
        }
    }
    text::lemma_split_uncut(base, s);
    if folder.len() == 0 {
        assert(folder + base =~= base);
    } else {
        let stem = folder.drop_last();
        assert(folder + base =~= stem.push('/') + base);
        text::lemma_split_at(stem, '/', base, s);
        assert((text::split(stem, s) + seq![base]).last() == base);
    }
}

proof fn lemma_no_exe_place(n: Seq<char>)
    requires
        forall|folder: Seq<char>, base: Seq<char>| !is_tool(n, folder, base),
    ensures
        resolver::exe_place(n) is None,
{
    let s = Separator::Slash;
    let norm = text::slashed(n);
    let base = text::split(norm, s).last();
    if resolver::exe_place(n) is Some {
        lemma_last_piece(norm);
        let folder = norm.take(norm.len() - base.len());
        assert(is_tool(n, folder, base));
    }
}

proof fn lemma_last_piece(t: Seq<char>)
    ensures
        ({
            let base = text::split(t, Separator::Slash).last();
            let folder = t.take(t.len() - base.len());
            &&& base.len() <= t.len()
            &&& t == folder + base
            &&& folder.len() == 0 || folder[folder.len() - 1] == '/'
            &&& !base.contains('/')
        }),
    decreases t.len(),
{
    let s = Separator::Slash;
    let base = text::split(t, s).last();
    if t.len() > 0 {
        let u = t.drop_last();
        text::lemma_split_not_empty(u, s);
        lemma_last_piece(u);
        let b0 = text::split(u, s).last();
        if t.last() == '/' {
            assert(base =~= Seq::empty());
            assert(t.take(t.len() as int) =~= t);
            assert(t =~= t + base);
        } else {
            assert(base == b0.push(t.last()));
            let folder = t.take(t.len() - base.len());
            assert(folder =~= u.take(u.len() - b0.len()));
            assert(u == folder + b0);
            assert(t =~= u.push(t.last()));
            assert(t =~= folder + base);
            if base.contains('/') {
                let i = choose|i: int| 0 <= i < base.len() && base[i] == '/';
                assert(b0[i] == '/');
                assert(b0.contains('/'));
            }
        }
    } else {
        assert(t =~= t.take(0) + base);
    }
}

/// A standalone executable goes to the game root by its file name: in an archive with anchors,
/// where no anchor tells its place; in an archive without, where there is neither a package nor a
/// library.
pub proof fn law_tools_go_to_the_root(
    r: Resolution,
    names: Seq<Seq<char>>,
    mod_name: Seq<char>,
    n: Seq<char>,
    folder: Seq<char>,
    base: Seq<char>,
)
    requires
        resolver::resolves(r, names, mod_name),
        names.contains(n),
        names_file(n),
        is_tool(n, folder, base),
        if bare(names) {
            !with_package(names) && !with_ending(names, ".dll"@) && with_ending(names, ".exe"@)
        } else {
            climbs(n) || !on_anchor(n)
        },
    ensures
        goes_to(r, n, base, "client"@),
        bare(names) ==> r.mode@ == "bare-root"@,
{
    lemma_outcome(r, names, mod_name, n);
    lemma_anchored(names);
    lemma_package(names);
    lemma_ending(names, ".dll"@);
    lemma_ending(names, ".exe"@);
    lemma_exe_place(n, folder, base);
    lemma_climbs(n);
    lemma_has_anchor(n);
    resolver::lemma_first_anchor(resolver::parts(n));
}

/// In an archive with anchors, a file without an anchor on its path, or that climbs, is reported
/// and not installed, unless it is a standalone executable.
pub proof fn law_files_beside_anchors_are_reported(
    r: Resolution,
    names: Seq<Seq<char>>,
    mod_name: Seq<char>,
    n: Seq<char>,
)
    requires
        resolver::resolves(r, names, mod_name),
        !bare(names),
        names.contains(n),
        names_file(n),
        climbs(n) || !on_anchor(n),
        forall|folder: Seq<char>, base: Seq<char>| !is_tool(n, folder, base),
    ensures
        is_reported(r, n),
        r.mode@ == "anchored"@,
{
    lemma_outcome(r, names, mod_name, n);
    lemma_anchored(names);
    lemma_no_exe_place(n);
    lemma_climbs(n);
    lemma_has_anchor(n);
    resolver::lemma_first_anchor(resolver::parts(n));
}

/// All files among the entries lie in the folder `top` of the archive.
pub open spec fn all_lie_in(names: Seq<Seq<char>>, top: Seq<char>) -> bool {
    forall|i: int|
        0 <= i < names.len() && names_file(#[trigger] names[i]) ==> resolver::parts(
            names[i],
        ).len() >= 2 && resolver::parts(names[i])[0] == top
}

proof fn lemma_one_top(names: Seq<Seq<char>>, n: Seq<char>)
    requires
        names.contains(n),
        names_file(n),
    ensures
        resolver::one_top(resolver::files_of(names)) <==> exists|top: Seq<char>| #[trigger]
            all_lie_in(names, top),
{
    let files = resolver::files_of(names);
    lemma_files(names);
    assert(files.contains(n));
    assert(files.len() > 0);
    if exists|top: Seq<char>| #[trigger] all_lie_in(names, top) {
        let top = choose|top: Seq<char>| #[trigger] all_lie_in(names, top);
        assert forall|i: int| 0 <= i < files.len() implies (#[trigger] resolver::parts(
            files[i],
        )).len() >= 2 && resolver::parts(files[i])[0] == top by {
            assert(files.contains(files[i]));
            assert(names.contains(files[i]) && names_file(files[i]));
            let j = choose|j: int| 0 <= j < names.len() && names[j] == files[i];
            assert(names_file(names[j]));
        }
        assert(resolver::parts(files[0])[0] == top);
    }
    if resolver::one_top(files) {
        let t = resolver::parts(files[0])[0];
        assert forall|j: int| 0 <= j < names.len() && names_file(#[trigger] names[j]) implies
            resolver::parts(names[j]).len() >= 2 && resolver::parts(names[j])[0] == t by {
            assert(names.contains(names[j]));
            assert(files.contains(names[j]));
            let i = choose|i: int| 0 <= i < files.len() && files[i] == names[j];
            assert(resolver::parts(files[i]).len() >= 2);
        }
        assert(all_lie_in(names, t));
    }
}

/// A package makes a server mod, whatever else is in the archive: where no file has an anchor on
/// its path and some file is called `package.json`, every file that does not climb is a server
/// file below `SPT/user/mods/`. Where all files lie in one top folder, that folder is the mod's;
/// else they are put into a folder with the mod's name.
pub proof fn law_package_makes_a_server_mod(
    r: Resolution,
    names: Seq<Seq<char>>,
    mod_name: Seq<char>,
    n: Seq<char>,
)
    requires
        resolver::resolves(r, names, mod_name),
        bare(names),
        with_package(names),
        names.contains(n),
        names_file(n),
    ensures
        r.mode@ == "bare-server"@,
        climbs(n) ==> is_reported(r, n),
        !climbs(n) ==> exists|target: Seq<char>| #[trigger]
            goes_to(r, n, target, "server"@) && "SPT/user/mods/"@.is_prefix_of(target),
        !climbs(n) && (exists|top: Seq<char>| #[trigger] all_lie_in(names, top))
            ==> goes_to(r, n, "SPT/user/mods/"@ + text::slashed(n), "server"@),
        !climbs(n) && !(exists|top: Seq<char>| #[trigger] all_lie_in(names, top))
            ==> goes_to(
            r,
            n,
            "SPT/user/mods/"@ + mod_name + "/"@ + text::slashed(n),
            "server"@,
        ),
{
    lemma_outcome(r, names, mod_name, n);
    lemma_anchored(names);
    lemma_package(names);
    lemma_climbs(n);
    lemma_one_top(names, n);
    let a = "SPT/user/mods/"@ + text::slashed(n);
    let b = "SPT/user/mods/"@ + mod_name + "/"@ + text::slashed(n);
    let len = "SPT/user/mods/"@.len() as int;
    assert(a.subrange(0, len) =~= "SPT/user/mods/"@);
    assert(b.subrange(0, len) =~= "SPT/user/mods/"@);
    if !climbs(n) {
        assert(goes_to(r, n, a, "server"@) || goes_to(r, n, b, "server"@));
    }
}

/// A library makes a client mod where there is no package: where no file has an anchor on its path
/// and none is called `package.json`, but some name ends with `.dll` in any case, every file that
/// does not climb goes below `BepInEx/plugins/` as it lies in the archive.
pub proof fn law_library_makes_a_client_mod(
    r: Resolution,
    names: Seq<Seq<char>>,
    mod_name: Seq<char>,
    n: Seq<char>,
)
    requires
        resolver::resolves(r, names, mod_name),
        bare(names),
        !with_package(names),
        with_ending(names, ".dll"@),
        names.contains(n),
        names_file(n),
    ensures
        r.mode@ == "bare-client"@,
        climbs(n) ==> is_reported(r, n),
        !climbs(n) ==> goes_to(r, n, "BepInEx/plugins/"@ + text::slashed(n), "client"@),
{
    lemma_outcome(r, names, mod_name, n);
    lemma_anchored(names);
    lemma_package(names);
    lemma_ending(names, ".dll"@);
    lemma_climbs(n);
}

/// Where nothing tells what an archive is, nothing of it is installed: without an anchor, a package
/// or a library, whatever is not a standalone executable is reported.
pub proof fn law_unknown_files_are_reported(
    r: Resolution,
    names: Seq<Seq<char>>,
    mod_name: Seq<char>,
    n: Seq<char>,
)
    requires
        resolver::resolves(r, names, mod_name),
        bare(names),
        !with_package(names),
        !with_ending(names, ".dll"@),
        names.contains(n),
        names_file(n),
    ensures
        !with_ending(names, ".exe"@) ==> is_reported(r, n) && r.mode@ == "empty"@,
        (forall|folder: Seq<char>, base: Seq<char>| !is_tool(n, folder, base)) ==> is_reported(
            r,
            n,
        ),
{
    lemma_outcome(r, names, mod_name, n);
    lemma_anchored(names);
    lemma_package(names);
    lemma_ending(names, ".dll"@);
    lemma_ending(names, ".exe"@);
    if forall|folder: Seq<char>, base: Seq<char>| !is_tool(n, folder, base) {
        lemma_no_exe_place(n);
    }
}

/// What a mod is called follows from its files alone, in whatever order they come: both kinds make
/// it mixed, one kind alone gives it its name, and no file leaves it unknown.
pub proof fn law_classification_follows_the_files(ms: Seq<MappedView>, i: int, j: int)
    requires
        0 <= i < ms.len(),
        0 <= j < ms.len(),
    ensures
        ms[i].category == "client"@ && ms[j].category == "server"@ ==> resolver::classification(ms)
            == "mixed"@,
        (forall|k: int| 0 <= k < ms.len() ==> (#[trigger] ms[k]).category == "client"@)
            ==> resolver::classification(ms) == "client"@,
        (forall|k: int| 0 <= k < ms.len() ==> (#[trigger] ms[k]).category == "server"@)
            ==> resolver::classification(ms) == "server"@,
        resolver::classification(Seq::<MappedView>::empty()) == "unknown"@,
{
    reveal_strlit("client");
    reveal_strlit("server");
    assert("client"@[0] != "server"@[0]);
    let x = ms[i];
    let y = ms[j];
    assert(resolver::has_category(ms, x.category));
    assert(resolver::has_category(ms, y.category));
}

} // verus!
