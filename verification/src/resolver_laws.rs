//! What holds of the resolver as a whole.
use crate::paths;
use crate::resolver;
use crate::resolver::{Anchor, Layout, MappedView};
use crate::text;
use crate::text::Separator;
use vstd::prelude::*;
use vstd::utf8::is_ascii_chars;

verus! {

/// A path component: not empty, and without a slash of either kind.
pub open spec fn is_component(p: Seq<char>) -> bool {
    p.len() > 0 && forall|i: int| 0 <= i < p.len() ==> #[trigger] p[i] != '/' && p[i] != '\\'
}

pub open spec fn all_components(ps: Seq<Seq<char>>) -> bool {
    forall|k: int| 0 <= k < ps.len() ==> is_component(#[trigger] ps[k])
}

/// The components of a path are components.
pub proof fn lemma_parts_are_components(name: Seq<char>)
    ensures
        all_components(resolver::parts(name)),
{
    let norm = text::slashed(name);
    let ps = resolver::parts(name);
    text::lemma_pieces(norm, Separator::Slash);
    assert forall|k: int| 0 <= k < ps.len() implies is_component(#[trigger] ps[k]) by {
        assert(text::uncut(ps[k], Separator::Slash));
        assert forall|i: int| 0 <= i < ps[k].len() implies #[trigger] ps[k][i] != '/' && ps[k][i]
            != '\\' by {
            assert(!Separator::Slash.cuts(ps[k][i]));
            assert(norm.contains(ps[k][i]));
            let j = choose|j: int| 0 <= j < norm.len() && norm[j] == ps[k][i];
            assert(norm[j] != '\\');
        }
    }
}

proof fn lemma_component_uncut(p: Seq<char>)
    requires
        is_component(p),
    ensures
        text::slashed(p) == p,
        text::uncut(p, Separator::Slash),
        resolver::parts(p) == seq![p],
{
    assert(text::slashed(p) =~= p);
    text::lemma_pieces_uncut(p, Separator::Slash);
}

/// The components of two paths put one below the other.
proof fn lemma_parts_below(a: Seq<char>, b: Seq<char>)
    ensures
        resolver::parts(a + "/"@ + b) == resolver::parts(a) + resolver::parts(b),
{
    reveal_strlit("/");
    assert(text::slashed(a + "/"@ + b) =~= text::slashed(a).push('/') + text::slashed(b));
    text::lemma_pieces_at(text::slashed(a), '/', text::slashed(b), Separator::Slash);
}

proof fn lemma_parts_of_join(ps: Seq<Seq<char>>)
    requires
        all_components(ps),
    ensures
        resolver::parts(text::join(ps, "/"@)) == ps,
{
    lemma_join_slashed(ps);
    assert forall|k: int| 0 <= k < ps.len() implies (#[trigger] ps[k]).len() > 0 && text::uncut(
        ps[k],
        Separator::Slash,
    ) by {
        lemma_component_uncut(ps[k]);
    }
    text::lemma_pieces_of_join(ps);
}

proof fn lemma_join_slashed(ps: Seq<Seq<char>>)
    requires
        all_components(ps),
    ensures
        text::slashed(text::join(ps, "/"@)) == text::join(ps, "/"@),
    decreases ps.len(),
{
    reveal_strlit("/");
    if ps.len() == 0 {
        assert(text::slashed(Seq::empty()) =~= Seq::empty());
    } else if ps.len() == 1 {
        lemma_component_uncut(ps[0]);
    } else {
        assert forall|k: int| 0 <= k < ps.drop_last().len() implies is_component(
            #[trigger] ps.drop_last()[k],
        ) by {
            assert(is_component(ps[k]));
        }
        lemma_join_slashed(ps.drop_last());
        assert(is_component(ps[ps.len() - 1]));
        lemma_component_uncut(ps.last());
        let a = text::join(ps.drop_last(), "/"@);
        assert(text::slashed(a + "/"@ + ps.last()) =~= text::slashed(a) + "/"@ + text::slashed(
            ps.last(),
        ));
    }
}

/// The components of a path below a folder.
proof fn lemma_parts_under(folder: Seq<char>, rest: Seq<Seq<char>>)
    requires
        all_components(rest),
    ensures
        resolver::parts(resolver::under(folder, rest)) == resolver::parts(folder) + rest,
{
    if rest.len() == 0 {
        assert(resolver::parts(folder) + rest =~= resolver::parts(folder));
    } else {
        lemma_parts_of_join(rest);
        lemma_parts_below(folder, text::join(rest, "/"@));
    }
}

/// The folders that the resolver puts files below, by their components.
proof fn lemma_known_folders()
    ensures
        is_component("SPT"@),
        is_component("BepInEx"@),
        is_component("user"@),
        is_component("mods"@),
        is_component("plugins"@),
        resolver::parts("SPT"@) == seq!["SPT"@],
        resolver::parts("BepInEx"@) == seq!["BepInEx"@],
        resolver::parts("SPT/user"@) == seq!["SPT"@, "user"@],
        resolver::parts("SPT/user/mods/"@) == seq!["SPT"@, "user"@, "mods"@],
        resolver::parts("BepInEx/plugins/"@) == seq!["BepInEx"@, "plugins"@],
{
    reveal_strlit("SPT");
    reveal_strlit("BepInEx");
    reveal_strlit("user");
    reveal_strlit("mods");
    reveal_strlit("plugins");
    reveal_strlit("SPT/user");
    reveal_strlit("SPT/user/mods/");
    reveal_strlit("BepInEx/plugins/");
    reveal_strlit("/");
    lemma_component_uncut("SPT"@);
    lemma_component_uncut("BepInEx"@);
    lemma_component_uncut("user"@);
    lemma_component_uncut("mods"@);
    lemma_component_uncut("plugins"@);
    let none = Seq::<char>::empty();
    assert(text::slashed(none) =~= none);
    text::lemma_pieces_uncut(none, Separator::Slash);
    lemma_parts_below("SPT"@, "user"@);
    assert("SPT/user"@ =~= "SPT"@ + "/"@ + "user"@);
    lemma_parts_below("SPT/user"@, "mods"@);
    lemma_parts_below("SPT/user"@ + "/"@ + "mods"@, none);
    assert("SPT/user/mods/"@ =~= "SPT/user"@ + "/"@ + "mods"@ + "/"@ + none);
    lemma_parts_below("BepInEx"@, "plugins"@);
    lemma_parts_below("BepInEx"@ + "/"@ + "plugins"@, none);
    assert("BepInEx/plugins/"@ =~= "BepInEx"@ + "/"@ + "plugins"@ + "/"@ + none);
    assert(resolver::parts("SPT/user"@) =~= seq!["SPT"@, "user"@]);
    assert(resolver::parts("SPT/user/mods/"@) =~= seq!["SPT"@, "user"@, "mods"@]);
    assert(resolver::parts("BepInEx/plugins/"@) =~= seq!["BepInEx"@, "plugins"@]);
}

/// The folder and the components below it that make up an anchored target.
spec fn anchored_split(a: Anchor, ps: Seq<Seq<char>>, i: int) -> (Seq<char>, Seq<Seq<char>>) {
    match a {
        Anchor::Spt => ("SPT"@, ps.skip(i + 1)),
        Anchor::BepInEx => ("BepInEx"@, ps.skip(i + 1)),
        Anchor::User => ("SPT"@, ps.skip(i)),
        Anchor::Mods => ("SPT/user"@, ps.skip(i)),
        Anchor::Plugins => ("BepInEx"@, ps.skip(i)),
        Anchor::Patchers => ("BepInEx"@, ps.skip(i)),
    }
}

proof fn lemma_anchored_place(name: Seq<char>)
    requires
        resolver::anchored_place(name) is Some,
    ensures
        ({
            let ps = resolver::parts(name);
            let i = resolver::first_anchor(ps)->0;
            let a = resolver::anchor_of(ps[i])->0;
            let (folder, rest) = anchored_split(a, ps, i);
            &&& 0 <= i < ps.len()
            &&& all_components(rest)
            &&& (resolver::anchored_place(name)->0).0 == resolver::under(folder, rest)
            &&& resolver::parts((resolver::anchored_place(name)->0).0) == resolver::parts(folder)
                + rest
            &&& forall|k: int| 0 <= k < rest.len() ==> #[trigger] rest[k] != ".."@
        }),
{
    let ps = resolver::parts(name);
    resolver::lemma_first_anchor(ps);
    lemma_parts_are_components(name);
    let i = resolver::first_anchor(ps)->0;
    let a = resolver::anchor_of(ps[i])->0;
    let (folder, rest) = anchored_split(a, ps, i);
    let from = ps.len() - rest.len();
    assert forall|k: int| 0 <= k < rest.len() implies is_component(#[trigger] rest[k]) && rest[k]
        != ".."@ by {
        assert(rest[k] == ps[k + from]);
        assert(is_component(ps[k + from]));
    }
    lemma_parts_under(folder, rest);
}

proof fn lemma_exe_place(name: Seq<char>)
    requires
        resolver::exe_place(name) is Some,
    ensures
        is_component((resolver::exe_place(name)->0).0),
        (resolver::exe_place(name)->0).0 != ".."@,
        (resolver::exe_place(name)->0).1 == "client"@,
{
    let norm = text::slashed(name);
    let base = text::split(norm, Separator::Slash).last();
    text::lemma_split_pieces(norm, Separator::Slash);
    text::lemma_split_not_empty(norm, Separator::Slash);
    let k = text::split(norm, Separator::Slash).len() - 1;
    assert(text::uncut(text::split(norm, Separator::Slash)[k], Separator::Slash));
    assert forall|i: int| 0 <= i < base.len() implies #[trigger] base[i] != '/' && base[i]
        != '\\' by {
        assert(!Separator::Slash.cuts(base[i]));
        assert(norm.contains(text::split(norm, Separator::Slash)[k][i]));
        let j = choose|j: int| 0 <= j < norm.len() && norm[j] == base[i];
        assert(norm[j] != '\\');
    }
    if base == ".."@ {
        assert(".."@.subrange(0, ".."@.len() as int) =~= ".."@);
        assert(text::occurs_at(base, ".."@, 0));
    }
}

proof fn lemma_traverses_append(a: Seq<Seq<char>>, b: Seq<Seq<char>>)
    ensures
        resolver::traverses(a + b) == (resolver::traverses(a) || resolver::traverses(b)),
{
    let ab = a + b;
    if resolver::traverses(ab) {
        let i = choose|i: int| 0 <= i < ab.len() && #[trigger] ab[i] == ".."@;
        if i < a.len() {
            assert(a[i] == ".."@);
        } else {
            assert(b[i - a.len()] == ".."@);
        }
    }
    if resolver::traverses(a) {
        let i = choose|i: int| 0 <= i < a.len() && #[trigger] a[i] == ".."@;
        assert(ab[i] == ".."@);
    }
    if resolver::traverses(b) {
        let i = choose|i: int| 0 <= i < b.len() && #[trigger] b[i] == ".."@;
        assert(ab[i + a.len()] == ".."@);
    }
}

proof fn lemma_folders_do_not_traverse()
    ensures
        !resolver::traverses(resolver::parts("SPT"@)),
        !resolver::traverses(resolver::parts("BepInEx"@)),
        !resolver::traverses(resolver::parts("SPT/user"@)),
        !resolver::traverses(resolver::parts("SPT/user/mods/"@)),
        !resolver::traverses(resolver::parts("BepInEx/plugins/"@)),
{
    lemma_known_folders();
    reveal_strlit("SPT");
    reveal_strlit("BepInEx");
    reveal_strlit("user");
    reveal_strlit("mods");
    reveal_strlit("plugins");
    reveal_strlit("..");
}

/// No target that the resolver gives climbs with `..`, whatever the archive holds, as long as
/// the mod's name does not.
pub proof fn law_targets_never_climb(l: Layout, mod_name: Seq<char>, name: Seq<char>)
    requires
        !resolver::traverses(resolver::parts(mod_name)),
    ensures
        resolver::place(l, mod_name, name) matches Some((target, _)) ==> !resolver::traverses(
            resolver::parts(target),
        ),
{
    if let Some((target, category)) = resolver::place(l, mod_name, name) {
        lemma_folders_do_not_traverse();
        if l == Layout::Anchored && resolver::anchored_place(name) is Some {
            lemma_anchored_place(name);
            let ps = resolver::parts(name);
            let i = resolver::first_anchor(ps)->0;
            let (folder, rest) = anchored_split(resolver::anchor_of(ps[i])->0, ps, i);
            lemma_traverses_append(resolver::parts(folder), rest);
        } else if l == Layout::Anchored || l == Layout::BareRoot {
            lemma_exe_place(name);
            lemma_component_uncut(target);
        } else {
            let norm = text::slashed(name);
            assert(text::slashed(norm) =~= norm);
            let none = Seq::<char>::empty();
            reveal_strlit("/");
            reveal_strlit("SPT/user/mods/");
            reveal_strlit("BepInEx/plugins/");
            if l == Layout::BareClient {
                let stem = "BepInEx/plugins/"@.drop_last();
                assert("BepInEx/plugins/"@ =~= stem + "/"@ + none);
                lemma_parts_below(stem, none);
                lemma_parts_below(stem, norm);
                assert(target =~= stem + "/"@ + norm);
                assert(text::slashed(none) =~= none);
                text::lemma_pieces_uncut(none, Separator::Slash);
                assert(resolver::parts(stem) + resolver::parts(none) =~= resolver::parts(stem));
                lemma_traverses_append(resolver::parts(stem), resolver::parts(norm));
            } else {
                let stem = "SPT/user/mods/"@.drop_last();
                assert("SPT/user/mods/"@ =~= stem + "/"@ + none);
                lemma_parts_below(stem, none);
                assert(text::slashed(none) =~= none);
                text::lemma_pieces_uncut(none, Separator::Slash);
                assert(resolver::parts(stem) + resolver::parts(none) =~= resolver::parts(stem));
                if l == Layout::BareServerFolder {
                    lemma_parts_below(stem, norm);
                    assert(target =~= stem + "/"@ + norm);
                    lemma_traverses_append(resolver::parts(stem), resolver::parts(norm));
                } else {
                    lemma_parts_below(mod_name, norm);
                    lemma_parts_below(stem, mod_name + "/"@ + norm);
                    assert(target =~= stem + "/"@ + (mod_name + "/"@ + norm));
                    lemma_traverses_append(resolver::parts(mod_name), resolver::parts(norm));
                    lemma_traverses_append(
                        resolver::parts(stem),
                        resolver::parts(mod_name) + resolver::parts(norm),
                    );
                }
            }
        }
    }
}

/// Every file of the archive is accounted for, once: it is mapped to its place or it is reported
/// as unrecognised, and nothing else is.
pub proof fn law_every_file_is_accounted_for(
    l: Layout,
    mod_name: Seq<char>,
    files: Seq<Seq<char>>,
)
    ensures
        resolver::placed(l, mod_name, files).len() + resolver::unplaced(l, mod_name, files).len()
            == files.len(),
        forall|i: int| #![trigger files[i]]
            0 <= i < files.len() ==> match resolver::place(l, mod_name, files[i]) {
                Some((target, category)) => resolver::placed(l, mod_name, files).contains(
                    (MappedView { original: files[i], target, category }),
                ),
                None => resolver::unplaced(l, mod_name, files).contains(files[i]),
            },
        forall|k: int| #![trigger resolver::placed(l, mod_name, files)[k]]
            0 <= k < resolver::placed(l, mod_name, files).len() ==> {
                let m = resolver::placed(l, mod_name, files)[k];
                files.contains(m.original) && resolver::place(l, mod_name, m.original) == Some(
                    (m.target, m.category),
                )
            },
        forall|k: int| #![trigger resolver::unplaced(l, mod_name, files)[k]]
            0 <= k < resolver::unplaced(l, mod_name, files).len() ==> {
                let n = resolver::unplaced(l, mod_name, files)[k];
                files.contains(n) && resolver::place(l, mod_name, n) is None
            },
    decreases files.len(),
{
    if files.len() > 0 {
        let before = files.drop_last();
        let last = files.last();
        law_every_file_is_accounted_for(l, mod_name, before);
        let ms = resolver::placed(l, mod_name, files);
        let us = resolver::unplaced(l, mod_name, files);
        let ms0 = resolver::placed(l, mod_name, before);
        let us0 = resolver::unplaced(l, mod_name, before);
        assert(files[files.len() - 1] == last);
        assert forall|i: int| #![trigger files[i]] 0 <= i < files.len() implies match resolver::place(
            l,
            mod_name,
            files[i],
        ) {
            Some((target, category)) => ms.contains(
                (MappedView { original: files[i], target, category }),
            ),
            None => us.contains(files[i]),
        } by {
            match resolver::place(l, mod_name, files[i]) {
                Some((target, category)) => {
                    let m = MappedView { original: files[i], target, category };
                    if i < before.len() {
                        assert(before[i] == files[i]);
                        let k = choose|k: int| 0 <= k < ms0.len() && ms0[k] == m;
                        assert(ms[k] == m);
                    } else {
                        assert(ms[ms.len() - 1] == m);
                    }
                },
                None => {
                    if i < before.len() {
                        assert(before[i] == files[i]);
                        let k = choose|k: int| 0 <= k < us0.len() && us0[k] == files[i];
                        assert(us[k] == files[i]);
                    } else {
                        assert(us[us.len() - 1] == files[i]);
                    }
                },
            }
        }
        assert forall|k: int| #![trigger ms[k]] 0 <= k < ms.len() implies files.contains(
            ms[k].original,
        ) && resolver::place(l, mod_name, ms[k].original) == Some(
            (ms[k].target, ms[k].category),
        ) by {
            if k < ms0.len() {
                assert(ms[k] == ms0[k]);
                let j = choose|j: int| 0 <= j < before.len() && before[j] == ms0[k].original;
                assert(files[j] == ms[k].original);
            }
        }
        assert forall|k: int| #![trigger us[k]] 0 <= k < us.len() implies files.contains(us[k])
            && resolver::place(l, mod_name, us[k]) is None by {
            if k < us0.len() {
                assert(us[k] == us0[k]);
                let j = choose|j: int| 0 <= j < before.len() && before[j] == us0[k];
                assert(files[j] == us[k]);
            }
        }
    }
}

/// The path is `folder` itself or lies below it.
pub open spec fn within(path: Seq<char>, folder: Seq<char>) -> bool {
    path == folder || (folder + "/"@).is_prefix_of(path)
}

/// Whatever its layout, an archive is put onto the canonical targets: server files below `SPT`,
/// client files below `BepInEx` or, executables, directly in the game root.
pub proof fn law_targets_are_canonical(l: Layout, mod_name: Seq<char>, name: Seq<char>)
    ensures
        resolver::place(l, mod_name, name) matches Some((target, category)) ==> {
            ||| category == "server"@ && within(target, "SPT"@)
            ||| category == "client"@ && within(target, "BepInEx"@)
            ||| category == "client"@ && is_component(target) && resolver::exe_place(name) == Some(
                (target, category),
            )
        },
{
    if let Some((target, category)) = resolver::place(l, mod_name, name) {
        reveal_strlit("SPT");
        reveal_strlit("BepInEx");
        reveal_strlit("SPT/user");
        reveal_strlit("SPT/user/mods/");
        reveal_strlit("BepInEx/plugins/");
        reveal_strlit("/");
        if l == Layout::Anchored && resolver::anchored_place(name) is Some {
            let ps = resolver::parts(name);
            resolver::lemma_first_anchor(ps);
            let i = resolver::first_anchor(ps)->0;
            let a = resolver::anchor_of(ps[i])->0;
            let (folder, rest) = anchored_split(a, ps, i);
            if rest.len() > 0 {
                let whole = folder + "/"@ + text::join(rest, "/"@);
                assert(target == whole);
                if a == Anchor::Spt || a == Anchor::User || a == Anchor::Mods {
                    assert(("SPT"@ + "/"@) =~= whole.subrange(0, 4));
                } else {
                    assert(("BepInEx"@ + "/"@) =~= whole.subrange(0, 8));
                }
            }
        } else if l == Layout::Anchored || l == Layout::BareRoot {
            lemma_exe_place(name);
        } else if l == Layout::BareClient {
            assert(("BepInEx"@ + "/"@) =~= target.subrange(0, 8));
        } else {
            assert(("SPT"@ + "/"@) =~= target.subrange(0, 4));
        }
    }
}

proof fn lemma_first_anchor_after(w: Seq<Seq<char>>, ps: Seq<Seq<char>>)
    requires
        !resolver::has_anchor(w),
    ensures
        resolver::first_anchor(w + ps) == match resolver::first_anchor(ps) {
            Some(i) => Some(i + w.len()),
            None => None::<int>,
        },
    decreases ps.len(),
{
    let all = w + ps;
    if ps.len() == 0 {
        assert(all =~= w);
        resolver::lemma_first_anchor(w);
    } else {
        lemma_first_anchor_after(w, ps.drop_last());
        assert(all.drop_last() =~= w + ps.drop_last());
    }
}

/// A wrapper folder changes nothing: below any folders that are neither anchors nor `..`, a path
/// gets the place that it has without them.
pub proof fn law_wrapper_folder_is_stripped(wrapper: Seq<char>, name: Seq<char>)
    requires
        !resolver::has_anchor(resolver::parts(wrapper)),
        !resolver::traverses(resolver::parts(wrapper)),
    ensures
        resolver::anchored_place(wrapper + "/"@ + name) == resolver::anchored_place(name),
{
    let w = resolver::parts(wrapper);
    let ps = resolver::parts(name);
    lemma_parts_below(wrapper, name);
    lemma_traverses_append(w, ps);
    lemma_first_anchor_after(w, ps);
    if let Some(i) = resolver::first_anchor(ps) {
        resolver::lemma_first_anchor(ps);
        assert((w + ps)[i + w.len()] == ps[i]);
        assert((w + ps).skip(i + w.len()) =~= ps.skip(i));
        assert((w + ps).skip(i + w.len() + 1) =~= ps.skip(i + 1));
    }
}

proof fn lemma_canonical_anchors()
    ensures
        resolver::anchor_of("SPT"@) == Some(Anchor::Spt),
        resolver::anchor_of("BepInEx"@) == Some(Anchor::BepInEx),
{
    reveal_strlit("SPT");
    reveal_strlit("spt");
    reveal_strlit("BepInEx");
    reveal_strlit("bepinex");
    assert(text::lowercase("SPT"@) =~= "spt"@);
    assert(text::lowercase("BepInEx"@) =~= "bepinex"@);
    assert("bepinex"@.len() != "spt"@.len());
}

/// A path that is canonical already stays where it is: `SPT/...` and `BepInEx/...` keep their
/// place whatever folder names occur further down.
pub proof fn law_canonical_paths_stay(rest: Seq<Seq<char>>)
    requires
        all_components(rest),
        !resolver::traverses(rest),
    ensures
        resolver::anchored_place(resolver::under("SPT"@, rest)) == Some(
            (resolver::under("SPT"@, rest), "server"@),
        ),
        resolver::anchored_place(resolver::under("BepInEx"@, rest)) == Some(
            (resolver::under("BepInEx"@, rest), "client"@),
        ),
{
    lemma_canonical_anchors();
    lemma_known_folders();
    lemma_folders_do_not_traverse();
    lemma_parts_under("SPT"@, rest);
    lemma_parts_under("BepInEx"@, rest);
    let spt = seq!["SPT"@] + rest;
    let bep = seq!["BepInEx"@] + rest;
    lemma_traverses_append(seq!["SPT"@], rest);
    lemma_traverses_append(seq!["BepInEx"@], rest);
    resolver::lemma_first_anchor(spt);
    resolver::lemma_first_anchor(bep);
    assert(resolver::anchor_of(spt[0]) is Some);
    assert(resolver::anchor_of(bep[0]) is Some);
    assert(spt.skip(1) =~= rest);
    assert(bep.skip(1) =~= rest);
}

/// Resolving is stable: the target of an anchored path, resolved again, is its own place.
pub proof fn law_resolving_twice_changes_nothing(name: Seq<char>)
    ensures
        resolver::anchored_place(name) matches Some((target, category)) ==> (
        resolver::anchored_place(target) == Some((target, category))),
{
    if let Some((target, category)) = resolver::anchored_place(name) {
        lemma_anchored_place(name);
        lemma_known_folders();
        let ps = resolver::parts(name);
        let i = resolver::first_anchor(ps)->0;
        let a = resolver::anchor_of(ps[i])->0;
        let (folder, rest) = anchored_split(a, ps, i);
        if a == Anchor::Mods {
            reveal_strlit("SPT");
            reveal_strlit("SPT/user");
            reveal_strlit("user");
            reveal_strlit("..");
            reveal_strlit("/");
            let longer = seq!["user"@] + rest;
            assert forall|k: int| 0 <= k < longer.len() implies is_component(#[trigger] longer[k])
                && longer[k] != ".."@ by {
                if k > 0 {
                    assert(longer[k] == rest[k - 1]);
                }
            }
            lemma_join_front("user"@, rest);
            assert(resolver::under("SPT"@, longer) =~= resolver::under("SPT/user"@, rest));
            law_canonical_paths_stay(longer);
        } else {
            law_canonical_paths_stay(rest);
        }
    }
}

pub proof fn lemma_join_front(first: Seq<char>, rest: Seq<Seq<char>>)
    ensures
        text::join(seq![first] + rest, "/"@) == resolver::under(first, rest),
    decreases rest.len(),
{
    let all = seq![first] + rest;
    if rest.len() == 0 {
        assert(all =~= seq![first]);
    } else {
        assert(all.drop_last() =~= seq![first] + rest.drop_last());
        lemma_join_front(first, rest.drop_last());
        if rest.len() > 1 {
            let a = text::join(rest.drop_last(), "/"@);
            assert((first + "/"@ + a) + "/"@ + rest.last() =~= first + "/"@ + (a + "/"@
                + rest.last()));
        } else {
            assert(rest.drop_last() =~= Seq::empty());
            assert(first + "/"@ + rest.last() =~= first + "/"@ + text::join(rest, "/"@));
        }
    }
}

/// Backslashes and forward slashes are the same to the resolver.
pub proof fn law_either_slash(l: Layout, mod_name: Seq<char>, name: Seq<char>)
    ensures
        resolver::place(l, mod_name, text::slashed(name)) == resolver::place(l, mod_name, name),
{
    assert(text::slashed(text::slashed(name)) =~= text::slashed(name));
}

/// The anchors `SPT` and `BepInEx` are recognised in any case, and how one of them is spelled has
/// no influence on the place of what lies below it.
pub proof fn law_root_anchor_case_is_ignored(
    spelled: Seq<char>,
    other: Seq<char>,
    rest: Seq<Seq<char>>,
)
    requires
        is_component(spelled),
        is_component(other),
        is_ascii_chars(spelled),
        is_ascii_chars(other),
        text::ascii_lowercase(spelled) == text::ascii_lowercase(other),
        resolver::anchor_of(other) == Some(Anchor::Spt) || resolver::anchor_of(other) == Some(
            Anchor::BepInEx,
        ),
        all_components(rest),
    ensures
        resolver::anchored_place(resolver::under(spelled, rest)) == resolver::anchored_place(
            resolver::under(other, rest),
        ),
{
    reveal_strlit("spt");
    reveal_strlit("bepinex");
    reveal_strlit("..");
    lemma_component_uncut(spelled);
    lemma_component_uncut(other);
    lemma_parts_under(spelled, rest);
    lemma_parts_under(other, rest);
    let x = seq![spelled] + rest;
    let y = seq![other] + rest;
    lemma_traverses_append(seq![spelled], rest);
    lemma_traverses_append(seq![other], rest);
    assert(text::ascii_lowercase(spelled).len() == spelled.len());
    assert(text::ascii_lowercase(other).len() == other.len());
    assert(seq![spelled][0] == spelled);
    assert(seq![other][0] == other);
    assert("spt"@.len() == 3 && "bepinex"@.len() == 7 && ".."@.len() == 2);
    assert(!resolver::traverses(seq![spelled]));
    assert(!resolver::traverses(seq![other]));
    resolver::lemma_first_anchor(x);
    resolver::lemma_first_anchor(y);
    assert(resolver::anchor_of(x[0]) is Some);
    assert(resolver::anchor_of(y[0]) is Some);
    assert(x.skip(1) =~= rest);
    assert(y.skip(1) =~= rest);
}

/// No colon stands in the text, which on some platforms ends the name of a drive.
pub open spec fn no_colon(s: Seq<char>) -> bool {
    forall|i: int| 0 <= i < s.len() ==> #[trigger] s[i] != ':'
}

proof fn lemma_join_no_colon(ps: Seq<Seq<char>>)
    requires
        all_components(ps),
        forall|k: int| 0 <= k < ps.len() ==> no_colon(#[trigger] ps[k]),
    ensures
        no_colon(text::join(ps, "/"@)),
        forall|i: int|
            0 <= i < text::join(ps, "/"@).len() ==> #[trigger] text::join(ps, "/"@)[i] != '\\',
    decreases ps.len(),
{
    reveal_strlit("/");
    if ps.len() == 1 {
        assert(is_component(ps[0]) && no_colon(ps[0]));
    } else if ps.len() > 1 {
        let before = ps.drop_last();
        assert forall|k: int| 0 <= k < before.len() implies is_component(#[trigger] before[k])
            && no_colon(before[k]) by {
            assert(before[k] == ps[k]);
        }
        lemma_join_no_colon(before);
        let a = text::join(before, "/"@);
        let last = ps[ps.len() - 1];
        assert(is_component(last) && no_colon(last));
        let whole = a + "/"@ + last;
        assert forall|i: int| 0 <= i < whole.len() implies #[trigger] whole[i] != ':' && whole[i]
            != '\\' by {
            if i < a.len() {
                assert(whole[i] == a[i]);
            } else if i > a.len() {
                assert(whole[i] == last[i - a.len() - 1]);
            }
        }
    }
}

proof fn lemma_parts_no_colon(name: Seq<char>)
    requires
        no_colon(name),
    ensures
        forall|k: int| 0 <= k < resolver::parts(name).len() ==> no_colon(
            #[trigger] resolver::parts(name)[k],
        ),
{
    let norm = text::slashed(name);
    let ps = resolver::parts(name);
    text::lemma_pieces(norm, Separator::Slash);
    assert forall|k: int| 0 <= k < ps.len() implies no_colon(#[trigger] ps[k]) by {
        assert forall|i: int| 0 <= i < ps[k].len() implies #[trigger] ps[k][i] != ':' by {
            assert(norm.contains(ps[k][i]));
            let j = choose|j: int| 0 <= j < norm.len() && norm[j] == ps[k][i];
            assert(norm[j] != ':' || name[j] == ':');
        }
    }
}

/// `a + b` is relative where `a` is and is not empty, and `b` holds no backslash and no colon.
proof fn lemma_relative_append(a: Seq<char>, b: Seq<char>)
    requires
        a.len() > 0,
        paths::is_relative(a),
        no_colon(b),
        forall|i: int| 0 <= i < b.len() ==> #[trigger] b[i] != '\\',
    ensures
        paths::is_relative(a + b),
{
    let whole = a + b;
    assert forall|i: int| 0 <= i < whole.len() implies #[trigger] whole[i] != '\\' && whole[i]
        != ':' by {
        if i < a.len() {
            assert(whole[i] == a[i]);
        } else {
            assert(whole[i] == b[i - a.len()]);
        }
    }
    assert(whole[0] == a[0]);
}

proof fn lemma_folders_are_relative()
    ensures
        paths::is_relative("SPT"@) && "SPT"@.len() > 0,
        paths::is_relative("BepInEx"@) && "BepInEx"@.len() > 0,
        paths::is_relative("SPT/user"@) && "SPT/user"@.len() > 0,
        paths::is_relative("SPT/user/mods/"@) && "SPT/user/mods/"@.len() > 0,
        paths::is_relative("BepInEx/plugins/"@) && "BepInEx/plugins/"@.len() > 0,
{
    reveal_strlit("SPT");
    reveal_strlit("BepInEx");
    reveal_strlit("SPT/user");
    reveal_strlit("SPT/user/mods/");
    reveal_strlit("BepInEx/plugins/");
}

/// Every target that the resolver gives leads down from the game root, on every platform, as long
/// as no colon stands in the path of the file and neither a colon nor a backslash in the name of
/// the mod.
pub proof fn law_targets_are_relative(l: Layout, mod_name: Seq<char>, name: Seq<char>)
    requires
        no_colon(name),
        no_colon(mod_name),
        forall|i: int| 0 <= i < mod_name.len() ==> #[trigger] mod_name[i] != '\\',
    ensures
        resolver::place(l, mod_name, name) matches Some((target, _)) ==> paths::is_relative(target),
{
    if let Some((target, category)) = resolver::place(l, mod_name, name) {
        reveal_strlit("/");
        lemma_folders_are_relative();
        let norm = text::slashed(name);
        assert(no_colon(norm)) by {
            assert forall|i: int| 0 <= i < norm.len() implies #[trigger] norm[i] != ':' by {
                assert(name[i] != ':');
            }
        }
        if l == Layout::Anchored && resolver::anchored_place(name) is Some {
            lemma_anchored_place(name);
            lemma_parts_no_colon(name);
            let ps = resolver::parts(name);
            let i = resolver::first_anchor(ps)->0;
            let a = resolver::anchor_of(ps[i])->0;
            let (folder, rest) = anchored_split(a, ps, i);
            let from = ps.len() - rest.len();
            assert forall|k: int| 0 <= k < rest.len() implies no_colon(#[trigger] rest[k]) by {
                assert(rest[k] == ps[k + from]);
            }
            lemma_join_no_colon(rest);
            if rest.len() > 0 {
                lemma_relative_append(folder, "/"@);
                lemma_relative_append(folder + "/"@, text::join(rest, "/"@));
            }
        } else if l == Layout::Anchored || l == Layout::BareRoot {
            lemma_exe_place(name);
            let s = text::split(norm, Separator::Slash);
            text::lemma_split_pieces(norm, Separator::Slash);
            text::lemma_split_not_empty(norm, Separator::Slash);
            assert forall|i: int| 0 <= i < target.len() implies #[trigger] target[i] != ':' by {
                assert(norm.contains(s[s.len() - 1][i]));
                let j = choose|j: int| 0 <= j < norm.len() && norm[j] == target[i];
                assert(norm[j] != ':');
            }
            assert(target[0] != '/');
            assert(paths::is_relative(target));
        } else if l == Layout::BareClient {
            lemma_relative_append("BepInEx/plugins/"@, norm);
        } else if l == Layout::BareServerFolder {
            lemma_relative_append("SPT/user/mods/"@, norm);
        } else {
            lemma_relative_append("SPT/user/mods/"@, mod_name);
            lemma_relative_append("SPT/user/mods/"@ + mod_name, "/"@);
            lemma_relative_append("SPT/user/mods/"@ + mod_name + "/"@, norm);
        }
    }
}

} // verus!
