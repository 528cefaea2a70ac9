//! What dependencies, kept details, the game folder and downloads are for, told from what comes in.
use crate::dependencies;
use crate::dependencies::{DependencyQuery, Missing};
use crate::download;
use crate::download::{Progress, Written};
use crate::forge;
use crate::forge::ResolvedView;
use crate::game;
use crate::game::{Opening, RootSigns, SptRootCheck};
use crate::json;
use crate::json::JsonView;
use crate::manifest::ManifestView;
use crate::meta;
use crate::meta::MetaView;
use crate::names;
use crate::paths;
use crate::paths::Found;
use crate::text;
use crate::text::Separator;
use crate::uninstall_laws;
use vstd::prelude::*;

verus! {

/// The item stands somewhere in the dependency tree: in the list, or in the list of what an item
/// of it needs.
pub open spec fn in_tree(j: JsonView, d: JsonView) -> bool
    decreases j,
{
    match j {
        JsonView::Array(items) => in_items(items, d),
        _ => false,
    }
}

pub open spec fn in_items(items: Seq<JsonView>, d: JsonView) -> bool
    decreases items,
{
    items.len() > 0 && (items.last() == d || in_item(items.last(), d) || in_items(
        items.drop_last(),
        d,
    ))
}

pub open spec fn in_item(item: JsonView, d: JsonView) -> bool
    decreases item,
{
    match item {
        JsonView::Object(m) => if m.dom().contains("dependencies"@) {
            in_tree(m["dependencies"@], d)
        } else {
            false
        },
        _ => false,
    }
}

/// The text is the told one, or empty where none is told.
pub open spec fn is_text_or_nothing(t: Seq<char>, told: Option<Seq<char>>) -> bool {
    match told {
        Some(s) => t == s,
        None => t.len() == 0,
    }
}

/// The mod is told of by the item: its id, slug and name, or the slug's title where it has no name;
/// and version, link and size of its latest compatible version.
pub open spec fn tells(m: ResolvedView, d: JsonView) -> bool {
    let name = json::str_member(d, "name"@);
    let latest = json::get(d, "latest_compatible_version"@);
    &&& json::u64_member(d, "id"@) == Some(m.id)
    &&& is_text_or_nothing(m.slug, json::str_member(d, "slug"@))
    &&& if name is None || name->0.len() == 0 {
        m.name == forge::title(m.slug)
    } else {
        Some(m.name) == name
    }
    &&& match latest {
        Some(v) => m.version == json::str_member(v, "version"@) && m.link == json::str_member(
            v,
            "link"@,
        ) && m.size == json::u64_member(v, "content_length"@),
        None => m.version is None && m.link is None && m.size is None,
    }
}

/// Some such item tells of the mod.
spec fn told_by(m: ResolvedView, p: spec_fn(JsonView) -> bool) -> bool {
    exists|d: JsonView| #[trigger] tells(m, d) && p(d)
}

/// Every missing mod beyond those that `known` held is told of by an item of the tree.
spec fn grown_from(before: Missing, after: Missing, p: spec_fn(JsonView) -> bool) -> bool {
    &&& before.mods.len() <= after.mods.len()
    &&& forall|k: int|
        before.mods.len() <= k < after.mods.len() ==> told_by(#[trigger] after.mods[k], p)
    &&& forall|k: int| 0 <= k < before.mods.len() ==> #[trigger] after.mods[k] == before.mods[k]
}

proof fn lemma_with_dependency_tells(d: JsonView, have: Set<u64>, known: Missing)
    ensures
        grown_from(known, dependencies::with_dependency(d, have, known), |x: JsonView| x == d),
{
    let p = |x: JsonView| x == d;
    let now = dependencies::with_dependency(d, have, known);
    if dependencies::is_news(d, have, known.seen) {
        let m = dependencies::dependency(d);
        assert(tells(m, d));
        assert forall|k: int| known.mods.len() <= k < now.mods.len() implies told_by(
            #[trigger] now.mods[k],
            p,
        ) by {
            assert(now.mods[k] == m);
            assert(p(d));
        }
    }
}

proof fn lemma_grown_more(
    a: Missing,
    b: Missing,
    c: Missing,
    p: spec_fn(JsonView) -> bool,
    q: spec_fn(JsonView) -> bool,
    r: spec_fn(JsonView) -> bool,
)
    requires
        grown_from(a, b, p),
        grown_from(b, c, q),
        forall|d: JsonView| #[trigger] p(d) ==> r(d),
        forall|d: JsonView| #[trigger] q(d) ==> r(d),
    ensures
        grown_from(a, c, r),
{
    assert forall|k: int| a.mods.len() <= k < c.mods.len() implies told_by(
        #[trigger] c.mods[k],
        r,
    ) by {
        if k < b.mods.len() {
            assert(c.mods[k] == b.mods[k]);
            let d = choose|d: JsonView| #[trigger] tells(b.mods[k], d) && p(d);
            assert(r(d));
        } else {
            let d = choose|d: JsonView| #[trigger] tells(c.mods[k], d) && q(d);
            assert(r(d));
        }
    }
    assert forall|k: int| 0 <= k < a.mods.len() implies #[trigger] c.mods[k] == a.mods[k] by {
        assert(b.mods[k] == a.mods[k]);
    }
}

proof fn lemma_node_tells(j: JsonView, have: Set<u64>, known: Missing)
    ensures
        grown_from(
            known,
            dependencies::after_node(j, have, known),
            |d: JsonView| in_tree(j, d),
        ),
    decreases j,
{
    if let JsonView::Array(items) = j {
        lemma_items_tell(items, have, known);
        let p = |d: JsonView| in_items(items, d);
        let q = |d: JsonView| in_tree(j, d);
        assert forall|d: JsonView| #[trigger] p(d) implies q(d) by {
            assert(in_tree(j, d) == in_items(items, d));
        }
        let after = dependencies::after_node(j, have, known);
        assert(after == dependencies::after_items(items, have, known));
        lemma_grown_more(known, known, after, p, p, q);
    }
}

proof fn lemma_items_tell(items: Seq<JsonView>, have: Set<u64>, known: Missing)
    ensures
        grown_from(
            known,
            dependencies::after_items(items, have, known),
            |d: JsonView| in_items(items, d),
        ),
    decreases items,
{
    if items.len() > 0 {
        let rest = items.drop_last();
        let last = items.last();
        let before = dependencies::after_items(rest, have, known);
        let after = dependencies::after_items(items, have, known);
        lemma_items_tell(rest, have, known);
        lemma_item_tells(last, have, before);
        assert(after == dependencies::after_item(last, have, before));
        let p = |d: JsonView| in_items(rest, d);
        let q = |d: JsonView| d == last || in_item(last, d);
        let r = |d: JsonView| in_items(items, d);
        assert forall|d: JsonView| #[trigger] p(d) implies r(d) by {
            assert(in_items(items, d) == (items.last() == d || in_item(items.last(), d)
                || in_items(items.drop_last(), d)));
        }
        assert forall|d: JsonView| #[trigger] q(d) implies r(d) by {
            assert(in_items(items, d) == (items.last() == d || in_item(items.last(), d)
                || in_items(items.drop_last(), d)));
        }
        lemma_grown_more(known, before, after, p, q, r);
    }
}

proof fn lemma_item_tells(item: JsonView, have: Set<u64>, known: Missing)
    ensures
        grown_from(
            known,
            dependencies::after_item(item, have, known),
            |d: JsonView| d == item || in_item(item, d),
        ),
    decreases item,
{
    let met = dependencies::with_dependency(item, have, known);
    let after = dependencies::after_item(item, have, known);
    let p = |d: JsonView| d == item;
    let r = |d: JsonView| d == item || in_item(item, d);
    lemma_with_dependency_tells(item, have, known);
    lemma_grown_more(known, met, met, p, p, r);
    if let JsonView::Object(m) = item {
        if m.dom().contains("dependencies"@) {
            let j = m["dependencies"@];
            lemma_node_tells(j, have, met);
            let q = |d: JsonView| in_tree(j, d);
            assert(after == dependencies::after_node(j, have, met));
            assert forall|d: JsonView| #[trigger] q(d) implies r(d) by {
                assert(in_item(item, d) == in_tree(j, d));
            }
            lemma_grown_more(known, met, after, p, q, r);
        }
    }
}

proof fn lemma_mentioned(j: JsonView, id: u64)
    requires
        id != 0,
    ensures
        dependencies::mentions(j, id) <==> exists|d: JsonView| #[trigger]
            in_tree(j, d) && json::u64_member(d, "id"@) == Some(id),
    decreases j,
{
    if let JsonView::Array(items) = j {
        lemma_items_mentioned(items, id);
        assert(dependencies::mentions(j, id) == dependencies::items_mention(items, id));
        assert forall|d: JsonView| #[trigger] in_tree(j, d) == in_items(items, d) by {}
        if dependencies::items_mention(items, id) {
            let d = choose|d: JsonView| #[trigger]
                in_items(items, d) && json::u64_member(d, "id"@) == Some(id);
            assert(in_tree(j, d));
        }
        if exists|d: JsonView| #[trigger] in_tree(j, d) && json::u64_member(d, "id"@) == Some(id) {
            let d = choose|d: JsonView| #[trigger]
                in_tree(j, d) && json::u64_member(d, "id"@) == Some(id);
            assert(in_items(items, d));
        }
    }
}

proof fn lemma_items_mentioned(items: Seq<JsonView>, id: u64)
    requires
        id != 0,
    ensures
        dependencies::items_mention(items, id) <==> exists|d: JsonView| #[trigger]
            in_items(items, d) && json::u64_member(d, "id"@) == Some(id),
    decreases items,
{
    if items.len() > 0 {
        let rest = items.drop_last();
        let last = items.last();
        lemma_items_mentioned(rest, id);
        lemma_item_mentioned(last, id);
        assert(dependencies::items_mention(items, id) == (dependencies::item_mentions(last, id)
            || dependencies::items_mention(rest, id)));
        assert forall|d: JsonView| #[trigger] in_items(items, d) == (last == d || in_item(last, d)
            || in_items(rest, d)) by {}
        if dependencies::items_mention(rest, id) {
            let d = choose|d: JsonView| #[trigger]
                in_items(rest, d) && json::u64_member(d, "id"@) == Some(id);
            assert(in_items(items, d));
        }
        if dependencies::item_mentions(last, id) {
            if json::u64_member(last, "id"@) == Some(id) {
                assert(in_items(items, last));
            } else {
                let d = choose|d: JsonView| #[trigger]
                    in_item(last, d) && json::u64_member(d, "id"@) == Some(id);
                assert(in_items(items, d));
            }
        }
        if exists|d: JsonView| #[trigger] in_items(items, d) && json::u64_member(d, "id"@) == Some(
            id,
        ) {
            let d = choose|d: JsonView| #[trigger]
                in_items(items, d) && json::u64_member(d, "id"@) == Some(id);
            assert(last == d || in_item(last, d) || in_items(rest, d));
        }
    }
}

proof fn lemma_item_mentioned(item: JsonView, id: u64)
    requires
        id != 0,
    ensures
        dependencies::item_mentions(item, id) <==> json::u64_member(item, "id"@) == Some(id)
            || exists|d: JsonView| #[trigger]
            in_item(item, d) && json::u64_member(d, "id"@) == Some(id),
    decreases item,
{
    if let JsonView::Object(m) = item {
        if m.dom().contains("dependencies"@) {
            let j = m["dependencies"@];
            lemma_mentioned(j, id);
            assert(dependencies::item_mentions(item, id) == (json::u64_or_zero(item, "id"@) == id
                || dependencies::mentions(j, id)));
            assert forall|d: JsonView| #[trigger] in_item(item, d) == in_tree(j, d) by {}
            if dependencies::mentions(j, id) {
                let d = choose|d: JsonView| #[trigger]
                    in_tree(j, d) && json::u64_member(d, "id"@) == Some(id);
                assert(in_item(item, d));
            }
            if exists|d: JsonView| #[trigger]
                in_item(item, d) && json::u64_member(d, "id"@) == Some(id) {
                let d = choose|d: JsonView| #[trigger]
                    in_item(item, d) && json::u64_member(d, "id"@) == Some(id);
                assert(in_tree(j, d));
            }
        }
    }
}

/// What is added for dependencies is what is needed: each mod once, none that is there already,
/// each with a link to download it by, and each as an item of the answer, at whatever depth, tells
/// of it.
pub proof fn law_added_dependencies_are_needed(
    j: JsonView,
    data: JsonView,
    have: Set<u64>,
    k: int,
    l: int,
)
    requires
        json::get(j, "data"@) == Some(data),
    ensures
        ({
            let r = dependencies::needed(j, have);
            &&& 0 <= k < r.len() ==> r[k].id != 0 && !have.contains(r[k].id) && r[k].link is Some
                && exists|d: JsonView| #[trigger] in_tree(data, d) && tells(r[k], d)
            &&& 0 <= k < l < r.len() ==> r[k].id != r[l].id
        }),
{
    let all = dependencies::after_node(data, have, dependencies::nothing_missing());
    let keep = |m: ResolvedView| m.link is Some;
    let r = all.mods.filter(keep);
    dependencies::law_missing_mods_are_new(data, have, dependencies::nothing_missing());
    lemma_node_tells(data, have, dependencies::nothing_missing());
    if 0 <= k < r.len() {
        all.mods.lemma_filter_pred(keep, k);
        all.mods.lemma_filter_contains_rev(keep, r[k]);
        let i = choose|i: int| 0 <= i < all.mods.len() && all.mods[i] == r[k];
        let p = |d: JsonView| in_tree(data, d);
        assert(told_by(all.mods[i], p));
        let d = choose|d: JsonView| #[trigger] tells(all.mods[i], d) && p(d);
        assert(in_tree(data, d) && tells(r[k], d));
    }
    if 0 <= k < l < r.len() {
        lemma_filter_apart(all.mods, keep);
    }
}

proof fn lemma_filter_apart(s: Seq<ResolvedView>, keep: spec_fn(ResolvedView) -> bool)
    requires
        forall|i: int, j: int| 0 <= i < j < s.len() ==> (#[trigger] s[i]).id != (#[trigger] s[j]).id,
    ensures
        forall|i: int, j: int|
            0 <= i < j < s.filter(keep).len() ==> (#[trigger] s.filter(keep)[i]).id != (
            #[trigger] s.filter(keep)[j]).id,
    decreases s.len(),
{
    reveal(Seq::filter);
    if s.len() > 0 {
        let before = s.drop_last();
        assert forall|i: int, j: int| 0 <= i < j < before.len() implies (#[trigger] before[i]).id != (
        #[trigger] before[j]).id by {
            assert(before[i] == s[i] && before[j] == s[j]);
        }
        lemma_filter_apart(before, keep);
        let f0 = before.filter(keep);
        let f = s.filter(keep);
        assert forall|i: int, j: int| 0 <= i < j < f.len() implies (#[trigger] f[i]).id != (
        #[trigger] f[j]).id by {
            assert(f[i] == f0[i]);
            if j < f0.len() {
                assert(f[j] == f0[j]);
            } else {
                before.lemma_filter_contains_rev(keep, f0[i]);
                let a = choose|a: int| 0 <= a < before.len() && before[a] == f0[i];
                assert(s[a] == f[i] && s[s.len() - 1] == f[j]);
            }
        }
    }
}

/// Every dependency that is missing and can be downloaded is added: a mod that an item of the
/// answer tells of, at whatever depth, that is not there already, and that comes with a link
/// wherever it is told of.
pub proof fn law_missing_dependencies_are_added(
    j: JsonView,
    data: JsonView,
    have: Set<u64>,
    item: JsonView,
    id: u64,
)
    requires
        json::get(j, "data"@) == Some(data),
        in_tree(data, item),
        json::u64_member(item, "id"@) == Some(id),
        id != 0,
        !have.contains(id),
        forall|d: JsonView| #[trigger]
            in_tree(data, d) && json::u64_member(d, "id"@) == Some(id) ==> (json::get(
                d,
                "latest_compatible_version"@,
            ) matches Some(v) && json::str_member(v, "link"@) is Some),
    ensures
        exists|k: int|
            0 <= k < dependencies::needed(j, have).len() && (#[trigger] dependencies::needed(
                j,
                have,
            )[k]).id == id,
{
    let none = dependencies::nothing_missing();
    let all = dependencies::after_node(data, have, none);
    let keep = |m: ResolvedView| m.link is Some;
    let r = all.mods.filter(keep);
    lemma_mentioned(data, id);
    assert(dependencies::mentions(data, id));
    dependencies::law_every_dependency_is_found(data, have, none, id);
    dependencies::law_missing_mods_are_new(data, have, none);
    lemma_node_tells(data, have, none);
    let i = choose|i: int| 0 <= i < all.mods.len() && (#[trigger] all.mods[i]).id == id;
    let p = |d: JsonView| in_tree(data, d);
    assert(told_by(all.mods[i], p));
        let d = choose|d: JsonView| #[trigger] tells(all.mods[i], d) && p(d);
    assert(in_tree(data, d));
    assert(keep(all.mods[i]));
    all.mods.lemma_filter_contains(keep, i);
    let k = choose|k: int| 0 <= k < r.len() && r[k] == all.mods[i];
    assert(dependencies::needed(j, have)[k].id == id);
}

/// What is asked about: every mod that is going to be installed, by its id and version; and what is
/// there is what manifests tell of and what is going to be installed.
pub proof fn law_queries_name_every_mod(
    r: Option<DependencyQuery>,
    ms: Seq<ManifestView>,
    mods: Seq<(u64, Seq<char>)>,
    id: u64,
)
    requires
        dependencies::asks(r, ms, mods),
    ensures
        mods.len() == 0 <==> r is None,
        r matches Some(q) ==> {
            &&& q.have@.contains(id) <==> (exists|i: int|
                0 <= i < ms.len() && (#[trigger] ms[i]).forge_id == Some(id)) || exists|k: int|
                0 <= k < mods.len() && (#[trigger] mods[k]).0 == id
            &&& mods.len() == 1 ==> q.mods@ == names::decimal(mods[0].0 as nat) + ":"@ + mods[0].1
            &&& mods.len() > 1 ==> q.mods@ == text::join(
                dependencies::asked(mods.drop_last()),
                ","@,
            ) + ","@ + (names::decimal(mods.last().0 as nat) + ":"@ + mods.last().1)
        },
{
    let parts = dependencies::asked(mods);
    if mods.len() > 0 {
        assert(parts.drop_last() =~= dependencies::asked(mods.drop_last()));
        assert(parts.last() == names::decimal(mods.last().0 as nat) + ":"@ + mods.last().1);
    }
}

/// The kind of a picture is told from its address, in any case: `.png` first, then `.webp` and
/// `.gif`, and JPEG where none of them stands in it. A picture is made a data URL only where there
/// is an address and a picture.
pub proof fn law_pictures_by_their_address(url: Seq<char>, bytes: Seq<u8>)
    ensures
        ({
            let low = text::lowercase(url);
            let kind = meta::mime(url);
            &&& text::occurs(low, ".png"@) ==> kind == "image/png"@
            &&& !text::occurs(low, ".png"@) && text::occurs(low, ".webp"@) ==> kind
                == "image/webp"@
            &&& !text::occurs(low, ".png"@) && !text::occurs(low, ".webp"@) && text::occurs(
                low,
                ".gif"@,
            ) ==> kind == "image/gif"@
            &&& !text::occurs(low, ".png"@) && !text::occurs(low, ".webp"@) && !text::occurs(
                low,
                ".gif"@,
            ) ==> kind == "image/jpeg"@
            &&& url.len() > 0 ==> meta::data_url(url, Some(bytes)) == "data:"@ + kind
                + ";base64,"@ + meta::base64(bytes)
            &&& url.len() == 0 ==> meta::data_url(url, Some(bytes)).len() == 0
            &&& meta::data_url(url, None).len() == 0
        }),
{
}

/// Details are fetched again exactly where nothing is kept of the mod, where it is not told when
/// they were fetched, or where that was a day ago or more; mods are asked about in order, each as
/// often as it was asked for.
pub proof fn law_old_details_are_fetched_again(
    m: Map<Seq<char>, JsonView>,
    ids: Seq<u64>,
    id: u64,
    now: u64,
)
    ensures
        ({
            let key = names::decimal(id as nat);
            let fresh = m.dom().contains(key) && (json::u64_member(m[key], "fetched_at"@) matches Some(
                at,
            ) && now < at + 24 * 60 * 60 * 1000);
            meta::stale(m, ids.push(id), now) == if fresh {
                meta::stale(m, ids, now)
            } else {
                meta::stale(m, ids, now).push(id)
            }
        }),
        meta::stale(m, Seq::<u64>::empty(), now).len() == 0,
{
    let keep = |x: u64| !meta::is_fresh(m, x, now);
    ids.lemma_filter_push(id, keep);
    reveal(Seq::filter);
}

/// What is shown of mods: of each of which something is kept, in order, what is kept of it, and
/// nothing of the others.
pub proof fn law_what_is_kept_is_shown(m: Map<Seq<char>, JsonView>, ids: Seq<u64>, id: u64)
    ensures
        ({
            let key = names::decimal(id as nat);
            let before = meta::all_shown(m, ids);
            let all = meta::all_shown(m, ids.push(id));
            if m.dom().contains(key) {
                &&& all.len() == before.len() + 1
                &&& all.take(before.len() as int) == before
                &&& shows_kept(all.last(), id, m[key])
            } else {
                all == before
            }
        }),
        meta::all_shown(m, Seq::<u64>::empty()).len() == 0,
{
    let now = ids.push(id);
    assert(now.drop_last() =~= ids);
    assert(now.last() == id);
    let before = meta::all_shown(m, ids);
    if let Some(e) = meta::entry(m, id) {
        let x = meta::shown(id, e);
        assert(before.push(x).take(before.len() as int) =~= before);
    }
}

/// What is shown of the mod is what is kept, member by member.
pub open spec fn shows_kept(x: MetaView, id: u64, e: JsonView) -> bool {
    &&& x.id == id
    &&& is_text_or_nothing(x.thumbnail, json::str_member(e, "thumbnail"@))
    &&& is_text_or_nothing(x.teaser, json::str_member(e, "teaser"@))
    &&& is_text_or_nothing(x.author, json::str_member(e, "author"@))
    &&& is_text_or_nothing(x.category, json::str_member(e, "category"@))
    &&& x.downloads == if json::u64_member(e, "downloads"@) is Some {
        json::u64_member(e, "downloads"@)->0
    } else {
        0
    }
}

/// The details of an answer: of every item with an id, in order, what it tells.
pub proof fn law_details_follow_the_answer(items: Seq<JsonView>, m: JsonView)
    ensures
        ({
            let id = json::u64_member(m, "id"@);
            let before = meta::items_of(items);
            let all = meta::items_of(items.push(m));
            if id is None || id == Some(0u64) {
                all == before
            } else {
                &&& all.len() == before.len() + 1
                &&& all.take(before.len() as int) == before
                &&& tells_details(all.last(), m)
            }
        }),
        meta::items_of(Seq::<JsonView>::empty()).len() == 0,
{
    let now = items.push(m);
    assert(now.drop_last() =~= items);
    assert(now.last() == m);
    let before = meta::items_of(items);
    let x = meta::item_of(m);
    assert(before.push(x).take(before.len() as int) =~= before);
}

/// The details are those that the item tells.
pub open spec fn tells_details(x: MetaView, m: JsonView) -> bool {
    &&& Some(x.id) == json::u64_member(m, "id"@)
    &&& is_text_or_nothing(x.thumbnail, json::str_member(m, "thumbnail"@))
    &&& is_text_or_nothing(x.teaser, json::str_member(m, "teaser"@))
    &&& match json::get(m, "owner"@) {
        Some(o) => is_text_or_nothing(x.author, json::str_member(o, "name"@)),
        None => x.author.len() == 0,
    }
    &&& match json::get(m, "category"@) {
        Some(c) => is_text_or_nothing(x.category, json::str_member(c, "title"@)),
        None => x.category.len() == 0,
    }
    &&& x.downloads == if json::u64_member(m, "downloads"@) is Some {
        json::u64_member(m, "downloads"@)->0
    } else {
        0
    }
}

/// A cache that cannot be read as an object holds nothing; one that can holds its members. So does
/// an answer without a list of items.
pub proof fn law_broken_caches_are_empty(t: Seq<char>, members: Map<Seq<char>, JsonView>, j: JsonView)
    ensures
        meta::cached(None) == Map::<Seq<char>, JsonView>::empty(),
        json::parsed(t) is Err ==> meta::cached(Some(t)) == Map::<Seq<char>, JsonView>::empty(),
        (json::parsed(t) matches Ok(x) && !(x is Object)) ==> meta::cached(Some(t)) == Map::<
            Seq<char>,
            JsonView,
        >::empty(),
        json::parsed(t) == Ok::<JsonView, Seq<char>>(JsonView::Object(members)) ==> meta::cached(
            Some(t),
        ) == members,
        json::array_member(j, "data"@) is None ==> meta::details_in(j).len() == 0,
        json::array_member(j, "data"@) matches Some(items) ==> meta::details_in(j)
            == meta::items_of(items),
{
}

/// A folder is taken for the game folder where any one sign is found in it.
pub proof fn law_one_sign_is_enough(r: SptRootCheck, s: RootSigns)
    requires
        game::tells_root(r, s),
    ensures
        !s.is_dir ==> !r.valid && r.note@ == "Folder does not exist."@,
        s.is_dir && s.spt ==> r.valid,
        s.is_dir && s.bepinex ==> r.valid,
        s.is_dir && s.launcher ==> r.valid,
        s.is_dir && s.game ==> r.valid,
        s.is_dir && s.server ==> r.valid,
        r.valid ==> r.note@ == "Looks like a valid SPT install."@,
        s.is_dir && !s.spt && !s.bepinex && !s.launcher && !s.game && !s.server ==> !r.valid
            && r.note@
            == "No SPT/, BepInEx/, or SPT executable found here. Make sure this is your SPT game folder."@,
{
}

/// The version that a configuration tells: its `sptVersion`, else its `akiVersion`, else its
/// `version`, of those that are texts.
pub proof fn law_spt_version_comes_first(j: JsonView)
    ensures
        json::str_member(j, "sptVersion"@) is Some ==> game::version_member(j) == json::str_member(
            j,
            "sptVersion"@,
        ),
        json::str_member(j, "sptVersion"@) is None && json::str_member(j, "akiVersion"@) is Some
            ==> game::version_member(j) == json::str_member(j, "akiVersion"@),
        json::str_member(j, "sptVersion"@) is None && json::str_member(j, "akiVersion"@) is None
            ==> game::version_member(j) == json::str_member(j, "version"@),
{
}

/// The configuration tells a version.
pub open spec fn tells_version(config: Option<String>) -> bool {
    config matches Some(t) && (json::parsed(t@) matches Ok(j) && (json::str_member(j, "sptVersion"@)
        is Some || json::str_member(j, "akiVersion"@) is Some || json::str_member(j, "version"@)
        is Some))
}

/// The first configuration that tells a version decides, and without any there is none.
pub proof fn law_first_configuration_decides(configs: Seq<Option<String>>, i: int)
    requires
        0 <= i <= configs.len(),
        forall|k: int| 0 <= k < i ==> !tells_version(#[trigger] configs[k]),
    ensures
        i < configs.len() && tells_version(configs[i]) ==> game::first_version(configs)
            == game::version_member(json::parsed((configs[i]->0)@)->Ok_0),
        i == configs.len() ==> game::first_version(configs) is None,
    decreases configs.len(),
{
    if configs.len() > 0 {
        let before = configs.drop_last();
        let last = configs.len() - 1;
        if i < last {
            assert forall|k: int| 0 <= k < i implies !tells_version(#[trigger] before[k]) by {
                assert(before[k] == configs[k]);
            }
            law_first_configuration_decides(before, i);
            assert(before[i] == configs[i]);
        } else {
            assert forall|k: int| 0 <= k < last implies !tells_version(#[trigger] before[k]) by {
                assert(before[k] == configs[k]);
            }
            law_first_configuration_decides(before, last);
            if i == configs.len() {
                assert(!tells_version(configs[last]));
            }
        }
    }
}

/// The files of a mod are shown where they are: in the game folder first, then in the store of
/// disabled mods; a folder itself, and of anything else the folder around it.
pub proof fn law_mods_are_shown_where_they_are(
    r: Result<Opening, String>,
    rel: Seq<char>,
    live: Found,
    stored: Found,
)
    requires
        game::opens(r, rel, live, stored),
    ensures
        !uninstall_laws::is_named(rel) ==> (r matches Err(e) && e@ == "Invalid mod path."@),
        uninstall_laws::is_named(rel) && !(live is Nothing) ==> (r matches Ok(o) && o.path@ == rel
            && (o.around <==> !(live is Folder))),
        uninstall_laws::is_named(rel) && live is Nothing && !(stored is Nothing) ==> (r matches Ok(
            o,
        ) && o.path@ == ".spt-mod-installer/disabled/"@ + rel && (o.around <==> !(stored
            is Folder))),
        uninstall_laws::is_named(rel) && live is Nothing && stored is Nothing ==> (r matches Err(e)
            && e@ == "Mod files not found."@),
{
    uninstall_laws::lemma_in_order(true, rel);
    uninstall_laws::lemma_in_the_store(seq![rel]);
    assert(crate::uninstall::all_in_store(seq![rel])[0] == paths::in_store(rel));
    assert(uninstall_laws::in_the_store(seq![rel])[0] == ".spt-mod-installer/disabled/"@ + rel);
}

/// Any answer of success brings the download, and no other does.
pub proof fn law_success_brings_the_download(r: Result<(), String>, status: u16)
    requires
        download::brings(r, status),
    ensures
        200 <= status <= 299 ==> r is Ok,
        status < 200 || 299 < status ==> (r matches Err(e) && e@ == "Download failed: HTTP "@
            + names::decimal(status as nat)),
{
}

/// Every part that is written counts, and progress is told at most every 150 milliseconds: after
/// more than that it is told, and before that it is not.
pub proof fn law_progress_is_counted_and_told(
    r: Written,
    p: Progress,
    len: u64,
    outcome: Result<(), String>,
    now: u128,
)
    requires
        download::goes_on(r, p, len, outcome, now),
    ensures
        outcome is Ok ==> (r matches Written::GoOn { progress, tell } && {
            &&& progress.received == p.received + len
            &&& now > p.told + 150 ==> tell
            &&& p.told <= now <= p.told + 150 ==> !tell
            &&& tell ==> progress.told == now
            &&& !tell ==> progress.told == p.told
        }),
        outcome matches Err(e) ==> (r matches Written::Abandon(message) && message@
            == "Write error: "@ + e@),
{
}

/// A member of an object is found by its name, and is what its kind says: a text is no number, and
/// a number no text.
pub proof fn law_members_are_found_by_name(
    m: Map<Seq<char>, JsonView>,
    key: Seq<char>,
    other: Seq<char>,
    v: JsonView,
    s: Seq<char>,
    n: u64,
    b: bool,
    items: Seq<JsonView>,
)
    ensures
        json::get(JsonView::Object(m.insert(key, v)), key) == Some(v),
        other != key ==> json::get(JsonView::Object(m.insert(key, v)), other) == json::get(
            JsonView::Object(m),
            other,
        ),
        json::get(JsonView::Object(m.remove(key)), key) is None,
        json::str_member(JsonView::Object(m.insert(key, JsonView::Str(s))), key) == Some(s),
        json::u64_member(JsonView::Object(m.insert(key, JsonView::Str(s))), key) is None,
        json::array_member(JsonView::Object(m.insert(key, JsonView::Str(s))), key) is None,
        json::u64_member(JsonView::Object(m.insert(key, JsonView::Unsigned(n))), key) == Some(n),
        json::str_member(JsonView::Object(m.insert(key, JsonView::Unsigned(n))), key) is None,
        json::bool_or_false(JsonView::Object(m.insert(key, JsonView::Bool(b))), key) == b,
        !json::bool_or_false(JsonView::Object(m.insert(key, JsonView::Str(s))), key),
        json::array_member(JsonView::Object(m.insert(key, JsonView::Array(items))), key) == Some(
            items,
        ),
{
}

/// The name of a mod is the name of its archive without the extension, whatever folder the archive
/// is in.
pub proof fn law_mods_are_called_by_their_archive(folder: Seq<char>, name: Seq<char>)
    requires
        name.len() > 0,
        !name.contains('/'),
        name != ".."@,
    ensures
        names::portable_stem(name) == Some(names::stem(name)),
        names::portable_stem(folder + "/"@ + name) == Some(names::stem(name)),
{
    let s = Separator::Slash;
    reveal_strlit("/");
    assert(text::uncut(name, s)) by {
        assert forall|i: int| 0 <= i < name.len() implies !s.cuts(#[trigger] name[i]) by {
            assert(name.contains(name[i]));
        }
    }
    text::lemma_pieces_uncut(name, s);
    assert(folder + "/"@ + name =~= folder.push('/') + name);
    text::lemma_pieces_at(folder, '/', name, s);
    let ps = text::pieces(folder, s) + seq![name];
    assert(ps.last() == name);
}

/// Dependencies come in the order of the answer, and a mod before what it needs itself; without a
/// list there are none.
pub proof fn law_dependencies_come_in_order(
    items: Seq<JsonView>,
    d: JsonView,
    have: Set<u64>,
    known: Missing,
)
    ensures
        ({
            let before = dependencies::after_node(JsonView::Array(items), have, known);
            let after = dependencies::after_node(JsonView::Array(items.push(d)), have, known);
            let id = json::u64_member(d, "id"@);
            &&& before.mods.is_prefix_of(after.mods)
            &&& (id matches Some(n) && n != 0 && !have.contains(n) && !before.seen.contains(n))
                ==> after.mods.len() > before.mods.len() && tells(after.mods[before.mods.len() as int], d)
        }),
        forall|j: JsonView|
            json::get(j, "data"@) is None ==> (#[trigger] dependencies::needed(j, have)).len() == 0,
{
    let all = items.push(d);
    let before = dependencies::after_items(items, have, known);
    let met = dependencies::with_dependency(d, have, before);
    let after = dependencies::after_item(d, have, before);
    assert(all.drop_last() =~= items);
    assert(all.last() == d);
    assert(dependencies::after_items(all, have, known) == dependencies::after_item(
        all.last(),
        have,
        dependencies::after_items(all.drop_last(), have, known),
    ));
    assert(dependencies::after_node(JsonView::Array(items), have, known) == before);
    assert(dependencies::after_node(JsonView::Array(all), have, known) == after);
    lemma_item_tells(d, have, before);
    assert(after.mods.subrange(0, before.mods.len() as int) =~= before.mods);
    lemma_item_after_itself(d, have, before);
    assert forall|j: JsonView| json::get(j, "data"@) is None implies (
    #[trigger] dependencies::needed(j, have)).len() == 0 by {
        reveal(Seq::filter);
    }
}

proof fn lemma_item_after_itself(d: JsonView, have: Set<u64>, known: Missing)
    ensures
        ({
            let met = dependencies::with_dependency(d, have, known);
            let after = dependencies::after_item(d, have, known);
            &&& met.mods.len() <= after.mods.len()
            &&& forall|k: int| 0 <= k < met.mods.len() ==> #[trigger] after.mods[k] == met.mods[k]
        }),
{
    let met = dependencies::with_dependency(d, have, known);
    if let JsonView::Object(m) = d {
        if m.dom().contains("dependencies"@) {
            lemma_node_tells(m["dependencies"@], have, met);
            assert(dependencies::after_item(d, have, known) == dependencies::after_node(
                m["dependencies"@],
                have,
                met,
            ));
        }
    }
}

/// A path that leads down from where it is stays in the root, and one that starts with a slash
/// does where it starts with the root, component by component.
pub proof fn law_paths_below_the_root_stay(root: Seq<char>, path: Seq<char>, rest: Seq<char>)
    requires
        root.len() > 0,
        root[0] == '/',
    ensures
        paths::is_relative(path) ==> paths::stays_below(root, path),
        paths::stays_below(root, root + "/"@ + rest),
        path.len() > 0 && path[0] == '/' && !paths::components(root).is_prefix_of(
            paths::components(path),
        ) ==> !paths::stays_below(root, path),
{
    let s = Separator::Slash;
    reveal_strlit("/");
    let whole = root + "/"@ + rest;
    assert(whole =~= root.push('/') + rest);
    text::lemma_pieces_at(root, '/', rest, s);
    let keep = |p: Seq<char>| p != "."@;
    Seq::filter_distributes_over_add(text::pieces(root, s), text::pieces(rest, s), keep);
    let a = paths::components(root);
    let b = paths::components(rest);
    assert(paths::components(whole) == a + b);
    assert((a + b).subrange(0, a.len() as int) =~= a);
}

/// Details that are kept replace what was kept of the mod before: they are shown, with the picture
/// that was kept, and are not fetched again for a day; what is kept of other mods is as it was.
pub proof fn law_details_are_remembered(
    m: Map<Seq<char>, JsonView>,
    item: MetaView,
    thumb: Seq<char>,
    then: u64,
    now: u64,
    other: u64,
)
    ensures
        ({
            let after = meta::remembered(m, item, thumb, then);
            &&& meta::all_shown(after, seq![item.id]) == seq![
                MetaView { thumbnail: thumb, ..item },
            ]
            &&& meta::stale(after, seq![item.id], now).len() == 0 <==> now < then + 24 * 60 * 60
                * 1000
            &&& other != item.id ==> meta::all_shown(after, seq![other]) == meta::all_shown(
                m,
                seq![other],
            ) && meta::stale(after, seq![other], now) == meta::stale(m, seq![other], now)
        }),
{
    let after = meta::remembered(m, item, thumb, then);
    let none = Seq::<u64>::empty();
    assert(none.push(item.id) =~= seq![item.id]);
    assert(none.push(other) =~= seq![other]);
    meta::law_kept_details_are_shown(m, item, thumb, then);
    meta::law_details_last_a_day(m, item, thumb, then, now);
    assert(seq![item.id].drop_last() =~= none);
    assert(meta::all_shown(after, none) =~= Seq::empty());
    assert(meta::all_shown(after, seq![item.id]) =~= seq![MetaView { thumbnail: thumb, ..item }]);
    none.lemma_filter_push(item.id, |x: u64| !meta::is_fresh(after, x, now));
    none.lemma_filter_push(other, |x: u64| !meta::is_fresh(after, x, now));
    none.lemma_filter_push(other, |x: u64| !meta::is_fresh(m, x, now));
    reveal(Seq::filter);
    if other != item.id {
        meta::law_other_details_stay(m, item, thumb, then, other);
        assert(seq![other].drop_last() =~= none);
        assert(meta::all_shown(m, none) =~= Seq::empty());
    }
}

} // verus!
