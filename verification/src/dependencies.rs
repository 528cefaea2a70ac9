//! The mods that other mods need: which of them are missing.
use crate::forge;
use crate::forge::{ResolvedMod, ResolvedView};
use crate::json;
use crate::json::{Json, JsonView};
use crate::manifest;
use crate::manifest::{Manifest, ManifestView};
use crate::names;
use crate::text;
use std::collections::HashSet;
use vstd::prelude::*;

verus! {

/// The mod that an item of a dependency list tells of.
pub open spec fn dependency(d: JsonView) -> ResolvedView {
    let name = json::str_or_empty(d, "name"@);
    let slug = json::str_or_empty(d, "slug"@);
    let latest = json::get(d, "latest_compatible_version"@);
    ResolvedView {
        id: json::u64_or_zero(d, "id"@),
        name: if name.len() == 0 {
            forge::title(slug)
        } else {
            name
        },
        slug,
        version: json::str_within(latest, "version"@),
        link: json::str_within(latest, "link"@),
        size: json::u64_within(latest, "content_length"@),
        spt_constraint: None,
        note: None,
    }
}

/// The item tells of a mod that is neither there nor known to be missing yet.
pub open spec fn is_news(d: JsonView, have: Set<u64>, seen: Set<u64>) -> bool {
    let id = json::u64_or_zero(d, "id"@);
    id != 0 && !have.contains(id) && !seen.contains(id)
}

/// What is known while a dependency tree is gone through: the ids of the missing mods, and the
/// missing mods in the order in which they were met.
#[verifier::ext_equal]
pub struct Missing {
    pub seen: Set<u64>,
    pub mods: Seq<ResolvedView>,
}

pub open spec fn with_dependency(d: JsonView, have: Set<u64>, known: Missing) -> Missing {
    if is_news(d, have, known.seen) {
        Missing {
            seen: known.seen.insert(json::u64_or_zero(d, "id"@)),
            mods: known.mods.push(dependency(d)),
        }
    } else {
        known
    }
}

/// What is known after a node of the tree: each item of a list, then what that item needs itself.
pub open spec fn after_node(j: JsonView, have: Set<u64>, known: Missing) -> Missing
    decreases j,
{
    match j {
        JsonView::Array(items) => after_items(items, have, known),
        _ => known,
    }
}

pub open spec fn after_items(items: Seq<JsonView>, have: Set<u64>, known: Missing) -> Missing
    decreases items,
{
    if items.len() == 0 {
        known
    } else {
        after_item(items.last(), have, after_items(items.drop_last(), have, known))
    }
}

pub open spec fn after_item(d: JsonView, have: Set<u64>, known: Missing) -> Missing
    decreases d,
{
    let met = with_dependency(d, have, known);
    match d {
        JsonView::Object(m) => if m.dom().contains("dependencies"@) {
            after_node(m["dependencies"@], have, met)
        } else {
            met
        },
        _ => met,
    }
}

fn dependency_of(d: &Json) -> (r: ResolvedMod)
    ensures
        r@ == dependency(d@),
{
    let name = d.str_or_empty("name");
    let slug = d.str_or_empty("slug");
    let (version, link, size) = match d.get("latest_compatible_version") {
        Some(x) => (x.str_member("version"), x.str_member("link"), x.u64_member("content_length")),
        None => (None, None, None),
    };
    let r = ResolvedMod {
        id: d.u64_or_zero("id"),
        name: if name.as_str().is_empty() {
            forge::prettify(slug.as_str())
        } else {
            name
        },
        slug,
        version,
        link,
        size,
        spt_constraint: None,
        note: None,
    };
    assert(r@ =~= dependency(d@));
    r
}

/// What is known, from the ids of the missing mods and the list of them.
pub open spec fn missing(seen: HashSet<u64>, mods: Vec<ResolvedMod>) -> Missing {
    Missing { seen: seen@, mods: forge::resolved_views(mods@) }
}

/// Goes through a node of the dependency tree.
pub fn collect_deps(
    node: &Json,
    have: &HashSet<u64>,
    seen: &mut HashSet<u64>,
    out: &mut Vec<ResolvedMod>,
)
    ensures
        missing(*final(seen), *final(out)) == after_node(
            node@,
            have@,
            missing(*old(seen), *old(out)),
        ),
    decreases node@,
{
    broadcast use vstd::std_specs::hash::group_hash_axioms;

    let items = match node.as_array() {
        Some(v) => v,
        None => return,
    };
    let ghost js = json::views(items@);
    let ghost before = missing(*seen, *out);
    assert(node@ == JsonView::Array(js));
    assert(js.take(0) =~= Seq::empty());
    for i in 0..items.len()
        invariant
            js == json::views(items@),
            node@ == JsonView::Array(js),
            missing(*seen, *out) == after_items(js.take(i as int), have@, before),
    {
        broadcast use vstd::std_specs::hash::group_hash_axioms;

        let d = &items[i];
        let ghost known = missing(*seen, *out);
        let ghost met = with_dependency(d@, have@, known);
        assert(js[i as int] == d@);
        assert(js.take(i + 1).drop_last() =~= js.take(i as int));
        assert(js.take(i + 1).last() == d@);
        let id: u64 = d.u64_or_zero("id");
        if id != 0 && !have.contains(&id) && seen.insert(id) {
            let m = dependency_of(d);
            let ghost was = forge::resolved_views(out@);
            out.push(m);
            assert(forge::resolved_views(out@) =~= was.push(dependency(d@)));
        }
        assert(missing(*seen, *out) =~= met);
        if let Some(deps) = d.get("dependencies") {
            proof {
                let m = d@->Object_0;
                assert(d@ == JsonView::Object(m) && m.dom().contains("dependencies"@));
                assert(deps@ == m["dependencies"@]);
                assert(decreases_to!(d@ => d@->Object_0["dependencies"@]));
                assert(decreases_to!(node@ => node@->Array_0[i as int]));
            }
            collect_deps(deps, have, seen, out);
        }
        assert(missing(*seen, *out) == after_item(d@, have@, known));
    }
    assert(js.take(js.len() as int) =~= js);
}

/// Nothing is known to be missing.
pub open spec fn nothing_missing() -> Missing {
    Missing { seen: Set::empty(), mods: Seq::empty() }
}

/// The missing mods that the items of an answer tell of and that can be downloaded.
pub open spec fn needed(j: JsonView, have: Set<u64>) -> Seq<ResolvedView> {
    let found = match json::get(j, "data"@) {
        Some(data) => after_node(data, have, nothing_missing()).mods,
        None => Seq::empty(),
    };
    found.filter(|m: ResolvedView| m.link is Some)
}

fn with_links(all: Vec<ResolvedMod>) -> (r: Vec<ResolvedMod>)
    ensures
        forge::resolved_views(r@) == forge::resolved_views(all@).filter(
            |m: ResolvedView| m.link is Some,
        ),
{
    let ghost s = forge::resolved_views(all@);
    let ghost keep = |m: ResolvedView| m.link is Some;
    let mut rest = all;
    let mut r: Vec<ResolvedMod> = Vec::new();
    let n: usize = rest.len();
    proof {
        text::lemma_filter_none(s, keep);
        assert(s.skip(0) =~= s);
        assert(forge::resolved_views(r@) =~= Seq::empty());
    }
    for i in 0..n
        invariant
            n == s.len(),
            keep == (|m: ResolvedView| m.link is Some),
            forge::resolved_views(rest@) == s.skip(i as int),
            forge::resolved_views(r@) == s.take(i as int).filter(keep),
    {
        assert(forge::resolved_views(rest@).len() == rest@.len());
        let ghost was = forge::resolved_views(rest@);
        let m = rest.remove(0);
        proof {
            assert(m@ == was[0]);
            assert(forge::resolved_views(rest@) =~= was.skip(1));
            assert(was.skip(1) =~= s.skip(i + 1));
            text::lemma_filter_next(s, keep, i as int);
        }
        if m.link.is_some() {
            let ghost had = forge::resolved_views(r@);
            let ghost view = m@;
            r.push(m);
            assert(forge::resolved_views(r@) =~= had.push(view));
        }
    }
    assert(s.take(n as int) =~= s);
    r
}

/// The missing mods that a parsed answer tells of and that can be downloaded.
pub fn missing_mods(j: &Json, have: &HashSet<u64>) -> (r: Vec<ResolvedMod>)
    ensures
        forge::resolved_views(r@) == needed(j@, have@),
{
    broadcast use vstd::std_specs::hash::group_hash_axioms;

    let mut seen: HashSet<u64> = HashSet::new();
    let mut out: Vec<ResolvedMod> = Vec::new();
    assert(missing(seen, out) =~= nothing_missing());
    match j.get("data") {
        Some(data) => collect_deps(data, have, &mut seen, &mut out),
        None => {},
    }
    with_links(out)
}

/// The missing mods that the body of an answer tells of and that can be downloaded; an error where
/// it is not JSON.
pub fn resolve_dependencies(body: &str, have: &HashSet<u64>) -> (r: Result<Vec<ResolvedMod>, String>)
    ensures
        match json::parsed(body@) {
            Ok(j) => r matches Ok(v) && forge::resolved_views(v@) == needed(j, have@),
            Err(e) => r matches Err(told) && told@ == e,
        },
{
    match json::parse(body) {
        Ok(j) => Ok(missing_mods(&j, have)),
        Err(e) => Err(e),
    }
}

/// The mod with this id is installed from a manifest or is going to be installed.
pub open spec fn is_there(ms: Seq<ManifestView>, mods: Seq<(u64, Seq<char>)>, id: u64) -> bool {
    (exists|i: int| 0 <= i < ms.len() && (#[trigger] ms[i]).forge_id == Some(id)) || forge::has_id(
        mods,
        id,
    )
}

/// What the Forge is asked: for each mod its id and version.
pub open spec fn asked(mods: Seq<(u64, Seq<char>)>) -> Seq<Seq<char>> {
    mods.map_values(|m: (u64, Seq<char>)| names::decimal(m.0 as nat) + ":"@ + m.1)
}

/// What is asked about a set of mods.
pub struct DependencyQuery {
    /// The ids of the mods that need not be installed any more.
    pub have: HashSet<u64>,
    pub mods: String,
}

fn query_text(mods: &[(u64, String)]) -> (r: String)
    ensures
        r@ == text::join(asked(forge::mod_views(mods@)), ","@),
{
    let ghost parts = asked(forge::mod_views(mods@));
    let mut v: Vec<String> = Vec::new();
    for i in 0..mods.len()
        invariant
            parts == asked(forge::mod_views(mods@)),
            parts.len() == mods@.len(),
            text::texts(v@) =~= parts.take(i as int),
    {
        let ghost was = text::texts(v@);
        let mut one = names::decimal_text(mods[i].0 as u128);
        one.append(":");
        one.append(mods[i].1.as_str());
        v.push(one);
        assert(text::texts(v@) =~= was.push(parts[i as int]));
    }
    assert(text::texts(v@) =~= parts);
    assert(parts.skip(0) =~= parts);
    text::join_from(v.as_slice(), 0, ",")
}

/// `r` is what is asked about the mods that are going to be installed.
pub open spec fn asks(
    r: Option<DependencyQuery>,
    ms: Seq<ManifestView>,
    mods: Seq<(u64, Seq<char>)>,
) -> bool {
    match r {
        Some(q) => {
            &&& mods.len() > 0
            &&& forall|id: u64| #[trigger] q.have@.contains(id) <==> is_there(ms, mods, id)
            &&& q.mods@ == text::join(asked(mods), ","@)
        },
        None => mods.len() == 0,
    }
}

/// What to ask about the mods that are going to be installed; nothing where there are none.
pub fn dependency_query(manifests: &[Manifest], mods: &[(u64, String)]) -> (r: Option<
    DependencyQuery,
>)
    ensures
        asks(r, manifest::manifest_views(manifests@), forge::mod_views(mods@)),
{
    broadcast use vstd::std_specs::hash::group_hash_axioms;

    if mods.len() == 0 {
        return None;
    }
    let ghost ms = manifest::manifest_views(manifests@);
    let ghost vs = forge::mod_views(mods@);
    let mut have: HashSet<u64> = HashSet::new();
    for i in 0..manifests.len()
        invariant
            ms == manifest::manifest_views(manifests@),
            forall|id: u64| #[trigger]
                have@.contains(id) <==> exists|k: int|
                    0 <= k < i && (#[trigger] ms[k]).forge_id == Some(id),
    {
        broadcast use vstd::std_specs::hash::group_hash_axioms;

        let ghost was = have@;
        assert(ms[i as int] == manifests@[i as int]@);
        if let Some(new) = manifests[i].forge_id {
            have.insert(new);
            assert(have@ == was.insert(new));
        }
        assert forall|id: u64| #[trigger] have@.contains(id) <==> exists|k: int|
            0 <= k < i + 1 && (#[trigger] ms[k]).forge_id == Some(id) by {
            if have@.contains(id) && !was.contains(id) {
                assert(ms[i as int].forge_id == Some(id));
            }
            if exists|k: int| 0 <= k < i + 1 && (#[trigger] ms[k]).forge_id == Some(id) {
                let k = choose|k: int| 0 <= k < i + 1 && (#[trigger] ms[k]).forge_id == Some(id);
                if k < i {
                    assert(was.contains(id));
                }
            }
        }
    }
    let ghost installed = have@;
    for i in 0..mods.len()
        invariant
            vs == forge::mod_views(mods@),
            forall|id: u64| #[trigger]
                have@.contains(id) <==> installed.contains(id) || exists|k: int|
                    0 <= k < i && (#[trigger] vs[k]).0 == id,
    {
        broadcast use vstd::std_specs::hash::group_hash_axioms;

        let ghost was = have@;
        let new: u64 = mods[i].0;
        have.insert(new);
        assert(vs[i as int].0 == new);
        assert(have@ == was.insert(new));
        assert forall|id: u64| #[trigger] have@.contains(id) <==> installed.contains(id) || exists|
            k: int,
        |
            0 <= k < i + 1 && (#[trigger] vs[k]).0 == id by {
            if exists|k: int| 0 <= k < i + 1 && (#[trigger] vs[k]).0 == id {
                let k = choose|k: int| 0 <= k < i + 1 && (#[trigger] vs[k]).0 == id;
                if k < i {
                    assert(was.contains(id));
                }
            }
        }
    }
    assert forall|id: u64| #[trigger] have@.contains(id) <==> is_there(ms, vs, id) by {
        assert(installed.contains(id) <==> exists|k: int|
            0 <= k < ms.len() && (#[trigger] ms[k]).forge_id == Some(id));
    }
    Some(DependencyQuery { have, mods: query_text(mods) })
}

/// What is known is sound: every missing mod has an id, is not there, and comes once.
pub open spec fn is_sound(known: Missing, have: Set<u64>) -> bool {
    &&& forall|i: int|
        0 <= i < known.mods.len() ==> (#[trigger] known.mods[i]).id != 0 && !have.contains(
            known.mods[i].id,
        ) && known.seen.contains(known.mods[i].id)
    &&& forall|i: int, j: int|
        0 <= i < j < known.mods.len() ==> (#[trigger] known.mods[i]).id != (
        #[trigger] known.mods[j]).id
    &&& forall|id: u64| #[trigger]
        known.seen.contains(id) ==> exists|i: int|
            0 <= i < known.mods.len() && (#[trigger] known.mods[i]).id == id
}

proof fn lemma_with_dependency(d: JsonView, have: Set<u64>, known: Missing)
    requires
        is_sound(known, have),
    ensures
        is_sound(with_dependency(d, have, known), have),
{
    let now = with_dependency(d, have, known);
    if is_news(d, have, known.seen) {
        let new = json::u64_or_zero(d, "id"@);
        assert forall|id: u64| #[trigger] now.seen.contains(id) implies exists|i: int|
            0 <= i < now.mods.len() && (#[trigger] now.mods[i]).id == id by {
            if id == new {
                assert(now.mods[known.mods.len() as int].id == id);
            } else {
                let i = choose|i: int|
                    0 <= i < known.mods.len() && (#[trigger] known.mods[i]).id == id;
                assert(now.mods[i].id == id);
            }
        }
        assert forall|i: int| 0 <= i < now.mods.len() implies (#[trigger] now.mods[i]).id != 0
            && !have.contains(now.mods[i].id) && now.seen.contains(now.mods[i].id) by {
            if i < known.mods.len() {
                assert(now.mods[i] == known.mods[i]);
            }
        }
        assert forall|i: int, j: int| 0 <= i < j < now.mods.len() implies (
        #[trigger] now.mods[i]).id != (#[trigger] now.mods[j]).id by {
            assert(now.mods[i] == known.mods[i]);
            if j < known.mods.len() {
                assert(now.mods[j] == known.mods[j]);
            }
        }
    }
}

/// Nothing is installed twice: the missing mods of a dependency tree have ids, are not there, and
/// come once each.
pub proof fn law_missing_mods_are_new(j: JsonView, have: Set<u64>, known: Missing)
    requires
        is_sound(known, have),
    ensures
        is_sound(after_node(j, have, known), have),
    decreases j,
{
    match j {
        JsonView::Array(items) => lemma_items_are_new(items, have, known),
        _ => {},
    }
}

proof fn lemma_items_are_new(items: Seq<JsonView>, have: Set<u64>, known: Missing)
    requires
        is_sound(known, have),
    ensures
        is_sound(after_items(items, have, known), have),
    decreases items,
{
    if items.len() > 0 {
        lemma_items_are_new(items.drop_last(), have, known);
        lemma_item_is_new(items.last(), have, after_items(items.drop_last(), have, known));
    }
}

proof fn lemma_item_is_new(d: JsonView, have: Set<u64>, known: Missing)
    requires
        is_sound(known, have),
    ensures
        is_sound(after_item(d, have, known), have),
    decreases d,
{
    let met = with_dependency(d, have, known);
    lemma_with_dependency(d, have, known);
    match d {
        JsonView::Object(m) => {
            if m.dom().contains("dependencies"@) {
                law_missing_mods_are_new(m["dependencies"@], have, met);
                assert(after_item(d, have, known) == after_node(m["dependencies"@], have, met));
            }
        },
        _ => {},
    }
}

/// The id occurs somewhere in the dependency tree.
pub open spec fn mentions(j: JsonView, id: u64) -> bool
    decreases j,
{
    match j {
        JsonView::Array(items) => items_mention(items, id),
        _ => false,
    }
}

pub open spec fn items_mention(items: Seq<JsonView>, id: u64) -> bool
    decreases items,
{
    items.len() > 0 && (item_mentions(items.last(), id) || items_mention(items.drop_last(), id))
}

pub open spec fn item_mentions(d: JsonView, id: u64) -> bool
    decreases d,
{
    json::u64_or_zero(d, "id"@) == id || match d {
        JsonView::Object(m) => if m.dom().contains("dependencies"@) {
            mentions(m["dependencies"@], id)
        } else {
            false
        },
        _ => false,
    }
}

/// Missing dependencies are detected at every depth: after a dependency tree, the known ids are
/// those known before and those that occur in the tree and are not there.
pub proof fn law_every_dependency_is_found(j: JsonView, have: Set<u64>, known: Missing, id: u64)
    ensures
        after_node(j, have, known).seen.contains(id) <==> known.seen.contains(id) || (mentions(
            j,
            id,
        ) && id != 0 && !have.contains(id)),
    decreases j,
{
    match j {
        JsonView::Array(items) => {
            lemma_items_are_found(items, have, known, id);
            assert(mentions(j, id) == items_mention(items, id));
        },
        _ => {},
    }
}

proof fn lemma_items_are_found(items: Seq<JsonView>, have: Set<u64>, known: Missing, id: u64)
    ensures
        after_items(items, have, known).seen.contains(id) <==> known.seen.contains(id) || (
        items_mention(items, id) && id != 0 && !have.contains(id)),
    decreases items,
{
    if items.len() > 0 {
        let before = after_items(items.drop_last(), have, known);
        lemma_items_are_found(items.drop_last(), have, known, id);
        lemma_item_is_found(items.last(), have, before, id);
        assert(after_items(items, have, known) == after_item(items.last(), have, before));
        assert(items_mention(items, id) == (item_mentions(items.last(), id) || items_mention(
            items.drop_last(),
            id,
        )));
    }
}

proof fn lemma_item_is_found(d: JsonView, have: Set<u64>, known: Missing, id: u64)
    ensures
        after_item(d, have, known).seen.contains(id) <==> known.seen.contains(id) || (
        item_mentions(d, id) && id != 0 && !have.contains(id)),
    decreases d,
{
    let met = with_dependency(d, have, known);
    match d {
        JsonView::Object(m) => {
            if m.dom().contains("dependencies"@) {
                law_every_dependency_is_found(m["dependencies"@], have, met, id);
                assert(after_item(d, have, known) == after_node(m["dependencies"@], have, met));
                assert(item_mentions(d, id) == (json::u64_or_zero(d, "id"@) == id || mentions(
                    m["dependencies"@],
                    id,
                )));
            }
        },
        _ => {},
    }
}

} // verus!
