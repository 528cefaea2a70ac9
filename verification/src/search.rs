//! Searching the catalogue of the Forge.
use crate::forge;
use crate::json;
use crate::json::{Json, JsonView};
use crate::text;
use vstd::prelude::*;

verus! {

/// A mod that a search found.
pub struct SearchResult {
    pub id: u64,
    pub name: String,
    pub slug: String,
    pub teaser: String,
    pub thumbnail: String,
    pub downloads: u64,
    pub fika: bool,
    pub author: String,
    pub category: String,
    pub featured: bool,
    pub version: Option<String>,
    pub link: Option<String>,
    pub size: Option<u64>,
    pub spt_constraint: Option<String>,
}

#[verifier::ext_equal]
pub struct SearchView {
    pub id: u64,
    pub name: Seq<char>,
    pub slug: Seq<char>,
    pub teaser: Seq<char>,
    pub thumbnail: Seq<char>,
    pub downloads: u64,
    pub fika: bool,
    pub author: Seq<char>,
    pub category: Seq<char>,
    pub featured: bool,
    pub version: Option<Seq<char>>,
    pub link: Option<Seq<char>>,
    pub size: Option<u64>,
    pub spt_constraint: Option<Seq<char>>,
}

impl View for SearchResult {
    type V = SearchView;

    open spec fn view(&self) -> SearchView {
        SearchView {
            id: self.id,
            name: self.name@,
            slug: self.slug@,
            teaser: self.teaser@,
            thumbnail: self.thumbnail@,
            downloads: self.downloads,
            fika: self.fika,
            author: self.author@,
            category: self.category@,
            featured: self.featured,
            version: text::text_opt(self.version),
            link: text::text_opt(self.link),
            size: self.size,
            spt_constraint: text::text_opt(self.spt_constraint),
        }
    }
}

pub open spec fn search_views(v: Seq<SearchResult>) -> Seq<SearchView> {
    v.map_values(|r: SearchResult| r@)
}

/// The string member called `key` of the member called `outer`; the empty string where there is
/// none.
pub open spec fn inner_str(j: JsonView, outer: Seq<char>, key: Seq<char>) -> Seq<char> {
    match json::get(j, outer) {
        Some(x) => json::str_or_empty(x, key),
        None => Seq::empty(),
    }
}

pub fn inner_text(j: &Json, outer: &str, key: &str) -> (r: String)
    ensures
        r@ == inner_str(j@, outer@, key@),
{
    match j.get(outer) {
        Some(x) => x.str_or_empty(key),
        None => String::new(),
    }
}

/// The first of the versions of a mod, which is the latest.
pub open spec fn latest_of(m: JsonView) -> Option<JsonView> {
    match json::array_member(m, "versions"@) {
        Some(vs) => if vs.len() > 0 {
            Some(vs[0])
        } else {
            None
        },
        None => None,
    }
}

/// The mod that an item of an answer tells of; none where it has no id.
pub open spec fn search_mod(m: JsonView) -> Option<SearchView> {
    let id = json::u64_or_zero(m, "id"@);
    let name = json::str_or_empty(m, "name"@);
    let slug = json::str_or_empty(m, "slug"@);
    let latest = latest_of(m);
    if id == 0 {
        None
    } else {
        Some(
            SearchView {
                id,
                name: if name.len() == 0 {
                    forge::title(slug)
                } else {
                    name
                },
                slug,
                teaser: json::str_or_empty(m, "teaser"@),
                thumbnail: json::str_or_empty(m, "thumbnail"@),
                downloads: json::u64_or_zero(m, "downloads"@),
                fika: json::bool_or_false(m, "fika_compatibility"@),
                author: inner_str(m, "owner"@, "name"@),
                category: inner_str(m, "category"@, "title"@),
                featured: json::bool_or_false(m, "featured"@),
                version: json::str_within(latest, "version"@),
                link: json::str_within(latest, "link"@),
                size: json::u64_within(latest, "content_length"@),
                spt_constraint: json::str_within(latest, "spt_version_constraint"@),
            },
        )
    }
}

/// The mod that an item of an answer tells of.
pub fn parse_search_mod(m: &Json) -> (r: Option<SearchResult>)
    ensures
        match r {
            Some(x) => search_mod(m@) == Some(x@),
            None => search_mod(m@) is None,
        },
{
    let id: u64 = m.u64_or_zero("id");
    if id == 0 {
        return None;
    }
    let name = m.str_or_empty("name");
    let slug = m.str_or_empty("slug");
    let latest: Option<&Json> = match m.array_member("versions") {
        Some(vs) => {
            assert(json::views(vs@).len() == vs@.len());
            if vs.len() > 0 {
                assert(json::views(vs@)[0] == vs@[0]@);
                Some(&vs[0])
            } else {
                None
            }
        },
        None => None,
    };
    let (version, link, size, spt_constraint) = match latest {
        Some(x) => (
            x.str_member("version"),
            x.str_member("link"),
            x.u64_member("content_length"),
            x.str_member("spt_version_constraint"),
        ),
        None => (None, None, None, None),
    };
    let r = SearchResult {
        id,
        name: if name.as_str().is_empty() {
            forge::prettify(slug.as_str())
        } else {
            name
        },
        slug,
        teaser: m.str_or_empty("teaser"),
        thumbnail: m.str_or_empty("thumbnail"),
        downloads: m.u64_or_zero("downloads"),
        fika: m.bool_or_false("fika_compatibility"),
        author: inner_text(m, "owner", "name"),
        category: inner_text(m, "category", "title"),
        featured: m.bool_or_false("featured"),
        version,
        link,
        size,
        spt_constraint,
    };
    assert(search_mod(m@)->0 =~= r@);
    Some(r)
}

/// The mods that the items tell of, in order.
pub open spec fn search_mods_in(items: Seq<JsonView>) -> Seq<SearchView>
    decreases items.len(),
{
    if items.len() == 0 {
        Seq::empty()
    } else {
        let before = search_mods_in(items.drop_last());
        match search_mod(items.last()) {
            Some(r) => before.push(r),
            None => before,
        }
    }
}

/// The mods that an answer to a search tells of.
pub open spec fn search_results(j: JsonView) -> Seq<SearchView> {
    match json::array_member(j, "data"@) {
        Some(items) => search_mods_in(items),
        None => Seq::empty(),
    }
}

/// The mods that a parsed answer to a search tells of.
pub fn found_mods(j: &Json) -> (r: Vec<SearchResult>)
    ensures
        search_views(r@) == search_results(j@),
{
    let mut out: Vec<SearchResult> = Vec::new();
    assert(search_views(out@) =~= Seq::empty());
    let items = match j.array_member("data") {
        Some(v) => v,
        None => return out,
    };
    let ghost js = json::views(items@);
    assert(js.take(0) =~= Seq::empty());
    for i in 0..items.len()
        invariant
            js == json::views(items@),
            search_views(out@) == search_mods_in(js.take(i as int)),
    {
        assert(js.take(i + 1).drop_last() =~= js.take(i as int));
        assert(js.take(i + 1).last() == items@[i as int]@);
        if let Some(r) = parse_search_mod(&items[i]) {
            let ghost was = search_views(out@);
            let ghost view = r@;
            out.push(r);
            assert(search_views(out@) =~= was.push(view));
        }
    }
    assert(js.take(js.len() as int) =~= js);
    out
}

/// The Forge is asked: the query is not blank.
pub open spec fn asks(query: Seq<char>) -> bool {
    !text::blank(query)
}

/// Whether the Forge is asked at all: a blank query finds nothing.
pub fn worth_searching(query: &str) -> (r: bool)
    ensures
        r == asks(query@),
{
    !text::is_blank(query)
}

/// The mods that the body of an answer to a search tells of; an error where it is not JSON.
pub fn search_mods(body: &str) -> (r: Result<Vec<SearchResult>, String>)
    ensures
        match json::parsed(body@) {
            Ok(j) => r matches Ok(v) && search_views(v@) == search_results(j),
            Err(e) => r matches Err(told) && told@ == e,
        },
{
    match json::parse(body) {
        Ok(j) => Ok(found_mods(&j)),
        Err(e) => Err(e),
    }
}

/// Every mod that a search gives has an id.
pub proof fn law_found_mods_have_ids(items: Seq<JsonView>)
    ensures
        forall|k: int|
            0 <= k < search_mods_in(items).len() ==> (#[trigger] search_mods_in(items)[k]).id != 0,
    decreases items.len(),
{
    if items.len() > 0 {
        law_found_mods_have_ids(items.drop_last());
        let before = search_mods_in(items.drop_last());
        let all = search_mods_in(items);
        assert forall|k: int| 0 <= k < all.len() implies (#[trigger] all[k]).id != 0 by {
            if k < before.len() {
                assert(all[k] == before[k]);
            }
        }
    }
}

} // verus!
