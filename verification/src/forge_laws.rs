//! What looking mods up on the Forge is for: versions, updates, searches and lists, told from what
//! is installed and what the Forge answers.
use crate::forge;
use crate::forge::{Download, Release, Reply, Step};
use crate::json;
use crate::json::JsonView;
use crate::manifest::ManifestView;
use crate::names;
use crate::search;
use crate::search::SearchView;
use crate::text;
use crate::text::Separator;
use crate::updates;
use crate::updates::InstalledView;
use crate::version;
use vstd::prelude::*;

verus! {

/// Number `i` of a version; versions go on with zeros.
pub open spec fn number_at(v: Seq<char>, i: int) -> u64 {
    if 0 <= i < version::version(v).len() {
        version::version(v)[i]
    } else {
        0
    }
}

/// An update is offered where the release is newer, at whatever position: where its numbers are
/// greater at the first position where they differ from those of the installed version. It tells
/// the installed version and all that the release tells.
pub proof fn law_newer_releases_are_offered(m: InstalledView, latest: Release, i: int)
    requires
        0 <= i,
        forall|j: int|
            0 <= j < i ==> #[trigger] number_at(latest.version@, j) == number_at(m.version, j),
        number_at(latest.version@, i) > number_at(m.version, i),
    ensures
        updates::update(m, Ok(Some(latest))) matches Some(u) && {
            &&& u.forge_id == m.forge_id
            &&& u.name == updates::display_name(m.hint)
            &&& u.installed_version == m.version
            &&& u.latest_version == latest.version@
            &&& u.link == latest.link@
            &&& u.size == latest.size
            &&& u.changelog == text::text_opt(latest.changelog)
        },
{
    let a = version::version(latest.version@);
    let b = version::version(m.version);
    assert forall|j: int| 0 <= j < i implies version::nth(a, j) == version::nth(b, j) by {
        assert(number_at(latest.version@, j) == number_at(m.version, j));
    }
    assert(version::greater_at(a, b, i));
}

/// No update is offered where the release is not newer: where its numbers are the same throughout,
/// or smaller at the first position where they differ; nor where no release was found.
pub proof fn law_other_releases_are_not_offered(m: InstalledView, latest: Release, i: int)
    requires
        0 <= i,
        forall|j: int|
            0 <= j < i ==> #[trigger] number_at(latest.version@, j) == number_at(m.version, j),
        number_at(latest.version@, i) < number_at(m.version, i) || forall|j: int|
            i <= j ==> #[trigger] number_at(latest.version@, j) == number_at(m.version, j),
    ensures
        updates::update(m, Ok(Some(latest))) is None,
        updates::update(m, Ok(None)) is None,
        forall|e: String| (#[trigger] updates::update(m, Err(e))) is None,
{
    let a = version::version(latest.version@);
    let b = version::version(m.version);
    assert forall|k: int| !(#[trigger] version::greater_at(a, b, k)) by {
        if version::greater_at(a, b, k) {
            if number_at(latest.version@, i) < number_at(m.version, i) {
                if k < i {
                    assert(number_at(latest.version@, k) == number_at(m.version, k));
                } else if i < k {
                    assert(version::nth(a, i) == version::nth(b, i));
                }
            } else {
                assert(number_at(latest.version@, k) == number_at(m.version, k));
            }
        }
    }
}

proof fn lemma_fields_append(a: Seq<Seq<char>>, b: Seq<Seq<char>>)
    ensures
        version::fields(a + b) == version::fields(a) + version::fields(b),
    decreases b.len(),
{
    if b.len() > 0 {
        assert((a + b).drop_last() =~= a + b.drop_last());
        lemma_fields_append(a, b.drop_last());
        assert(version::fields(a + b) =~= version::fields(a) + version::fields(b));
    } else {
        assert(a + b =~= a);
        assert(version::fields(a) + version::fields(b) =~= version::fields(a));
    }
}

/// A dot, a hyphen, a plus sign and a space part the numbers of a version.
pub proof fn law_versions_are_parted(a: Seq<char>, c: char, b: Seq<char>)
    requires
        c == '.' || c == '-' || c == '+' || c == ' ',
    ensures
        version::version(a + seq![c] + b) == version::version(a) + version::version(b),
{
    assert(a + seq![c] + b =~= a.push(c) + b);
    text::lemma_split_at(a, c, b, Separator::Version);
    lemma_fields_append(text::split(a, Separator::Version), text::split(b, Separator::Version));
}

proof fn lemma_digits(digits: Seq<char>, rest: Seq<char>)
    requires
        forall|i: int| 0 <= i < digits.len() ==> '0' <= #[trigger] digits[i] <= '9',
        rest.len() > 0 ==> !('0' <= rest[0] <= '9'),
    ensures
        version::digit_run(digits + rest) == digits.len(),
    decreases digits.len(),
{
    let s = digits + rest;
    if digits.len() > 0 {
        assert('0' <= digits[0] <= '9');
        assert(s[0] == digits[0]);
        assert(s.drop_first() =~= digits.drop_first() + rest);
        assert forall|i: int| 0 <= i < digits.drop_first().len() implies '0'
            <= #[trigger] digits.drop_first()[i] <= '9' by {
            assert('0' <= digits[i + 1] <= '9');
        }
        lemma_digits(digits.drop_first(), rest);
    } else {
        assert(s =~= rest);
    }
}

/// A field of a version counts by the digits that it starts with: written as a number, whatever
/// letters follow, it is that number. One that starts with no digit does not count at all.
pub proof fn law_fields_count_by_their_digits(n: u64, rest: Seq<char>)
    requires
        rest.len() > 0 ==> !('0' <= rest[0] <= '9'),
        !rest.contains('.') && !rest.contains('-') && !rest.contains('+') && !rest.contains(' '),
    ensures
        version::version(names::decimal(n as nat) + rest) == seq![n],
        version::version(rest) == Seq::<u64>::empty(),
{
    let d = names::decimal(n as nat);
    let whole = d + rest;
    let s = Separator::Version;
    names::law_decimal_reads_back(n as nat);
    names::lemma_decimal_digits(n as nat);
    assert forall|i: int| 0 <= i < rest.len() implies !s.cuts(#[trigger] rest[i]) by {
        assert(rest.contains(rest[i]));
    }
    assert forall|i: int| 0 <= i < whole.len() implies !s.cuts(#[trigger] whole[i]) by {
        if i < d.len() {
            assert(whole[i] == d[i]);
        } else {
            assert(whole[i] == rest[i - d.len()]);
        }
    }
    text::lemma_split_uncut(whole, s);
    text::lemma_split_uncut(rest, s);
    lemma_digits(d, rest);
    lemma_digits(Seq::empty(), rest);
    assert(Seq::<char>::empty() + rest =~= rest);
    assert(whole.take(d.len() as int) =~= d);
    assert(rest.take(0) =~= Seq::empty());
    assert(seq![whole].drop_last() =~= Seq::empty());
    assert(seq![rest].drop_last() =~= Seq::empty());
    assert(version::fields(seq![whole].drop_last()) =~= Seq::empty());
    assert(version::fields(seq![rest].drop_last()) =~= Seq::empty());
    assert(version::version(whole) =~= seq![n]);
}

/// An installed mod is shown by the name of its folder or file: what follows `SPT/user/mods/`, and
/// of other paths the third component; the whole path where there is none.
pub proof fn law_mods_are_shown_by_their_folder(
    a: Seq<char>,
    b: Seq<char>,
    name: Seq<char>,
    rest: Seq<char>,
)
    requires
        !a.contains('/'),
        !b.contains('/'),
        !name.contains('/'),
        rest.len() == 0 || rest[0] == '/',
    ensures
        updates::display_name("SPT/user/mods/"@ + name + rest) == name,
        !(a == "SPT"@ && b == "user"@ && name == "mods"@) ==> updates::display_name(
            a + "/"@ + b + "/"@ + name + rest,
        ) == name,
        updates::display_name(a) == a,
        updates::display_name(a + "/"@ + b) == a + "/"@ + b,
{
    let s = Separator::Slash;
    reveal_strlit("/");
    reveal_strlit("SPT/user/mods/");
    reveal_strlit("SPT");
    reveal_strlit("user");
    reveal_strlit("mods");
    lemma_uncut(a);
    lemma_uncut(b);
    lemma_uncut(name);
    let tail = name + rest;
    lemma_split_first(name, rest);
    let server = "SPT/user/mods/"@ + name + rest;
    let m2 = "mods"@.push('/') + tail;
    let m1 = "user"@.push('/') + m2;
    assert(server =~= "SPT"@.push('/') + m1);
    text::lemma_split_at("SPT"@, '/', m1, s);
    text::lemma_split_at("user"@, '/', m2, s);
    text::lemma_split_at("mods"@, '/', tail, s);
    text::lemma_split_uncut("SPT"@, s);
    text::lemma_split_uncut("user"@, s);
    text::lemma_split_uncut("mods"@, s);
    text::lemma_split_uncut(a, s);
    text::lemma_split_uncut(b, s);
    text::lemma_split_not_empty(tail, s);
    assert(server.subrange(0, 14) =~= "SPT/user/mods/"@);
    assert(text::split(server, s)[3] == name);
    let path = a + "/"@ + b + "/"@ + name + rest;
    let p1 = b.push('/') + tail;
    assert(path =~= a.push('/') + p1);
    text::lemma_split_at(a, '/', p1, s);
    text::lemma_split_at(b, '/', tail, s);
    assert(text::split(path, s)[2] == name);
    let two = a + "/"@ + b;
    assert(two =~= a.push('/') + b);
    text::lemma_split_at(a, '/', b, s);
    lemma_not_server(path);
    lemma_not_server(two);
    lemma_not_server(a);
    assert(text::split(path, s)[0] == a && text::split(path, s)[1] == b);
}

/// The first components of a path that starts with the folder of server mods.
proof fn lemma_not_server(path: Seq<char>)
    ensures
        "SPT/user/mods/"@.is_prefix_of(path) ==> {
            let ps = text::split(path, Separator::Slash);
            ps.len() >= 4 && ps[0] == "SPT"@ && ps[1] == "user"@ && ps[2] == "mods"@
        },
{
    let s = Separator::Slash;
    reveal_strlit("SPT/user/mods/");
    reveal_strlit("SPT");
    reveal_strlit("user");
    reveal_strlit("mods");
    if "SPT/user/mods/"@.is_prefix_of(path) {
        let rest = path.skip(14);
        let m2 = "mods"@.push('/') + rest;
        let m1 = "user"@.push('/') + m2;
        assert(path =~= "SPT/user/mods/"@ + rest);
        assert(path =~= "SPT"@.push('/') + m1);
        text::lemma_split_at("SPT"@, '/', m1, s);
        text::lemma_split_at("user"@, '/', m2, s);
        text::lemma_split_at("mods"@, '/', rest, s);
        text::lemma_split_uncut("SPT"@, s);
        text::lemma_split_uncut("user"@, s);
        text::lemma_split_uncut("mods"@, s);
        text::lemma_split_not_empty(rest, s);
    }
}

proof fn lemma_uncut(t: Seq<char>)
    requires
        !t.contains('/'),
    ensures
        text::uncut(t, Separator::Slash),
{
    assert forall|i: int| 0 <= i < t.len() implies !Separator::Slash.cuts(#[trigger] t[i]) by {
        assert(t.contains(t[i]));
    }
}

proof fn lemma_split_first(name: Seq<char>, rest: Seq<char>)
    requires
        !name.contains('/'),
        rest.len() == 0 || rest[0] == '/',
    ensures
        text::split(name + rest, Separator::Slash)[0] == name,
{
    let s = Separator::Slash;
    lemma_uncut(name);
    text::lemma_split_uncut(name, s);
    if rest.len() == 0 {
        assert(name + rest =~= name);
    } else {
        assert(name + rest =~= name.push('/') + rest.skip(1));
        text::lemma_split_at(name, '/', rest.skip(1), s);
    }
}

/// The manifest is an installation of the mod of the Forge with this id, with a known version.
pub open spec fn is_install(m: ManifestView, id: u64) -> bool {
    m.forge_id == Some(id) && m.forge_version is Some
}

/// What is checked for updates: of every mod of the Forge that manifests tell of with a version its
/// last installation, and of those at the same time the one whose manifest comes last. It is known
/// by its version and by the first of its files.
pub proof fn law_last_installs_are_checked(
    found: Seq<InstalledView>,
    ms: Seq<ManifestView>,
    id: u64,
)
    requires
        updates::holds_newest(found, ms),
    ensures
        (exists|i: int| 0 <= i < ms.len() && is_install(#[trigger] ms[i], id)) ==> exists|k: int|
            0 <= k < found.len() && (#[trigger] found[k]).forge_id == id,
        forall|k: int, l: int|
            0 <= k < l < found.len() ==> (#[trigger] found[k]).forge_id != (
            #[trigger] found[l]).forge_id,
        forall|k: int|
            0 <= k < found.len() && (#[trigger] found[k]).forge_id == id ==> exists|i: int|
                {
                    &&& 0 <= i < ms.len()
                    &&& is_install(#[trigger] ms[i], id)
                    &&& found[k].installed_at == ms[i].installed_at
                    &&& Some(found[k].version) == ms[i].forge_version
                    &&& found[k].hint == if ms[i].files.len() > 0 {
                        ms[i].files[0]
                    } else {
                        Seq::empty()
                    }
                    &&& forall|j: int|
                        0 <= j < ms.len() && is_install(#[trigger] ms[j], id)
                            ==> ms[j].installed_at <= ms[i].installed_at && (i < j
                            ==> ms[j].installed_at < ms[i].installed_at)
                },
{
    lemma_newest(ms, id);
    if exists|i: int| 0 <= i < ms.len() && is_install(#[trigger] ms[i], id) {
        assert(updates::newest(ms, id) is Some);
    }
    assert forall|k: int| 0 <= k < found.len() && (#[trigger] found[k]).forge_id == id implies exists|
        i: int,
    |
        {
            &&& 0 <= i < ms.len()
            &&& is_install(#[trigger] ms[i], id)
            &&& found[k].installed_at == ms[i].installed_at
            &&& Some(found[k].version) == ms[i].forge_version
            &&& found[k].hint == if ms[i].files.len() > 0 {
                ms[i].files[0]
            } else {
                Seq::empty()
            }
            &&& forall|j: int|
                0 <= j < ms.len() && is_install(#[trigger] ms[j], id) ==> ms[j].installed_at
                    <= ms[i].installed_at && (i < j ==> ms[j].installed_at < ms[i].installed_at)
        } by {
        assert(updates::newest(ms, id) == Some(found[k]));
        let i = choose|i: int|
            0 <= i < ms.len() && is_install(#[trigger] ms[i], id) && updates::install_of(ms[i])
                == Some(found[k]) && forall|j: int|
                0 <= j < ms.len() && is_install(#[trigger] ms[j], id) ==> ms[j].installed_at
                    <= ms[i].installed_at && (i < j ==> ms[j].installed_at < ms[i].installed_at);
        assert(is_install(ms[i], id));
    }
}

proof fn lemma_newest(ms: Seq<ManifestView>, id: u64)
    ensures
        match updates::newest(ms, id) {
            Some(x) => exists|i: int|
                0 <= i < ms.len() && is_install(#[trigger] ms[i], id) && updates::install_of(ms[i])
                    == Some(x) && forall|j: int|
                    0 <= j < ms.len() && is_install(#[trigger] ms[j], id) ==> ms[j].installed_at
                        <= ms[i].installed_at && (i < j ==> ms[j].installed_at
                        < ms[i].installed_at),
            None => forall|i: int| 0 <= i < ms.len() ==> !is_install(#[trigger] ms[i], id),
        },
    decreases ms.len(),
{
    if ms.len() > 0 {
        let before = ms.drop_last();
        let last = ms.len() - 1;
        lemma_newest(before, id);
        assert forall|j: int| 0 <= j < last implies before[j] == #[trigger] ms[j] by {}
        let was = updates::newest(before, id);
        let now = updates::newest(ms, id);
        let here = updates::install_of(ms[last]);
        if is_install(ms[last], id) {
            if was is Some {
                let i = choose|i: int|
                    0 <= i < before.len() && is_install(#[trigger] before[i], id)
                        && updates::install_of(before[i]) == was && forall|j: int|
                        0 <= j < before.len() && is_install(#[trigger] before[j], id)
                            ==> before[j].installed_at <= before[i].installed_at && (i < j
                            ==> before[j].installed_at < before[i].installed_at);
                let w = if ms[last].installed_at >= ms[i].installed_at {
                    last
                } else {
                    i
                };
                assert(ms[i] == before[i]);
                assert(now == updates::install_of(ms[w]));
                assert(is_install(ms[w], id));
                assert forall|j: int| 0 <= j < ms.len() && is_install(#[trigger] ms[j], id) implies
                    ms[j].installed_at <= ms[w].installed_at && (w < j ==> ms[j].installed_at
                    < ms[w].installed_at) by {
                    if j < last {
                        assert(is_install(before[j], id));
                    }
                }
            } else {
                assert(now == here);
                assert(is_install(ms[last], id));
                assert forall|j: int| 0 <= j < ms.len() && is_install(#[trigger] ms[j], id) implies
                    ms[j].installed_at <= ms[last].installed_at && (last < j
                    ==> ms[j].installed_at < ms[last].installed_at) by {
                    if j < last {
                        assert(!is_install(before[j], id));
                    }
                }
            }
        } else {
            assert(now == was);
            if was is Some {
                let i = choose|i: int|
                    0 <= i < before.len() && is_install(#[trigger] before[i], id)
                        && updates::install_of(before[i]) == was && forall|j: int|
                        0 <= j < before.len() && is_install(#[trigger] before[j], id)
                            ==> before[j].installed_at <= before[i].installed_at && (i < j
                            ==> before[j].installed_at < before[i].installed_at);
                assert(is_install(ms[i], id));
                assert forall|j: int| 0 <= j < ms.len() && is_install(#[trigger] ms[j], id) implies
                    ms[j].installed_at <= ms[i].installed_at && (i < j ==> ms[j].installed_at
                    < ms[i].installed_at) by {
                    assert(j < last);
                    assert(is_install(before[j], id));
                }
            } else {
                assert forall|i: int| 0 <= i < ms.len() implies !is_install(#[trigger] ms[i], id) by {
                    if i < last {
                        assert(!is_install(before[i], id));
                    }
                }
            }
        }
    }
}

/// A found mod is shown with its latest version, which comes first: version, link, size and SPT
/// constraint are those of the item at the front of the list of its versions.
pub proof fn law_latest_version_is_shown(m: JsonView, vs: Seq<JsonView>)
    requires
        json::array_member(m, "versions"@) == Some(vs),
        vs.len() > 0,
    ensures
        search::search_mod(m) matches Some(x) ==> {
            &&& x.version == json::str_member(vs[0], "version"@)
            &&& x.link == json::str_member(vs[0], "link"@)
            &&& x.size == json::u64_member(vs[0], "content_length"@)
            &&& x.spt_constraint == json::str_member(vs[0], "spt_version_constraint"@)
        },
{
}

/// Older versions change nothing: what is shown of a found mod is the same whatever versions are
/// added behind the first.
pub proof fn law_older_versions_change_nothing(
    members: Map<Seq<char>, JsonView>,
    vs: Seq<JsonView>,
    more: Seq<JsonView>,
)
    requires
        vs.len() > 0,
    ensures
        search::search_mod(JsonView::Object(members.insert("versions"@, JsonView::Array(vs))))
            == search::search_mod(
            JsonView::Object(members.insert("versions"@, JsonView::Array(vs + more))),
        ),
{
    let a = JsonView::Object(members.insert("versions"@, JsonView::Array(vs)));
    let b = JsonView::Object(members.insert("versions"@, JsonView::Array(vs + more)));
    lemma_search_keys();
    assert(json::array_member(a, "versions"@) == Some(vs));
    assert(json::array_member(b, "versions"@) == Some(vs + more));
    assert((vs + more)[0] == vs[0]);
    assert forall|k: Seq<char>| k != "versions"@ implies #[trigger] json::get(a, k) == json::get(
        b,
        k,
    ) by {}
    assert(search::search_mod(a) =~= search::search_mod(b));
}

proof fn lemma_search_keys()
    ensures
        "id"@ != "versions"@,
        "name"@ != "versions"@,
        "slug"@ != "versions"@,
        "teaser"@ != "versions"@,
        "thumbnail"@ != "versions"@,
        "downloads"@ != "versions"@,
        "fika_compatibility"@ != "versions"@,
        "owner"@ != "versions"@,
        "category"@ != "versions"@,
        "featured"@ != "versions"@,
{
    reveal_strlit("versions");
    reveal_strlit("id");
    reveal_strlit("name");
    reveal_strlit("slug");
    reveal_strlit("teaser");
    reveal_strlit("thumbnail");
    reveal_strlit("downloads");
    reveal_strlit("fika_compatibility");
    reveal_strlit("owner");
    reveal_strlit("category");
    reveal_strlit("featured");
    assert("versions"@[0] == 'v' && "id"@[0] == 'i' && "name"@[0] == 'n' && "slug"@[0] == 's'
        && "teaser"@[0] == 't' && "thumbnail"@[0] == 't' && "downloads"@[0] == 'd'
        && "fika_compatibility"@[0] == 'f' && "owner"@[0] == 'o' && "category"@[0] == 'c'
        && "featured"@[0] == 'f');
}

/// The results of a search come in the order of the answer: one more item gives one more result at
/// the end, with what the item tells, or none where it has no id.
pub proof fn law_results_follow_the_answer(items: Seq<JsonView>, m: JsonView)
    ensures
        ({
            let id = json::u64_member(m, "id"@);
            let before = search::search_mods_in(items);
            let all = search::search_mods_in(items.push(m));
            if id is None || id == Some(0u64) {
                all == before
            } else {
                &&& all.len() == before.len() + 1
                &&& all.take(before.len() as int) == before
                &&& shows_item(all.last(), m)
            }
        }),
        search::search_mods_in(Seq::<JsonView>::empty()).len() == 0,
{
    let all = items.push(m);
    assert(all.drop_last() =~= items);
    assert(all.last() == m);
    let before = search::search_mods_in(items);
    if let Some(x) = search::search_mod(m) {
        assert(search::search_mods_in(all) == before.push(x));
        assert(before.push(x).take(before.len() as int) =~= before);
    }
}

/// The result tells what the item tells; a mod without a name is called by its slug.
pub open spec fn shows_item(x: SearchView, m: JsonView) -> bool {
    let name = json::str_member(m, "name"@);
    let slug = json::str_member(m, "slug"@);
    &&& Some(x.id) == json::u64_member(m, "id"@)
    &&& is_text_or_nothing(x.slug, slug)
    &&& if name is None || name->0.len() == 0 {
        x.name == forge::title(x.slug)
    } else {
        Some(x.name) == name
    }
    &&& is_text_or_nothing(x.teaser, json::str_member(m, "teaser"@))
    &&& is_text_or_nothing(x.thumbnail, json::str_member(m, "thumbnail"@))
    &&& x.downloads == if json::u64_member(m, "downloads"@) is Some {
        json::u64_member(m, "downloads"@)->0
    } else {
        0
    }
    &&& x.fika <==> json::get(m, "fika_compatibility"@) == Some(JsonView::Bool(true))
    &&& x.featured <==> json::get(m, "featured"@) == Some(JsonView::Bool(true))
    &&& match json::get(m, "owner"@) {
        Some(o) => is_text_or_nothing(x.author, json::str_member(o, "name"@)),
        None => x.author.len() == 0,
    }
    &&& match json::get(m, "category"@) {
        Some(c) => is_text_or_nothing(x.category, json::str_member(c, "title"@)),
        None => x.category.len() == 0,
    }
    &&& (json::array_member(m, "versions"@) is None || json::array_member(
        m,
        "versions"@,
    )->0.len() == 0) ==> x.version is None && x.link is None && x.size is None && x.spt_constraint
        is None
}

/// The text is the told one, or empty where none is told.
pub open spec fn is_text_or_nothing(t: Seq<char>, told: Option<Seq<char>>) -> bool {
    match told {
        Some(s) => t == s,
        None => t.len() == 0,
    }
}

/// An answer to a search without a list of items finds nothing; with one, what the items tell.
pub proof fn law_searches_read_the_items(j: JsonView, items: Seq<JsonView>)
    ensures
        json::get(j, "data"@) == Some(JsonView::Array(items)) ==> search::search_results(j)
            == search::search_mods_in(items),
        json::array_member(j, "data"@) is None ==> search::search_results(j).len() == 0,
{
}

/// A slug of several words becomes a title of as many: its words one by one, with a space where a
/// hyphen was; a word that starts with an ASCII letter starts with the capital.
pub proof fn law_titles_word_by_word(a: Seq<char>, b: Seq<char>, word: Seq<char>)
    requires
        forge::title_words(a).len() > 0,
        word.len() > 0,
        !word.contains('-'),
        'a' <= word[0] <= 'z',
    ensures
        forge::title(a + "-"@ + word) == forge::title(a) + " "@ + forge::title(word),
        forge::title(word) == seq![(word[0] as u8 - 32) as char] + word.skip(1),
        forge::title_words(a + "-"@ + b) == forge::title_words(a) + forge::title_words(b),
{
    let s = Separator::Hyphen;
    reveal_strlit("-");
    assert(a + "-"@ + b =~= a.push('-') + b);
    assert(a + "-"@ + word =~= a.push('-') + word);
    text::lemma_pieces_at(a, '-', b, s);
    text::lemma_pieces_at(a, '-', word, s);
    assert(text::uncut(word, s)) by {
        assert forall|i: int| 0 <= i < word.len() implies !s.cuts(#[trigger] word[i]) by {
            assert(word.contains(word[i]));
        }
    }
    text::lemma_pieces_uncut(word, s);
    assert(forge::title_words(a + "-"@ + b) =~= forge::title_words(a) + forge::title_words(b));
    assert(forge::title_words(word) =~= seq![forge::capitalized(word)]);
    let both = forge::title_words(a + "-"@ + word);
    assert(both =~= forge::title_words(a).push(forge::capitalized(word)));
    assert(both.drop_last() =~= forge::title_words(a));
}

/// The download that is offered is the newest, which comes first in the answer, with all that it
/// tells; whatever follows changes nothing.
pub proof fn law_newest_download_is_offered(
    members: Map<Seq<char>, JsonView>,
    first: JsonView,
    more: Seq<JsonView>,
)
    ensures
        ({
            let j = JsonView::Object(
                members.insert("data"@, JsonView::Array(seq![first] + more)),
            );
            let link = json::str_member(first, "link"@);
            let version = json::str_member(first, "version"@);
            &&& if link is Some && link->0.len() > 0 {
                forge::download_in(j) matches Some(d) && d.link == link->0 && is_text_or_nothing(
                    d.version,
                    version,
                ) && d.size == json::u64_member(first, "content_length"@) && d.spt_constraint
                    == json::str_member(first, "spt_version_constraint"@)
            } else {
                forge::download_in(j) is None
            }
            &&& if version is Some && version->0.len() > 0 {
                forge::release_in(j) matches Some(d) && d.version == version->0
                    && is_text_or_nothing(d.link, link) && d.size == json::u64_member(
                    first,
                    "content_length"@,
                ) && d.changelog == json::str_member(first, "description"@)
            } else {
                forge::release_in(j) is None
            }
        }),
{
    let items = seq![first] + more;
    let j = JsonView::Object(members.insert("data"@, JsonView::Array(items)));
    assert(json::array_member(j, "data"@) == Some(items));
    assert(items[0] == first);
}

/// An answer without items offers nothing.
pub proof fn law_no_items_offer_nothing(j: JsonView)
    requires
        json::array_member(j, "data"@) is None || json::array_member(j, "data"@)->0.len() == 0,
    ensures
        forge::download_in(j) is None,
        forge::release_in(j) is None,
{
}

/// How a lookup goes on: an answer is read at once, at whatever attempt; a refusal is final; a busy
/// server is asked six times, and one that does not answer four times, after longer and longer
/// waits.
pub proof fn law_lookups_go_on_like_this(step: Step, attempt: u64, reply: Reply)
    requires
        forge::follows(step, attempt, reply),
    ensures
        match reply {
            Reply::Status(s) => {
                &&& 200 <= s <= 299 ==> step is Read
                &&& (s < 200 || 299 < s) && s != 429 && !(500 <= s <= 599) ==> (step matches Step::GiveUp(
                    told,
                ) && told@ == "HTTP "@ + names::decimal(s as nat))
                &&& (s == 429 || 500 <= s <= 599) && attempt < 6 ==> (step matches Step::Retry(ms)
                    && ms == 500 * (attempt * attempt))
                &&& (s == 429 || 500 <= s <= 599) && attempt >= 6 ==> (step matches Step::GiveUp(
                    told,
                ) && told@ == "rate limited (HTTP "@ + names::decimal(s as nat) + ")"@)
            },
            Reply::Failed(e) => {
                &&& attempt < 4 ==> (step matches Step::Retry(ms) && ms == 400 * attempt)
                &&& attempt >= 4 ==> (step matches Step::GiveUp(told) && told@ == e@)
            },
        },
{
}

/// The mods of a list come in the order of their first links, each once: one more link adds its mod
/// at the end, with its slug, unless the mod is there already or the link has no usable id.
pub proof fn law_list_follows_the_page(
    found: Seq<(Seq<char>, Seq<char>)>,
    id: u64,
    slug: Seq<char>,
)
    ensures
        ({
            let before = forge::mods_of(found);
            let all = forge::mods_of(found.push((names::decimal(id as nat), slug)));
            let known = exists|i: int| 0 <= i < before.len() && (#[trigger] before[i]).0 == id;
            all == if id == 0 || known {
                before
            } else {
                before.push((id, slug))
            }
        }),
        forge::mods_of(Seq::<(Seq<char>, Seq<char>)>::empty()).len() == 0,
{
    let d = names::decimal(id as nat);
    let all = found.push((d, slug));
    assert(all.drop_last() =~= found);
    assert(all.last() == (d, slug));
    names::law_decimal_reads_back(id as nat);
    names::lemma_decimal_digits(id as nat);
    assert forall|i: int| 0 <= i < d.len() implies version::is_digit(#[trigger] d[i]) by {}
    assert(forge::id_of(d) == id);
}

/// A link whose id is no number leads nowhere.
pub proof fn law_ids_are_numbers(
    found: Seq<(Seq<char>, Seq<char>)>,
    id: Seq<char>,
    slug: Seq<char>,
    i: int,
)
    requires
        id.len() == 0 || (0 <= i < id.len() && !('0' <= id[i] <= '9')),
    ensures
        forge::mods_of(found.push((id, slug))) == forge::mods_of(found),
{
    let all = found.push((id, slug));
    assert(all.drop_last() =~= found);
    assert(all.last() == (id, slug));
    if id.len() > 0 {
        assert(!version::is_digit(id[i]));
    }
}

/// A looked-up mod has the id, slug and title that it was asked for by, and what was found: the
/// download, or why there is none.
pub proof fn law_lookups_tell_what_was_found(id: u64, slug: Seq<char>, d: Download, e: String)
    ensures
        ({
            let r = forge::resolved(id, slug, Ok(Some(d)));
            &&& r.id == id && r.slug == slug && r.name == forge::title(slug)
            &&& r.version == Some(d.version@) && r.link == Some(d.link@) && r.size == d.size
            &&& r.spt_constraint == text::text_opt(d.spt_constraint) && r.note is None
        }),
        ({
            let r = forge::resolved(id, slug, Ok(None));
            &&& r.id == id && r.slug == slug && r.name == forge::title(slug)
            &&& r.version is None && r.link is None && r.size is None && r.spt_constraint is None
            &&& r.note == Some("No downloadable version found"@)
        }),
        ({
            let r = forge::resolved(id, slug, Err(e));
            &&& r.id == id && r.slug == slug && r.name == forge::title(slug)
            &&& r.version is None && r.link is None && r.size is None && r.spt_constraint is None
            &&& r.note == Some("Lookup failed: "@ + e@)
        }),
{
}

/// The address of a mod list is recognised by what stands anywhere in it.
pub proof fn law_lists_by_their_address(r: Result<(), String>, a: Seq<char>, b: Seq<char>)
    requires
        forge::is_list(r, a + "forge.sp-tarkov.com/list/"@ + b),
    ensures
        r is Ok,
{
    let t = "forge.sp-tarkov.com/list/"@;
    let whole = a + t + b;
    assert(whole.subrange(a.len() as int, a.len() as int + t.len()) =~= t);
    assert(text::occurs_at(whole, t, a.len() as int));
}

/// What does not hold the address of the mod lists is refused.
pub proof fn law_other_addresses_are_refused(r: Result<(), String>, url: Seq<char>)
    requires
        forge::is_list(r, url),
        forall|i: int|
            0 <= i && i + "forge.sp-tarkov.com/list/"@.len() <= url.len() ==> #[trigger] url.subrange(
                i,
                i + "forge.sp-tarkov.com/list/"@.len(),
            ) != "forge.sp-tarkov.com/list/"@,
    ensures
        r matches Err(e) && e@
            == "That doesn't look like a Forge mod-list URL (forge.sp-tarkov.com/list/...)."@,
{
    let t = "forge.sp-tarkov.com/list/"@;
    if text::occurs(url, t) {
        let i = choose|i: int| #[trigger] text::occurs_at(url, t, i);
        assert(url.subrange(i, i + t.len()) == t);
    }
}

/// A list with any mod on it is taken as it is, and only an empty one is an error.
pub proof fn law_only_empty_lists_are_errors(
    r: Result<Vec<(u64, String)>, String>,
    mods: Seq<(u64, Seq<char>)>,
)
    requires
        forge::lists(r, mods),
    ensures
        mods.len() > 0 ==> (r matches Ok(v) && forge::mod_views(v@) == mods),
        mods.len() == 0 ==> (r matches Err(e) && e@
            == "No mods found on that page. Make sure the list is public and the URL is correct."@),
{
}

/// A query with any character but whitespace is asked, however short.
pub proof fn law_any_query_is_asked(query: Seq<char>, i: int)
    ensures
        0 <= i < query.len() && !text::whitespace(query[i]) ==> search::asks(query),
        (forall|k: int| 0 <= k < query.len() ==> text::whitespace(#[trigger] query[k]))
            ==> !search::asks(query),
{
}

} // verus!
