//! What is shown of installed mods: pictures and details from the Forge, kept for a day.
use crate::json;
use crate::json::{Json, JsonView};
use crate::names;
use crate::search;
use crate::text;
use vstd::prelude::*;

verus! {

/// The character of the standard alphabet of Base64 that stands for a value below 64.
pub open spec fn base64_char(n: int) -> char {
    if n < 26 {
        ('A' as int + n) as char
    } else if n < 52 {
        ('a' as int + n - 26) as char
    } else if n < 62 {
        ('0' as int + n - 52) as char
    } else if n == 62 {
        '+'
    } else {
        '/'
    }
}

/// The bytes in Base64: three bytes make four characters, and `=` fills up the last four.
pub open spec fn base64(s: Seq<u8>) -> Seq<char>
    decreases s.len(),
{
    if s.len() == 0 {
        Seq::empty()
    } else if s.len() == 1 {
        let a = s[0] as int;
        seq![base64_char(a / 4), base64_char(a % 4 * 16), '=', '=']
    } else if s.len() == 2 {
        let a = s[0] as int;
        let b = s[1] as int;
        seq![base64_char(a / 4), base64_char(a % 4 * 16 + b / 16), base64_char(b % 16 * 4), '=']
    } else {
        let a = s[0] as int;
        let b = s[1] as int;
        let c = s[2] as int;
        seq![
            base64_char(a / 4),
            base64_char(a % 4 * 16 + b / 16),
            base64_char(b % 16 * 4 + c / 64),
            base64_char(c % 64),
        ] + base64(s.skip(3))
    }
}

/// How many characters so many bytes make in Base64.
pub open spec fn base64_len(n: nat) -> nat {
    (n + 2) / 3 * 4
}

/// `base64::Engine::encode` with `base64::engine::general_purpose::STANDARD`: the standard
/// alphabet, with padding. What it makes has to fit in memory.
#[verifier::external_body]
fn encode_base64(bytes: &[u8]) -> (r: String)
    requires
        base64_len(bytes@.len()) <= isize::MAX,
    ensures
        r@ == base64(bytes@),
{
    base64::Engine::encode(&base64::engine::general_purpose::STANDARD, bytes)
}

/// The media type of the picture at an address.
pub open spec fn mime(url: Seq<char>) -> Seq<char> {
    let lower = text::lowercase(url);
    if text::occurs(lower, ".png"@) {
        "image/png"@
    } else if text::occurs(lower, ".webp"@) {
        "image/webp"@
    } else if text::occurs(lower, ".gif"@) {
        "image/gif"@
    } else {
        "image/jpeg"@
    }
}

pub fn mime_of(url: &str) -> (r: &'static str)
    ensures
        r@ == mime(url@),
{
    let lower = url.to_lowercase();
    if text::contains(lower.as_str(), ".png") {
        "image/png"
    } else if text::contains(lower.as_str(), ".webp") {
        "image/webp"
    } else if text::contains(lower.as_str(), ".gif") {
        "image/gif"
    } else {
        "image/jpeg"
    }
}

/// Whether so many bytes fit in memory in Base64.
pub fn encodable(n: usize) -> (r: bool)
    ensures
        r == (base64_len(n as nat) <= isize::MAX),
{
    (n as u128 + 2) / 3 * 4 <= isize::MAX as u128
}

/// The data URL of the picture at an address; nothing where there is no address or no picture.
pub open spec fn data_url(url: Seq<char>, bytes: Option<Seq<u8>>) -> Seq<char> {
    match bytes {
        Some(b) => if url.len() == 0 {
            Seq::empty()
        } else {
            "data:"@ + mime(url) + ";base64,"@ + base64(b)
        },
        None => Seq::empty(),
    }
}

/// The picture at an address as a data URL; nothing where there is no address or no picture.
pub fn download_thumb(url: &str, bytes: Option<&[u8]>) -> (r: String)
    requires
        bytes matches Some(b) ==> base64_len(b@.len()) <= isize::MAX,
    ensures
        r@ == data_url(
            url@,
            match bytes {
                Some(b) => Some(b@),
                None => None,
            },
        ),
{
    if url.is_empty() {
        return String::new();
    }
    match bytes {
        Some(b) => {
            let mut r = text::owned("data:");
            r.append(mime_of(url));
            r.append(";base64,");
            r.append(encode_base64(b).as_str());
            r
        },
        None => String::new(),
    }
}

/// How long details are kept, in milliseconds.
pub const DAY: u64 = 86_400_000;

/// The details that are kept, by the ids of the mods in decimal.
pub struct MetaCache {
    pub members: Vec<(String, Json)>,
}

impl View for MetaCache {
    type V = Map<Seq<char>, JsonView>;

    open spec fn view(&self) -> Map<Seq<char>, JsonView> {
        json::object(self.members@)
    }
}

/// The details can be written.
pub open spec fn writable(cache: MetaCache) -> bool {
    json::members_within(cache.members@, 127)
}

/// The details that the text of the cache holds: none where it cannot be read or is no object.
pub open spec fn cached(source: Option<Seq<char>>) -> Map<Seq<char>, JsonView> {
    match source {
        Some(t) => match json::parsed(t) {
            Ok(j) => match j {
                JsonView::Object(m) => m,
                _ => Map::empty(),
            },
            Err(_) => Map::empty(),
        },
        None => Map::empty(),
    }
}

/// The details that a parsed cache holds.
pub fn cache_of(j: Json) -> (r: MetaCache)
    requires
        json::depth_within(j, 128),
    ensures
        r@ == match j@ {
            JsonView::Object(m) => m,
            _ => Map::empty(),
        },
        writable(r),
{
    match j {
        Json::Object(members) => {
            proof {
                json::lemma_object_tree(members);
            }
            MetaCache { members }
        },
        _ => MetaCache { members: json::no_members() },
    }
}

/// The details that the text of the cache holds.
pub fn open_cache(source: Option<String>) -> (r: MetaCache)
    ensures
        r@ == cached(text::text_opt(source)),
        writable(r),
{
    match source {
        Some(t) => match json::parse(t.as_str()) {
            Ok(j) => {
                proof {
                    json::lemma_depth_more(j, 127, 128);
                }
                cache_of(j)
            },
            Err(_) => MetaCache { members: json::no_members() },
        },
        None => MetaCache { members: json::no_members() },
    }
}

/// The text of the cache.
pub fn cache_text(cache: MetaCache) -> (r: String)
    requires
        writable(cache),
    ensures
        r@ == json::compact(JsonView::Object(cache@)),
        json::plain_within(JsonView::Object(cache@), 127) ==> json::reads_as(
            r@,
            JsonView::Object(cache@),
        ),
{
    let j = json::object_with(cache.members);
    assert(json::depth_within(j, 128));
    json::to_compact(&j)
}

/// What is kept of the mod with this id.
pub open spec fn entry(m: Map<Seq<char>, JsonView>, id: u64) -> Option<JsonView> {
    json::get(JsonView::Object(m), names::decimal(id as nat))
}

/// What is kept of the mod was fetched less than a day ago.
pub open spec fn is_fresh(m: Map<Seq<char>, JsonView>, id: u64, now: u64) -> bool {
    match entry(m, id) {
        Some(e) => match json::u64_member(e, "fetched_at"@) {
            Some(at) => now < at + DAY,
            None => false,
        },
        None => false,
    }
}

impl MetaCache {
    /// What is kept of the mod with this id.
    pub fn find(&self, id: u64) -> (r: Option<&Json>)
        ensures
            match r {
                Some(e) => entry(self@, id) == Some(e@),
                None => entry(self@, id) is None,
            },
    {
        let key = names::decimal_text(id as u128);
        json::find(self.members.as_slice(), key.as_str())
    }

    fn fresh(&self, id: u64, now: u64) -> (r: bool)
        ensures
            r == is_fresh(self@, id, now),
    {
        match self.find(id) {
            Some(e) => match e.u64_member("fetched_at") {
                Some(at) => now.saturating_sub(at) < DAY,
                None => false,
            },
            None => false,
        }
    }
}

/// The ids of those mods of which nothing fresh is kept, in order.
pub open spec fn stale(m: Map<Seq<char>, JsonView>, ids: Seq<u64>, now: u64) -> Seq<u64> {
    ids.filter(|id: u64| !is_fresh(m, id, now))
}

/// The ids of the mods whose details have to be fetched, in order.
pub fn stale_ids(cache: &MetaCache, ids: &[u64], now: u64) -> (r: Vec<u64>)
    ensures
        r@ == stale(cache@, ids@, now),
{
    let ghost keep = |id: u64| !is_fresh(cache@, id, now);
    let mut r: Vec<u64> = Vec::new();
    proof {
        text::lemma_filter_none(ids@, keep);
    }
    for i in 0..ids.len()
        invariant
            keep == (|id: u64| !is_fresh(cache@, id, now)),
            r@ == ids@.take(i as int).filter(keep),
    {
        proof {
            text::lemma_filter_next(ids@, keep, i as int);
        }
        if !cache.fresh(ids[i], now) {
            r.push(ids[i]);
        }
    }
    assert(ids@.take(ids@.len() as int) =~= ids@);
    r
}

/// The ids as the Forge is asked about them.
pub fn ids_text(ids: &[u64]) -> (r: String)
    ensures
        r@ == text::join(ids@.map_values(|id: u64| names::decimal(id as nat)), ","@),
{
    let ghost parts = ids@.map_values(|id: u64| names::decimal(id as nat));
    let mut v: Vec<String> = Vec::new();
    for i in 0..ids.len()
        invariant
            parts == ids@.map_values(|id: u64| names::decimal(id as nat)),
            text::texts(v@) =~= parts.take(i as int),
    {
        let ghost was = text::texts(v@);
        v.push(names::decimal_text(ids[i] as u128));
        assert(text::texts(v@) =~= was.push(parts[i as int]));
    }
    assert(text::texts(v@) =~= parts);
    assert(parts.skip(0) =~= parts);
    text::join_from(v.as_slice(), 0, ",")
}

/// The details of a mod that an answer gives.
pub struct MetaItem {
    pub id: u64,
    /// The address of its picture.
    pub thumbnail: String,
    pub teaser: String,
    pub author: String,
    pub downloads: u64,
    pub category: String,
}

#[verifier::ext_equal]
pub struct MetaView {
    pub id: u64,
    pub thumbnail: Seq<char>,
    pub teaser: Seq<char>,
    pub author: Seq<char>,
    pub downloads: u64,
    pub category: Seq<char>,
}

impl View for MetaItem {
    type V = MetaView;

    open spec fn view(&self) -> MetaView {
        MetaView {
            id: self.id,
            thumbnail: self.thumbnail@,
            teaser: self.teaser@,
            author: self.author@,
            downloads: self.downloads,
            category: self.category@,
        }
    }
}

pub open spec fn item_views(v: Seq<MetaItem>) -> Seq<MetaView> {
    v.map_values(|m: MetaItem| m@)
}

/// The details that an item of an answer gives.
pub open spec fn item_of(m: JsonView) -> MetaView {
    MetaView {
        id: json::u64_or_zero(m, "id"@),
        thumbnail: json::str_or_empty(m, "thumbnail"@),
        teaser: json::str_or_empty(m, "teaser"@),
        author: search::inner_str(m, "owner"@, "name"@),
        downloads: json::u64_or_zero(m, "downloads"@),
        category: search::inner_str(m, "category"@, "title"@),
    }
}

/// The details that the items with an id give, in order.
pub open spec fn items_of(items: Seq<JsonView>) -> Seq<MetaView>
    decreases items.len(),
{
    if items.len() == 0 {
        Seq::empty()
    } else {
        let before = items_of(items.drop_last());
        if json::u64_or_zero(items.last(), "id"@) == 0 {
            before
        } else {
            before.push(item_of(items.last()))
        }
    }
}

/// The details that an answer gives.
pub open spec fn details_in(j: JsonView) -> Seq<MetaView> {
    match json::array_member(j, "data"@) {
        Some(items) => items_of(items),
        None => Seq::empty(),
    }
}

/// The details that a parsed answer gives.
pub fn details_of(j: &Json) -> (r: Vec<MetaItem>)
    ensures
        item_views(r@) == details_in(j@),
{
    let mut out: Vec<MetaItem> = Vec::new();
    assert(item_views(out@) =~= Seq::empty());
    let items = match j.array_member("data") {
        Some(v) => v,
        None => return out,
    };
    let ghost js = json::views(items@);
    assert(js.take(0) =~= Seq::empty());
    for i in 0..items.len()
        invariant
            js == json::views(items@),
            item_views(out@) == items_of(js.take(i as int)),
    {
        assert(js.take(i + 1).drop_last() =~= js.take(i as int));
        assert(js.take(i + 1).last() == items@[i as int]@);
        let m = &items[i];
        let id: u64 = m.u64_or_zero("id");
        if id != 0 {
            let ghost was = item_views(out@);
            out.push(
                MetaItem {
                    id,
                    thumbnail: m.str_or_empty("thumbnail"),
                    teaser: m.str_or_empty("teaser"),
                    author: search::inner_text(m, "owner", "name"),
                    downloads: m.u64_or_zero("downloads"),
                    category: search::inner_text(m, "category", "title"),
                },
            );
            assert(item_views(out@) =~= was.push(item_of(m@)));
        }
    }
    assert(js.take(js.len() as int) =~= js);
    out
}

/// The details that the body of an answer gives; none where it is not JSON.
pub fn read_details(body: &str) -> (r: Vec<MetaItem>)
    ensures
        item_views(r@) == match json::parsed(body@) {
            Ok(j) => details_in(j),
            Err(_) => Seq::empty(),
        },
{
    match json::parse(body) {
        Ok(j) => details_of(&j),
        Err(_) => {
            let r: Vec<MetaItem> = Vec::new();
            assert(item_views(r@) =~= Seq::empty());
            r
        },
    }
}

/// What is kept of a mod whose picture, as a data URL, is `thumb`.
pub open spec fn kept(m: MetaView, thumb: Seq<char>, now: u64) -> JsonView {
    JsonView::Object(
        Map::<Seq<char>, JsonView>::empty().insert("thumbnail"@, JsonView::Str(thumb)).insert(
            "teaser"@,
            JsonView::Str(m.teaser),
        ).insert("author"@, JsonView::Str(m.author)).insert(
            "downloads"@,
            JsonView::Unsigned(m.downloads),
        ).insert("category"@, JsonView::Str(m.category)).insert(
            "fetched_at"@,
            JsonView::Unsigned(now),
        ),
    )
}

/// What is kept once the details of a mod are.
pub open spec fn remembered(
    m: Map<Seq<char>, JsonView>,
    item: MetaView,
    thumb: Seq<char>,
    now: u64,
) -> Map<Seq<char>, JsonView> {
    m.insert(names::decimal(item.id as nat), kept(item, thumb, now))
}

/// Keeps the details of a mod, in place of what was kept of it before.
pub fn remember(cache: &mut MetaCache, item: &MetaItem, thumb: &str, now: u64)
    ensures
        final(cache)@ == remembered(old(cache)@, item@, thumb@, now),
        writable(*old(cache)) ==> writable(*final(cache)),
{
    let ghost before = cache@;
    let mut members = json::no_members();
    json::put(&mut members, "thumbnail", json::string(thumb));
    json::put(&mut members, "teaser", json::string(item.teaser.as_str()));
    json::put(&mut members, "author", json::string(item.author.as_str()));
    json::put(&mut members, "downloads", Json::Unsigned(item.downloads));
    json::put(&mut members, "category", json::string(item.category.as_str()));
    json::put(&mut members, "fetched_at", Json::Unsigned(now));
    assert(json::members_within(members@, 0));
    let e = json::object_with(members);
    let ghost new = kept(item@, thumb@, now);
    proof {
        assert(e@ == new);
        json::lemma_depth_more(e, 1, 127);
    }
    let key = names::decimal_text(item.id as u128);
    json::put(&mut cache.members, key.as_str(), e);
    assert(cache@ == before.insert(key@, new));
}

/// What is shown of an installed mod.
pub struct ModMeta {
    pub id: u64,
    /// The picture as a data URL.
    pub thumbnail: String,
    pub teaser: String,
    pub author: String,
    pub downloads: u64,
    pub category: String,
}

impl View for ModMeta {
    type V = MetaView;

    open spec fn view(&self) -> MetaView {
        MetaView {
            id: self.id,
            thumbnail: self.thumbnail@,
            teaser: self.teaser@,
            author: self.author@,
            downloads: self.downloads,
            category: self.category@,
        }
    }
}

pub open spec fn meta_views(v: Seq<ModMeta>) -> Seq<MetaView> {
    v.map_values(|m: ModMeta| m@)
}

/// What is shown of a mod of which `e` is kept.
pub open spec fn shown(id: u64, e: JsonView) -> MetaView {
    MetaView {
        id,
        thumbnail: json::str_or_empty(e, "thumbnail"@),
        teaser: json::str_or_empty(e, "teaser"@),
        author: json::str_or_empty(e, "author"@),
        downloads: json::u64_or_zero(e, "downloads"@),
        category: json::str_or_empty(e, "category"@),
    }
}

/// What is shown of the mods with these ids: of those of which something is kept, in order.
pub open spec fn all_shown(m: Map<Seq<char>, JsonView>, ids: Seq<u64>) -> Seq<MetaView>
    decreases ids.len(),
{
    if ids.len() == 0 {
        Seq::empty()
    } else {
        let before = all_shown(m, ids.drop_last());
        match entry(m, ids.last()) {
            Some(e) => before.push(shown(ids.last(), e)),
            None => before,
        }
    }
}

/// What is shown of the mods with these ids.
pub fn get_mod_meta(cache: &MetaCache, ids: &[u64]) -> (r: Vec<ModMeta>)
    ensures
        meta_views(r@) == all_shown(cache@, ids@),
{
    let mut out: Vec<ModMeta> = Vec::new();
    assert(meta_views(out@) =~= Seq::empty());
    assert(ids@.take(0) =~= Seq::empty());
    for i in 0..ids.len()
        invariant
            meta_views(out@) == all_shown(cache@, ids@.take(i as int)),
    {
        assert(ids@.take(i + 1).drop_last() =~= ids@.take(i as int));
        if let Some(e) = cache.find(ids[i]) {
            let ghost was = meta_views(out@);
            out.push(
                ModMeta {
                    id: ids[i],
                    thumbnail: e.str_or_empty("thumbnail"),
                    teaser: e.str_or_empty("teaser"),
                    author: e.str_or_empty("author"),
                    downloads: e.u64_or_zero("downloads"),
                    category: e.str_or_empty("category"),
                },
            );
            assert(meta_views(out@) =~= was.push(shown(ids@[i as int], e@)));
        }
    }
    assert(ids@.take(ids@.len() as int) =~= ids@);
    out
}

proof fn lemma_kept_keys()
    ensures
        "thumbnail"@.len() == 9,
        "teaser"@.len() == 6,
        "author"@.len() == 6,
        "teaser"@ != "author"@,
        "downloads"@.len() == 9,
        "thumbnail"@ != "downloads"@,
        "category"@.len() == 8,
        "fetched_at"@.len() == 10,
{
    reveal_strlit("thumbnail");
    reveal_strlit("teaser");
    reveal_strlit("author");
    reveal_strlit("downloads");
    reveal_strlit("category");
    reveal_strlit("fetched_at");
    assert("teaser"@[0] == 't' && "author"@[0] == 'a');
    assert("thumbnail"@[0] == 't' && "downloads"@[0] == 'd');
}

/// Details are fetched once a day: after they were kept, those of the mod are fresh for a day and
/// no longer.
pub proof fn law_details_last_a_day(
    m: Map<Seq<char>, JsonView>,
    item: MetaView,
    thumb: Seq<char>,
    then: u64,
    now: u64,
)
    ensures
        is_fresh(m.insert(names::decimal(item.id as nat), kept(item, thumb, then)), item.id, now)
            <==> now < then + DAY,
{
    lemma_kept_keys();
}

/// What was kept is shown, with the picture that was kept.
pub proof fn law_kept_details_are_shown(
    m: Map<Seq<char>, JsonView>,
    item: MetaView,
    thumb: Seq<char>,
    now: u64,
)
    ensures
        ({
            let after = m.insert(names::decimal(item.id as nat), kept(item, thumb, now));
            entry(after, item.id) matches Some(e) && shown(item.id, e) == (MetaView {
                thumbnail: thumb,
                ..item
            })
        }),
{
    lemma_kept_keys();
}

/// Keeping the details of a mod leaves those of every other mod as they were.
pub proof fn law_other_details_stay(
    m: Map<Seq<char>, JsonView>,
    item: MetaView,
    thumb: Seq<char>,
    now: u64,
    other: u64,
)
    requires
        other != item.id,
    ensures
        entry(m.insert(names::decimal(item.id as nat), kept(item, thumb, now)), other) == entry(
            m,
            other,
        ),
{
    if names::decimal(other as nat) == names::decimal(item.id as nat) {
        names::law_decimal_is_unambiguous(other as nat, item.id as nat);
    }
}

} // verus!
