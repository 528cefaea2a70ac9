//! The Forge, where mods are published: reading mod lists and what it answers about the latest
//! version of a mod.
use crate::json;
use crate::json::{Json, JsonView};
use crate::names;
use crate::text;
use crate::text::Separator;
use crate::version;
use vstd::prelude::*;

verus! {

/// How the manager introduces itself.
pub const USER_AGENT: &'static str = "spt-mod-installer/0.3 (SPT mod manager)";

/// What the link of a mod starts with.
pub const LINK_START: &'static str = "forge.sp-tarkov.com/mod/";

/// A link to a mod on a page: the id and the slug are its groups.
pub const LINK_PATTERN: &'static str =
    "forge\\.sp-tarkov\\.com/mod/(\\d+)/([A-Za-z0-9_-]+)";

/// Whether `\d` in a pattern of the crate `regex` matches a character that is not ASCII: whether
/// it is a decimal number by its Unicode category.
pub uninterp spec fn unicode_digit(c: char) -> bool;

/// What `\d` matches: the ASCII digits, and others as told.
pub open spec fn digits_with(other: spec_fn(char) -> bool) -> spec_fn(char) -> bool {
    |c: char|
        if c <= '\x7f' {
            version::is_digit(c)
        } else {
            other(c)
        }
}

/// The characters of a slug: ASCII letters and digits, `_` and `-`.
pub open spec fn is_slug_char(c: char) -> bool {
    names::ascii_alphanumeric(c) || c == '_' || c == '-'
}

/// Where the characters from position `i` on stop to be as `f` has them.
pub open spec fn run_end(s: Seq<char>, i: int, f: spec_fn(char) -> bool) -> int
    decreases s.len() - i,
{
    if 0 <= i < s.len() && f(s[i]) {
        run_end(s, i + 1, f)
    } else {
        i
    }
}

/// The ends of the id and of the slug of the link that starts at position `i`.
pub open spec fn link_at(s: Seq<char>, i: int, digits: spec_fn(char) -> bool) -> Option<(int, int)> {
    let a = i + LINK_START@.len();
    let d = run_end(s, a, digits);
    let e = run_end(s, d + 1, |c: char| is_slug_char(c));
    if text::occurs_at(s, LINK_START@, i) && a < d < s.len() && s[d] == '/' && d + 1 < e <= s.len() {
        Some((d, e))
    } else {
        None
    }
}

/// Id and slug of the links from position `i` on, one behind the other.
pub open spec fn links(s: Seq<char>, i: int, digits: spec_fn(char) -> bool) -> Seq<
    (Seq<char>, Seq<char>),
>
    decreases s.len() - i,
{
    if 0 <= i < s.len() {
        match link_at(s, i, digits) {
            Some((d, e)) => seq![
                (s.subrange(i + LINK_START@.len(), d), s.subrange(d + 1, e)),
            ] + links(s, e, digits),
            None => links(s, i + 1, digits),
        }
    } else {
        Seq::empty()
    }
}

pub open spec fn pair_views(v: Seq<(String, String)>) -> Seq<(Seq<char>, Seq<char>)> {
    v.map_values(|p: (String, String)| (p.0@, p.1@))
}

/// `regex::Regex::captures_iter` with the link pattern: the successive matches that do not
/// overlap, each as far to the left and as long as can be, and of each the texts of its two
/// groups. `Regex::new` accepts this pattern.
#[verifier::external_body]
fn find_links(pattern: &str, html: &str) -> (r: Vec<(String, String)>)
    requires
        pattern@ == LINK_PATTERN@,
    ensures
        pair_views(r@) == links(html@, 0, digits_with(|c: char| unicode_digit(c))),
{
    regex::Regex::new(pattern)
        .unwrap()
        .captures_iter(html)
        .map(|cap| (cap[1].to_string(), cap[2].to_string()))
        .collect()
}

/// The id that a text denotes; 0 where it is no number that fits in 64 bits.
pub open spec fn id_of(s: Seq<char>) -> u64 {
    if s.len() > 0 && (forall|i: int| 0 <= i < s.len() ==> version::is_digit(#[trigger] s[i]))
        && version::number(s) <= u64::MAX {
        version::number(s) as u64
    } else {
        0
    }
}

fn parse_id(s: &str) -> (r: u64)
    ensures
        r == id_of(s@),
{
    let x = text::chars_of(s);
    for i in 0..x.len()
        invariant
            x@ == s@,
            forall|j: int| 0 <= j < i ==> version::is_digit(#[trigger] s@[j]),
    {
        if !(x[i] >= '0' && x[i] <= '9') {
            assert(!version::is_digit(s@[i as int]));
            return 0;
        }
    }
    match version::parse_number(x.as_slice()) {
        Some(n) => n,
        None => 0,
    }
}

/// The mods that links lead to, each once, at its first link. A link without a usable id leads
/// nowhere.
pub open spec fn mods_of(found: Seq<(Seq<char>, Seq<char>)>) -> Seq<(u64, Seq<char>)>
    decreases found.len(),
{
    if found.len() == 0 {
        Seq::empty()
    } else {
        let before = mods_of(found.drop_last());
        let id = id_of(found.last().0);
        if id == 0 || has_id(before, id) {
            before
        } else {
            before.push((id, found.last().1))
        }
    }
}

pub open spec fn has_id(mods: Seq<(u64, Seq<char>)>, id: u64) -> bool {
    exists|i: int| 0 <= i < mods.len() && (#[trigger] mods[i]).0 == id
}

pub open spec fn mod_views(v: Seq<(u64, String)>) -> Seq<(u64, Seq<char>)> {
    v.map_values(|p: (u64, String)| (p.0, p.1@))
}

fn knows_id(mods: &[(u64, String)], id: u64) -> (r: bool)
    ensures
        r == has_id(mod_views(mods@), id),
{
    let ghost ms = mod_views(mods@);
    for i in 0..mods.len()
        invariant
            ms == mod_views(mods@),
            forall|j: int| 0 <= j < i ==> (#[trigger] ms[j]).0 != id,
    {
        if mods[i].0 == id {
            assert(ms[i as int].0 == id);
            return true;
        }
        assert(ms[i as int].0 != id);
    }
    false
}

/// The mods that the found links lead to, each once.
pub fn linked_mods(found: &[(String, String)]) -> (r: Vec<(u64, String)>)
    ensures
        mod_views(r@) == mods_of(pair_views(found@)),
{
    let ghost ps = pair_views(found@);
    let mut r: Vec<(u64, String)> = Vec::new();
    assert(ps.take(0) =~= Seq::empty());
    assert(mod_views(r@) =~= Seq::empty());
    for i in 0..found.len()
        invariant
            ps == pair_views(found@),
            mod_views(r@) == mods_of(ps.take(i as int)),
    {
        assert(ps.take(i + 1).drop_last() =~= ps.take(i as int));
        assert(ps.take(i + 1).last() == ps[i as int]);
        let id: u64 = parse_id(found[i].0.as_str());
        if id != 0 && !knows_id(r.as_slice(), id) {
            let ghost was = mod_views(r@);
            r.push((id, found[i].1.clone()));
            assert(mod_views(r@) =~= was.push((id, ps[i as int].1)));
        }
    }
    assert(ps.take(ps.len() as int) =~= ps);
    r
}

/// The links on a page.
pub open spec fn links_on(html: Seq<char>) -> Seq<(Seq<char>, Seq<char>)> {
    links(html, 0, digits_with(|c: char| unicode_digit(c)))
}

/// Every mod that a list page links to, with its slug, in the order of the page.
pub fn parse_list_mods(html: &str) -> (r: Vec<(u64, String)>)
    ensures
        mod_views(r@) == mods_of(links_on(html@)),
{
    let found = find_links(LINK_PATTERN, html);
    linked_mods(found.as_slice())
}

/// No mod of a list comes twice, and none is without an id.
pub proof fn law_list_mods_are_distinct(found: Seq<(Seq<char>, Seq<char>)>)
    ensures
        forall|i: int, j: int|
            0 <= i < j < mods_of(found).len() ==> (#[trigger] mods_of(found)[i]).0 != (
            #[trigger] mods_of(found)[j]).0,
        forall|i: int| 0 <= i < mods_of(found).len() ==> (#[trigger] mods_of(found)[i]).0 != 0,
    decreases found.len(),
{
    if found.len() > 0 {
        law_list_mods_are_distinct(found.drop_last());
        let before = mods_of(found.drop_last());
        let all = mods_of(found);
        assert forall|i: int, j: int| 0 <= i < j < all.len() implies (#[trigger] all[i]).0 != (
        #[trigger] all[j]).0 by {
            assert(all[i] == before[i]);
            if j < before.len() {
                assert(all[j] == before[j]);
            }
        }
        assert forall|i: int| 0 <= i < all.len() implies (#[trigger] all[i]).0 != 0 by {
            if i < before.len() {
                assert(all[i] == before[i]);
            }
        }
    }
}

/// Every mod that is linked to is in the list.
pub proof fn law_list_mods_are_complete(found: Seq<(Seq<char>, Seq<char>)>, k: int)
    requires
        0 <= k < found.len(),
        id_of(found[k].0) != 0,
    ensures
        has_id(mods_of(found), id_of(found[k].0)),
    decreases found.len(),
{
    let before = mods_of(found.drop_last());
    let all = mods_of(found);
    let id = id_of(found[k].0);
    if k < found.len() - 1 {
        law_list_mods_are_complete(found.drop_last(), k);
    }
    if has_id(before, id) {
        let i = choose|i: int| 0 <= i < before.len() && (#[trigger] before[i]).0 == id;
        assert(all[i] == before[i]);
    } else {
        assert(all[before.len() as int].0 == id);
    }
}

/// What `char::to_uppercase` gives for a character that is not ASCII: its Unicode uppercase
/// mapping, of one character or more.
pub uninterp spec fn unicode_uppercase(c: char) -> Seq<char>;

/// `char::to_uppercase` is a function of the character. Of the ASCII characters it maps `a`..`z` to
/// `A`..`Z` and every other one to itself.
#[verifier::external_body]
fn upper_char(c: char) -> (r: String)
    ensures
        c <= '\x7f' ==> r@ == seq![ascii_upper(c)],
        c > '\x7f' ==> r@ == unicode_uppercase(c),
{
    c.to_uppercase().collect()
}

pub open spec fn ascii_upper(c: char) -> char {
    if 'a' <= c && c <= 'z' {
        (c as u8 - 32) as char
    } else {
        c
    }
}

/// One character in upper case.
pub open spec fn uppercase(c: char) -> Seq<char> {
    if c <= '\x7f' {
        seq![ascii_upper(c)]
    } else {
        unicode_uppercase(c)
    }
}

/// The word with its first character in upper case.
pub open spec fn capitalized(word: Seq<char>) -> Seq<char> {
    if word.len() == 0 {
        word
    } else {
        uppercase(word[0]) + word.skip(1)
    }
}

/// The words of a slug, capitalized.
pub open spec fn title_words(slug: Seq<char>) -> Seq<Seq<char>> {
    text::pieces(slug, Separator::Hyphen).map_values(|w: Seq<char>| capitalized(w))
}

/// The title that a slug stands for: `project-fika` is "Project Fika".
pub open spec fn title(slug: Seq<char>) -> Seq<char> {
    text::join(title_words(slug), " "@)
}

fn capitalize(word: &str) -> (r: String)
    ensures
        r@ == capitalized(word@),
{
    let x = text::chars_of(word);
    if x.len() == 0 {
        return text::owned(word);
    }
    let mut r = upper_char(x[0]);
    let ghost head = r@;
    assert(head + word@.subrange(1, 1) =~= head);
    for i in 1..x.len()
        invariant
            x@ == word@,
            x@.len() > 0,
            r@ == head + word@.subrange(1, i as int),
    {
        r.push(x[i]);
        assert(word@.subrange(1, i + 1) =~= word@.subrange(1, i as int).push(word@[i as int]));
        assert(r@ =~= head + word@.subrange(1, i + 1));
    }
    assert(word@.subrange(1, x@.len() as int) =~= word@.skip(1));
    r
}

/// The title that a slug stands for.
pub fn prettify(slug: &str) -> (r: String)
    ensures
        r@ == title(slug@),
{
    let words = text::pieces_of(slug, Separator::Hyphen);
    let ghost ws = title_words(slug@);
    let mut titled: Vec<String> = Vec::new();
    for i in 0..words.len()
        invariant
            text::texts(words@) == text::pieces(slug@, Separator::Hyphen),
            ws == title_words(slug@),
            ws.len() == words@.len(),
            text::texts(titled@) =~= ws.take(i as int),
    {
        let ghost was = text::texts(titled@);
        assert(words@[i as int]@ == text::texts(words@)[i as int]);
        titled.push(capitalize(words[i].as_str()));
        assert(text::texts(titled@) =~= was.push(ws[i as int]));
    }
    assert(text::texts(titled@) =~= ws);
    assert(ws.skip(0) =~= ws);
    text::join_from(titled.as_slice(), 0, " ")
}

/// What came of asking the Forge.
pub enum Reply {
    /// There was no answer; the text tells why.
    Failed(String),
    /// There was an answer with this HTTP status.
    Status(u16),
}

/// What to do about it.
pub enum Step {
    /// Wait so many milliseconds and ask again.
    Retry(u64),
    /// Read the answer.
    Read,
    /// Give up.
    GiveUp(String),
}

/// The answer asks to come back later: too many requests, or a fault of the server.
pub open spec fn is_busy(status: u16) -> bool {
    status == 429 || 500 <= status <= 599
}

pub open spec fn is_success(status: u16) -> bool {
    200 <= status <= 299
}

/// `step` is what is to be done about what came of asking for the given time.
pub open spec fn follows(step: Step, attempt: u64, reply: Reply) -> bool {
    match reply {
        Reply::Failed(e) => if attempt < 4 {
            step matches Step::Retry(ms) && ms == 400 * attempt
        } else {
            step matches Step::GiveUp(told) && told@ == e@
        },
        Reply::Status(status) => if is_busy(status) {
            if attempt < 6 {
                step matches Step::Retry(ms) && ms == 500 * (attempt * attempt)
            } else {
                step matches Step::GiveUp(told) && told@ == "rate limited (HTTP "@
                    + names::decimal(status as nat) + ")"@
            }
        } else if is_success(status) {
            step is Read
        } else {
            step matches Step::GiveUp(told) && told@ == "HTTP "@ + names::decimal(status as nat)
        },
    }
}

/// What to do about what came of asking for the `attempt`-th time, counted from 1.
pub fn fetch_step(attempt: u64, reply: Reply) -> (r: Step)
    ensures
        follows(r, attempt, reply),
{
    match reply {
        Reply::Failed(e) => if attempt < 4 {
            Step::Retry(400 * attempt)
        } else {
            Step::GiveUp(e)
        },
        Reply::Status(status) => if status == 429 || (500 <= status && status <= 599) {
            if attempt < 6 {
                assert(attempt * attempt <= 25) by (nonlinear_arith)
                    requires
                        attempt < 6,
                ;
                Step::Retry(500 * (attempt * attempt))
            } else {
                let mut told = text::owned("rate limited (HTTP ");
                told.append(names::decimal_text(status as u128).as_str());
                told.append(")");
                Step::GiveUp(told)
            }
        } else if 200 <= status && status <= 299 {
            Step::Read
        } else {
            let mut told = text::owned("HTTP ");
            told.append(names::decimal_text(status as u128).as_str());
            Step::GiveUp(told)
        },
    }
}

/// The Forge is asked at most six times, and not again once it has answered for good: a step that
/// asks again follows one of the first five attempts, and a success or a refusal is final.
pub proof fn law_lookups_end(step: Step, attempt: u64, reply: Reply)
    requires
        follows(step, attempt, reply),
        step is Retry,
    ensures
        attempt < 6,
        reply matches Reply::Status(status) ==> is_busy(status),
{
}

/// A busy answer is never taken for the answer that there is no version.
pub proof fn law_busy_is_no_answer(step: Step, attempt: u64, status: u16)
    requires
        follows(step, attempt, Reply::Status(status)),
        is_busy(status),
    ensures
        !(step is Read),
{
}

/// Where the versions of a mod are asked for, the latest first.
pub open spec fn versions_address(id: u64) -> Seq<char> {
    "https://forge.sp-tarkov.com/api/v0/mod/"@ + names::decimal(id as nat)
        + "/versions?sort=-created_at&per_page=1"@
}

pub fn versions_url(id: u64) -> (r: String)
    ensures
        r@ == versions_address(id),
{
    let mut r = text::owned("https://forge.sp-tarkov.com/api/v0/mod/");
    r.append(names::decimal_text(id as u128).as_str());
    r.append("/versions?sort=-created_at&per_page=1");
    r
}

/// The first of the items of an answer.
pub open spec fn first_item(j: JsonView) -> Option<JsonView> {
    match json::array_member(j, "data"@) {
        Some(items) => if items.len() > 0 {
            Some(items[0])
        } else {
            None
        },
        None => None,
    }
}

fn first_of(j: &Json) -> (r: Option<&Json>)
    ensures
        match r {
            Some(x) => first_item(j@) == Some(x@),
            None => first_item(j@) is None,
        },
{
    match j.array_member("data") {
        Some(items) => {
            assert(json::views(items@).len() == items@.len());
            if items.len() > 0 {
                assert(json::views(items@)[0] == items@[0]@);
                Some(&items[0])
            } else {
                None
            }
        },
        None => None,
    }
}

/// The latest version of a mod, as far as downloading it needs.
pub struct Download {
    pub version: String,
    pub link: String,
    pub size: Option<u64>,
    pub spt_constraint: Option<String>,
}

#[verifier::ext_equal]
pub struct DownloadView {
    pub version: Seq<char>,
    pub link: Seq<char>,
    pub size: Option<u64>,
    pub spt_constraint: Option<Seq<char>>,
}

impl View for Download {
    type V = DownloadView;

    open spec fn view(&self) -> DownloadView {
        DownloadView {
            version: self.version@,
            link: self.link@,
            size: self.size,
            spt_constraint: text::text_opt(self.spt_constraint),
        }
    }
}

/// The download that an answer offers; none where it has no link.
pub open spec fn download_in(j: JsonView) -> Option<DownloadView> {
    match first_item(j) {
        Some(first) => if json::str_or_empty(first, "link"@).len() > 0 {
            Some(
                DownloadView {
                    version: json::str_or_empty(first, "version"@),
                    link: json::str_or_empty(first, "link"@),
                    size: json::u64_member(first, "content_length"@),
                    spt_constraint: json::str_member(first, "spt_version_constraint"@),
                },
            )
        } else {
            None
        },
        None => None,
    }
}

/// The download that a parsed answer offers.
pub fn download_of(j: &Json) -> (r: Option<Download>)
    ensures
        match r {
            Some(d) => download_in(j@) == Some(d@),
            None => download_in(j@) is None,
        },
{
    match first_of(j) {
        Some(first) => {
            let link = first.str_or_empty("link");
            if link.as_str().is_empty() {
                return None;
            }
            let d = Download {
                version: first.str_or_empty("version"),
                link,
                size: first.u64_member("content_length"),
                spt_constraint: first.str_member("spt_version_constraint"),
            };
            assert(download_in(j@) == Some(d@));
            Some(d)
        },
        None => None,
    }
}

/// The download that the body of an answer offers; an error where it is not JSON.
pub fn latest_version(body: &str) -> (r: Result<Option<Download>, String>)
    ensures
        match json::parsed(body@) {
            Ok(j) => match r {
                Ok(Some(d)) => download_in(j) == Some(d@),
                Ok(None) => download_in(j) is None,
                Err(_) => false,
            },
            Err(e) => r matches Err(told) && told@ == e,
        },
{
    match json::parse(body) {
        Ok(j) => Ok(download_of(&j)),
        Err(e) => Err(e),
    }
}

/// The latest version of a mod, as far as telling of an update needs.
pub struct Release {
    pub version: String,
    pub link: String,
    pub size: Option<u64>,
    pub changelog: Option<String>,
}

#[verifier::ext_equal]
pub struct ReleaseView {
    pub version: Seq<char>,
    pub link: Seq<char>,
    pub size: Option<u64>,
    pub changelog: Option<Seq<char>>,
}

impl View for Release {
    type V = ReleaseView;

    open spec fn view(&self) -> ReleaseView {
        ReleaseView {
            version: self.version@,
            link: self.link@,
            size: self.size,
            changelog: text::text_opt(self.changelog),
        }
    }
}

/// The release that an answer tells of; none where it has no version.
pub open spec fn release_in(j: JsonView) -> Option<ReleaseView> {
    match first_item(j) {
        Some(first) => if json::str_or_empty(first, "version"@).len() > 0 {
            Some(
                ReleaseView {
                    version: json::str_or_empty(first, "version"@),
                    link: json::str_or_empty(first, "link"@),
                    size: json::u64_member(first, "content_length"@),
                    changelog: json::str_member(first, "description"@),
                },
            )
        } else {
            None
        },
        None => None,
    }
}

/// The release that a parsed answer tells of.
pub fn release_of(j: &Json) -> (r: Option<Release>)
    ensures
        match r {
            Some(d) => release_in(j@) == Some(d@),
            None => release_in(j@) is None,
        },
{
    match first_of(j) {
        Some(first) => {
            let version = first.str_or_empty("version");
            if version.as_str().is_empty() {
                return None;
            }
            let d = Release {
                version,
                link: first.str_or_empty("link"),
                size: first.u64_member("content_length"),
                changelog: first.str_member("description"),
            };
            assert(release_in(j@) == Some(d@));
            Some(d)
        },
        None => None,
    }
}

/// The release that the body of an answer tells of; an error where it is not JSON.
pub fn latest_full(body: &str) -> (r: Result<Option<Release>, String>)
    ensures
        match json::parsed(body@) {
            Ok(j) => match r {
                Ok(Some(d)) => release_in(j) == Some(d@),
                Ok(None) => release_in(j) is None,
                Err(_) => false,
            },
            Err(e) => r matches Err(told) && told@ == e,
        },
{
    match json::parse(body) {
        Ok(j) => Ok(release_of(&j)),
        Err(e) => Err(e),
    }
}

/// A mod of the Forge with what was found out about downloading it.
pub struct ResolvedMod {
    pub id: u64,
    pub name: String,
    pub slug: String,
    pub version: Option<String>,
    pub link: Option<String>,
    pub size: Option<u64>,
    pub spt_constraint: Option<String>,
    /// Why there is nothing to download.
    pub note: Option<String>,
}

#[verifier::ext_equal]
pub struct ResolvedView {
    pub id: u64,
    pub name: Seq<char>,
    pub slug: Seq<char>,
    pub version: Option<Seq<char>>,
    pub link: Option<Seq<char>>,
    pub size: Option<u64>,
    pub spt_constraint: Option<Seq<char>>,
    pub note: Option<Seq<char>>,
}

impl View for ResolvedMod {
    type V = ResolvedView;

    open spec fn view(&self) -> ResolvedView {
        ResolvedView {
            id: self.id,
            name: self.name@,
            slug: self.slug@,
            version: text::text_opt(self.version),
            link: text::text_opt(self.link),
            size: self.size,
            spt_constraint: text::text_opt(self.spt_constraint),
            note: text::text_opt(self.note),
        }
    }
}

pub open spec fn resolved_views(v: Seq<ResolvedMod>) -> Seq<ResolvedView> {
    v.map_values(|m: ResolvedMod| m@)
}

/// A mod and what looking it up gave.
pub open spec fn resolved(
    id: u64,
    slug: Seq<char>,
    found: Result<Option<Download>, String>,
) -> ResolvedView {
    let bare = ResolvedView {
        id,
        name: title(slug),
        slug,
        version: None,
        link: None,
        size: None,
        spt_constraint: None,
        note: None,
    };
    match found {
        Ok(Some(d)) => ResolvedView {
            version: Some(d@.version),
            link: Some(d@.link),
            size: d@.size,
            spt_constraint: d@.spt_constraint,
            ..bare
        },
        Ok(None) => ResolvedView { note: Some("No downloadable version found"@), ..bare },
        Err(e) => ResolvedView { note: Some("Lookup failed: "@ + e@), ..bare },
    }
}

/// The mod with what looking it up gave: a download, or a note why there is none.
pub fn lookup_mod(id: u64, slug: &str, found: Result<Option<Download>, String>) -> (r: ResolvedMod)
    ensures
        r@ == resolved(id, slug@, found),
{
    let mut r = ResolvedMod {
        id,
        name: prettify(slug),
        slug: text::owned(slug),
        version: None,
        link: None,
        size: None,
        spt_constraint: None,
        note: None,
    };
    match found {
        Ok(Some(d)) => {
            r.version = Some(d.version);
            r.link = Some(d.link);
            r.size = d.size;
            r.spt_constraint = d.spt_constraint;
        },
        Ok(None) => {
            r.note = Some(text::owned("No downloadable version found"));
        },
        Err(e) => {
            r.note = Some(text::concat("Lookup failed: ", e.as_str()));
        },
    }
    r
}

/// A looked-up mod has either a link or a note.
pub proof fn law_link_or_note(id: u64, slug: Seq<char>, found: Result<Option<Download>, String>)
    ensures
        resolved(id, slug, found).link is Some <==> resolved(id, slug, found).note is None,
{
}

/// `r` tells whether the address is that of a mod list.
pub open spec fn is_list(r: Result<(), String>, url: Seq<char>) -> bool {
    match r {
        Ok(_) => text::occurs(url, "forge.sp-tarkov.com/list/"@),
        Err(e) => !text::occurs(url, "forge.sp-tarkov.com/list/"@) && e@
            == "That doesn't look like a Forge mod-list URL (forge.sp-tarkov.com/list/...)."@,
    }
}

/// Whether the address is that of a mod list.
pub fn check_list_url(url: &str) -> (r: Result<(), String>)
    ensures
        is_list(r, url@),
{
    if text::contains(url, "forge.sp-tarkov.com/list/") {
        Ok(())
    } else {
        Err(
            text::owned(
                "That doesn't look like a Forge mod-list URL (forge.sp-tarkov.com/list/...).",
            ),
        )
    }
}

/// `r` holds the mods to look up, or tells that there are none.
pub open spec fn lists(r: Result<Vec<(u64, String)>, String>, mods: Seq<(u64, Seq<char>)>) -> bool {
    match r {
        Ok(v) => mods.len() > 0 && mod_views(v@) == mods,
        Err(e) => mods.len() == 0 && e@
            == "No mods found on that page. Make sure the list is public and the URL is correct."@,
    }
}

/// The mods to look up for a list page; an error where there are none.
pub fn resolve_modlist(html: &str) -> (r: Result<Vec<(u64, String)>, String>)
    ensures
        lists(r, mods_of(links_on(html@))),
{
    let mods = parse_list_mods(html);
    assert(mod_views(mods@).len() == mods@.len());
    if mods.len() == 0 {
        Err(
            text::owned(
                "No mods found on that page. Make sure the list is public and the URL is correct.",
            ),
        )
    } else {
        Ok(mods)
    }
}

} // verus!
