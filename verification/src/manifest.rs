//! Install manifests: the record of every file that an installation wrote.
//!
//! A manifest is a JSON file below `.spt-mod-installer/manifests`. It is what uninstalling,
//! toggling and update checks go by.
use crate::install::Installed;
use crate::json;
use crate::json::{Json, JsonView};
use crate::names;
use crate::resolver;
use crate::resolver::{MappedFile, MappedView};
use crate::text;
use vstd::prelude::*;

verus! {

/// A manifest, as it is read back.
pub struct Manifest {
    pub path: String,
    /// The targets of the files, relative to the game root.
    pub files: Vec<String>,
    pub forge_id: Option<u64>,
    pub forge_version: Option<String>,
    /// Milliseconds since the epoch.
    pub installed_at: u128,
}

/// The mathematical content of a [`Manifest`].
#[verifier::ext_equal]
pub struct ManifestView {
    pub path: Seq<char>,
    pub files: Seq<Seq<char>>,
    pub forge_id: Option<u64>,
    pub forge_version: Option<Seq<char>>,
    pub installed_at: u128,
}

impl View for Manifest {
    type V = ManifestView;

    open spec fn view(&self) -> ManifestView {
        ManifestView {
            path: self.path@,
            files: text::texts(self.files@),
            forge_id: self.forge_id,
            forge_version: text::text_opt(self.forge_version),
            installed_at: self.installed_at,
        }
    }
}

/// The views of a sequence of manifests.
pub open spec fn manifest_views(v: Seq<Manifest>) -> Seq<ManifestView> {
    v.map_values(|m: Manifest| m@)
}

/// The record of one installed file.
pub open spec fn file_tree(m: MappedView) -> JsonView {
    JsonView::Object(
        Map::<Seq<char>, JsonView>::empty().insert("original"@, JsonView::Str(m.original)).insert(
            "target"@,
            JsonView::Str(m.target),
        ).insert("category"@, JsonView::Str(m.category)),
    )
}

/// The manifest of an installation.
pub open spec fn manifest_tree(
    mod_name: Seq<char>,
    source: Seq<char>,
    at: u64,
    classification: Seq<char>,
    client_count: u64,
    server_count: u64,
    files: Seq<MappedView>,
) -> JsonView {
    JsonView::Object(
        Map::<Seq<char>, JsonView>::empty().insert("mod_name"@, JsonView::Str(mod_name)).insert(
            "source"@,
            JsonView::Str(source),
        ).insert("installed_at_ms"@, JsonView::Unsigned(at)).insert(
            "classification"@,
            JsonView::Str(classification),
        ).insert("client_count"@, JsonView::Unsigned(client_count)).insert(
            "server_count"@,
            JsonView::Unsigned(server_count),
        ).insert("files"@, JsonView::Array(files.map_values(|m: MappedView| file_tree(m)))),
    )
}

fn file_json(m: &MappedFile) -> (r: Json)
    ensures
        r@ == file_tree(m@),
        json::depth_within(r, 1),
{
    let mut members = json::no_members();
    json::put(&mut members, "original", json::string(m.original.as_str()));
    json::put(&mut members, "target", json::string(m.target.as_str()));
    json::put(&mut members, "category", json::string(m.category.as_str()));
    assert(json::members_within(members@, 0));
    json::object_with(members)
}

/// The manifest of an installation.
pub fn manifest_json(mod_name: &str, source: &str, at: u64, done: &Installed) -> (r: Json)
    ensures
        r@ == manifest_tree(
            mod_name@,
            source@,
            at,
            done.classification@,
            done.client_count as u64,
            done.server_count as u64,
            resolver::mapped_views(done.files@),
        ),
        json::depth_within(r, 3),
{
    let mut files: Vec<Json> = Vec::new();
    let ghost ms = resolver::mapped_views(done.files@);
    let ghost want = ms.map_values(|m: MappedView| file_tree(m));
    for i in 0..done.files.len()
        invariant
            ms == resolver::mapped_views(done.files@),
            want == ms.map_values(|m: MappedView| file_tree(m)),
            json::views(files@) == want.take(i as int),
            json::items_within(files@, 1),
    {
        let ghost was = json::views(files@);
        files.push(file_json(&done.files[i]));
        assert(json::views(files@) =~= was.push(want[i as int]));
        assert(want.take(i + 1) =~= want.take(i as int).push(want[i as int]));
    }
    assert(want.take(want.len() as int) =~= want);
    let mut members = json::no_members();
    json::put(&mut members, "mod_name", json::string(mod_name));
    json::put(&mut members, "source", json::string(source));
    json::put(&mut members, "installed_at_ms", Json::Unsigned(at));
    json::put(&mut members, "classification", json::string(done.classification.as_str()));
    json::put(&mut members, "client_count", Json::Unsigned(done.client_count as u64));
    json::put(&mut members, "server_count", Json::Unsigned(done.server_count as u64));
    assert(json::members_within(members@, 2));
    assert(json::items_within(files@, 1));
    json::put(&mut members, "files", json::array_of(files));
    assert(json::members_within(members@, 2));
    json::object_with(members)
}

proof fn lemma_manifest_is_plain(
    mod_name: Seq<char>,
    source: Seq<char>,
    at: u64,
    classification: Seq<char>,
    client_count: u64,
    server_count: u64,
    files: Seq<MappedView>,
)
    ensures
        ({
            let t = manifest_tree(
                mod_name,
                source,
                at,
                classification,
                client_count,
                server_count,
                files,
            );
            json::plain_within(t, 127)
        }),
{
    reveal_with_fuel(json::plain_within, 2);
    assert forall|m: MappedView| json::plain_within(#[trigger] file_tree(m), 125) by {}
    let list = JsonView::Array(files.map_values(|m: MappedView| file_tree(m)));
    assert(json::plain_within(list, 126));
}

/// The text of the manifest of an installation. Read again, it gives the manifest.
pub fn manifest_text(mod_name: &str, source: &str, at: u64, done: &Installed) -> (r: String)
    ensures
        ({
            let t = manifest_tree(
                mod_name@,
                source@,
                at,
                done.classification@,
                done.client_count as u64,
                done.server_count as u64,
                resolver::mapped_views(done.files@),
            );
            r@ == json::pretty(t) && json::reads_as(r@, t)
        }),
{
    let j = manifest_json(mod_name, source, at, done);
    proof {
        lemma_manifest_is_plain(
            mod_name@,
            source@,
            at,
            done.classification@,
            done.client_count as u64,
            done.server_count as u64,
            resolver::mapped_views(done.files@),
        );
        json::lemma_depth_more(j, 3, 128);
    }
    json::to_pretty(&j)
}

/// The manifest with the Forge id and, where it is known, the version of the mod.
pub open spec fn forge_tree(
    members: Map<Seq<char>, JsonView>,
    id: u64,
    version: Option<Seq<char>>,
) -> Map<Seq<char>, JsonView> {
    let with_id = members.insert("forge_id"@, JsonView::Unsigned(id));
    match version {
        Some(v) => with_id.insert("forge_version"@, JsonView::Str(v)),
        None => with_id,
    }
}

/// The members that a Forge id can be recorded among: those of an object, or none for `null`.
pub open spec fn recordable(j: JsonView) -> Option<Map<Seq<char>, JsonView>> {
    match j {
        JsonView::Object(m) => Some(m),
        JsonView::Null => Some(Map::empty()),
        _ => None,
    }
}

/// Records the Forge id and version in a manifest. Nothing where the manifest is neither an
/// object nor `null`.
pub fn with_forge(j: Json, id: u64, version: Option<String>) -> (r: Option<Json>)
    ensures
        match r {
            Some(out) => recordable(j@) matches Some(m) && out@ == JsonView::Object(
                forge_tree(m, id, text::text_opt(version)),
            ),
            None => recordable(j@) is None,
        },
        json::depth_within(j, 127) ==> (r matches Some(out) ==> json::depth_within(out, 127)),
{
    let ghost before = j;
    let mut members = match j {
        Json::Object(members) => {
            proof {
                json::lemma_object_tree(members);
            }
            members
        },
        Json::Null => json::no_members(),
        _ => {
            return None;
        },
    };
    assert(json::depth_within(before, 127) ==> json::members_within(members@, 126));
    json::put(&mut members, "forge_id", Json::Unsigned(id));
    if let Some(v) = version {
        json::put(&mut members, "forge_version", Json::Str(v));
    }
    assert(json::depth_within(before, 127) ==> json::members_within(members@, 126));
    Some(json::object_with(members))
}

/// `r` is the text of a manifest with the Forge id and version recorded.
pub open spec fn records_forge(
    r: Option<String>,
    source: Seq<char>,
    id: u64,
    version: Option<Seq<char>>,
) -> bool {
    match r {
        Some(out) => json::parsed(source) matches Ok(j) && recordable(j) matches Some(m) && {
            let t = JsonView::Object(forge_tree(m, id, version));
            out@ == json::pretty(t) && (json::plain_within(j, 127) ==> json::reads_as(out@, t))
        },
        None => json::parsed(source) matches Ok(j) ==> recordable(j) is None,
    }
}

/// The text of a manifest with the Forge id and version recorded; nothing where the text cannot
/// be read as a manifest.
pub fn record_forge(source: &str, id: u64, version: Option<String>) -> (r: Option<String>)
    ensures
        records_forge(r, source@, id, text::text_opt(version)),
{
    match json::parse(source) {
        Ok(j) => {
            let ghost before = j@;
            let ghost ver = text::text_opt(version);
            match with_forge(j, id, version) {
                Some(out) => {
                    proof {
                        let m = recordable(before)->0;
                        let t = forge_tree(m, id, ver);
                        if json::plain_within(before, 127) {
                            assert forall|k: Seq<char>| t.dom().contains(k) implies json::plain_within(
                                #[trigger] t[k],
                                126,
                            ) by {
                                if k != "forge_id"@ && k != "forge_version"@ {
                                    assert(t[k] == m[k]);
                                }
                            }
                            assert(json::plain_within(JsonView::Object(t), 127));
                        }
                        json::lemma_depth_more(out, 127, 128);
                    }
                    Some(json::to_pretty(&out))
                },
                None => None,
            }
        },
        Err(_) => None,
    }
}

/// The targets recorded in a list of files, with forward slashes.
pub open spec fn recorded_targets(files: Seq<JsonView>) -> Seq<Seq<char>>
    decreases files.len(),
{
    if files.len() == 0 {
        Seq::empty()
    } else {
        let before = recorded_targets(files.drop_last());
        match json::str_member(files.last(), "target"@) {
            Some(t) => before.push(text::slashed(t)),
            None => before,
        }
    }
}

/// The manifest that a JSON tree stands for. What is missing in it counts as empty, unknown or 0.
pub open spec fn manifest_of(path: Seq<char>, j: JsonView) -> ManifestView {
    ManifestView {
        path,
        files: match json::array_member(j, "files"@) {
            Some(files) => recorded_targets(files),
            None => Seq::empty(),
        },
        forge_id: json::u64_member(j, "forge_id"@),
        forge_version: json::str_member(j, "forge_version"@),
        installed_at: json::u64_or_zero(j, "installed_at_ms"@) as u128,
    }
}

fn read_targets(files: &[Json]) -> (r: Vec<String>)
    ensures
        text::texts(r@) == recorded_targets(json::views(files@)),
{
    let ghost fs = json::views(files@);
    let mut r: Vec<String> = Vec::new();
    assert(fs.take(0) =~= Seq::empty());
    assert(text::texts(r@) =~= Seq::empty());
    for i in 0..files.len()
        invariant
            fs == json::views(files@),
            text::texts(r@) == recorded_targets(fs.take(i as int)),
    {
        assert(fs.take(i + 1).drop_last() =~= fs.take(i as int));
        if let Some(target) = files[i].str_member("target") {
            let ghost was = text::texts(r@);
            r.push(text::slashes(target.as_str()));
            assert(text::texts(r@) =~= was.push(text::slashed(target@)));
        }
    }
    assert(fs.take(fs.len() as int) =~= fs);
    r
}

/// Reads a manifest from its JSON tree.
pub fn read_manifest(path: &str, j: &Json) -> (r: Manifest)
    ensures
        r@ == manifest_of(path@, j@),
{
    let files = match j.array_member("files") {
        Some(list) => read_targets(list.as_slice()),
        None => Vec::new(),
    };
    proof {
        if json::array_member(j@, "files"@) is None {
            assert(text::texts(files@) =~= Seq::empty());
        }
    }
    Manifest {
        path: text::owned(path),
        files,
        forge_id: j.u64_member("forge_id"),
        forge_version: j.str_member("forge_version"),
        installed_at: j.u64_or_zero("installed_at_ms") as u128,
    }
}

/// A file in the manifest folder: where it is, what it is called, and its text where it could be
/// read.
pub struct ManifestFile {
    pub path: String,
    pub name: String,
    pub text: Option<String>,
}

/// The manifest in a file, where it is one: a readable `.json` file with a JSON text.
pub open spec fn manifest_in(f: ManifestFile) -> Option<ManifestView> {
    if names::extension(f.name@) != Some("json"@) {
        None
    } else {
        match f.text {
            Some(t) => match json::parsed(t@) {
                Ok(j) => Some(manifest_of(f.path@, j)),
                Err(_) => None,
            },
            None => None,
        }
    }
}

/// The manifests among the files, in order.
pub open spec fn manifests_in(files: Seq<ManifestFile>) -> Seq<ManifestView>
    decreases files.len(),
{
    if files.len() == 0 {
        Seq::empty()
    } else {
        let before = manifests_in(files.drop_last());
        match manifest_in(files.last()) {
            Some(m) => before.push(m),
            None => before,
        }
    }
}

fn load_manifest(f: &ManifestFile) -> (r: Option<Manifest>)
    ensures
        match r {
            Some(m) => manifest_in(*f) == Some(m@),
            None => manifest_in(*f) is None,
        },
{
    match names::extension_of(f.name.as_str()) {
        Some(ext) => if !text::same(ext.as_str(), "json") {
            return None;
        },
        None => {
            return None;
        },
    }
    match &f.text {
        Some(t) => match json::parse(t.as_str()) {
            Ok(j) => Some(read_manifest(f.path.as_str(), &j)),
            Err(_) => None,
        },
        None => None,
    }
}

/// The manifests among the files of the manifest folder.
pub fn load_manifests(files: &[ManifestFile]) -> (r: Vec<Manifest>)
    ensures
        manifest_views(r@) == manifests_in(files@),
{
    let mut r: Vec<Manifest> = Vec::new();
    assert(files@.take(0) =~= Seq::empty());
    assert(manifest_views(r@) =~= Seq::empty());
    for i in 0..files.len()
        invariant
            manifest_views(r@) == manifests_in(files@.take(i as int)),
    {
        assert(files@.take(i + 1).drop_last() =~= files@.take(i as int));
        if let Some(m) = load_manifest(&files[i]) {
            let ghost was = manifest_views(r@);
            r.push(m);
            assert(manifest_views(r@) =~= was.push(m@));
        }
    }
    assert(files@.take(files@.len() as int) =~= files@);
    r
}

/// The file is the path `rel`, or lies below it.
pub open spec fn covers(file: Seq<char>, rel: Seq<char>) -> bool {
    file == rel || (text::trim_slashes(rel) + "/"@).is_prefix_of(file)
}

/// Some file of the manifest is at `rel` or below it.
pub open spec fn owns(m: ManifestView, rel: Seq<char>) -> bool {
    exists|i: int| 0 <= i < m.files.len() && covers(#[trigger] m.files[i], rel)
}

/// The first manifest that owns `rel`.
pub open spec fn first_owner(ms: Seq<ManifestView>, rel: Seq<char>) -> Option<int>
    decreases ms.len(),
{
    if ms.len() == 0 {
        None
    } else {
        match first_owner(ms.drop_last(), rel) {
            Some(i) => Some(i),
            None => if owns(ms.last(), rel) {
                Some(ms.len() - 1)
            } else {
                None
            },
        }
    }
}

/// All manifests that own `rel`, in order.
pub open spec fn owners(ms: Seq<ManifestView>, rel: Seq<char>) -> Seq<int>
    decreases ms.len(),
{
    if ms.len() == 0 {
        Seq::empty()
    } else {
        let before = owners(ms.drop_last(), rel);
        if owns(ms.last(), rel) {
            before.push(ms.len() - 1)
        } else {
            before
        }
    }
}

fn owns_path(m: &Manifest, rel_path: &str) -> (r: bool)
    ensures
        r == owns(m@, rel_path@),
{
    let mut prefix = text::trim_end_slashes(rel_path);
    prefix.append("/");
    for i in 0..m.files.len()
        invariant
            prefix@ == text::trim_slashes(rel_path@) + "/"@,
            forall|j: int| 0 <= j < i ==> !covers(#[trigger] m@.files[j], rel_path@),
    {
        let f = m.files[i].as_str();
        if text::same(f, rel_path) || text::starts_with(f, prefix.as_str()) {
            assert(covers(m@.files[i as int], rel_path@));
            return true;
        }
        assert(!covers(m@.files[i as int], rel_path@));
    }
    false
}

proof fn lemma_first_owner_prefix(ms: Seq<ManifestView>, rel: Seq<char>, n: int)
    requires
        0 <= n <= ms.len(),
        first_owner(ms.take(n), rel) is Some,
    ensures
        first_owner(ms, rel) == first_owner(ms.take(n), rel),
    decreases ms.len(),
{
    if n < ms.len() {
        assert(ms.drop_last().take(n) =~= ms.take(n));
        lemma_first_owner_prefix(ms.drop_last(), rel, n);
    } else {
        assert(ms.take(n) =~= ms);
    }
}

/// The first owner is a manifest that owns the path, and none before it does.
pub proof fn lemma_first_owner(ms: Seq<ManifestView>, rel: Seq<char>)
    ensures
        match first_owner(ms, rel) {
            Some(i) => 0 <= i < ms.len() && owns(ms[i], rel) && forall|j: int|
                0 <= j < i ==> !owns(#[trigger] ms[j], rel),
            None => forall|j: int| 0 <= j < ms.len() ==> !owns(#[trigger] ms[j], rel),
        },
    decreases ms.len(),
{
    if ms.len() > 0 {
        let before = ms.drop_last();
        lemma_first_owner(before, rel);
        match first_owner(before, rel) {
            Some(i) => {
                assert(before[i] == ms[i]);
                assert forall|j: int| 0 <= j < i implies !owns(#[trigger] ms[j], rel) by {
                    assert(before[j] == ms[j]);
                }
            },
            None => {
                assert forall|j: int| 0 <= j < before.len() implies !owns(#[trigger] ms[j], rel) by {
                    assert(before[j] == ms[j]);
                }
            },
        }
    }
}

/// The manifest that a mod at `rel_path` was installed by.
pub fn manifest_for<'a>(manifests: &'a [Manifest], rel_path: &str) -> (r: Option<&'a Manifest>)
    ensures
        match r {
            Some(m) => first_owner(manifest_views(manifests@), rel_path@) matches Some(i) && 0 <= i
                < manifests@.len() && *m == manifests@[i],
            None => first_owner(manifest_views(manifests@), rel_path@) is None,
        },
{
    let ghost ms = manifest_views(manifests@);
    assert(ms.take(0) =~= Seq::empty());
    for i in 0..manifests.len()
        invariant
            ms == manifest_views(manifests@),
            first_owner(ms.take(i as int), rel_path@) is None,
    {
        assert(ms.take(i + 1).drop_last() =~= ms.take(i as int));
        if owns_path(&manifests[i], rel_path) {
            proof {
                lemma_first_owner_prefix(ms, rel_path@, i + 1);
            }
            return Some(&manifests[i]);
        }
    }
    assert(ms.take(ms.len() as int) =~= ms);
    None
}

/// The indices of the manifests that own `rel_path`, in order.
pub fn owning_manifests(manifests: &[Manifest], rel_path: &str) -> (r: Vec<usize>)
    ensures
        indices(r@) == owners(manifest_views(manifests@), rel_path@),
{
    let ghost ms = manifest_views(manifests@);
    let mut r: Vec<usize> = Vec::new();
    assert(ms.take(0) =~= Seq::empty());
    assert(indices(r@) =~= Seq::empty());
    for i in 0..manifests.len()
        invariant
            ms == manifest_views(manifests@),
            indices(r@) == owners(ms.take(i as int), rel_path@),
    {
        assert(ms.take(i + 1).drop_last() =~= ms.take(i as int));
        if owns_path(&manifests[i], rel_path) {
            let ghost was = indices(r@);
            r.push(i);
            assert(indices(r@) =~= was.push(i as int));
        }
    }
    assert(ms.take(ms.len() as int) =~= ms);
    r
}

/// Machine indices as mathematical integers.
pub open spec fn indices(v: Seq<usize>) -> Seq<int> {
    v.map_values(|i: usize| i as int)
}

/// The owners are exactly the manifests that own the path.
pub proof fn lemma_owners(ms: Seq<ManifestView>, rel: Seq<char>)
    ensures
        forall|k: int|
            0 <= k < owners(ms, rel).len() ==> 0 <= #[trigger] owners(ms, rel)[k] < ms.len()
                && owns(ms[owners(ms, rel)[k]], rel),
        forall|i: int|
            0 <= i < ms.len() && owns(#[trigger] ms[i], rel) ==> owners(ms, rel).contains(i),
    decreases ms.len(),
{
    if ms.len() > 0 {
        let before = ms.drop_last();
        lemma_owners(before, rel);
        let o0 = owners(before, rel);
        let o = owners(ms, rel);
        assert forall|k: int| 0 <= k < o.len() implies 0 <= #[trigger] o[k] < ms.len() && owns(
            ms[o[k]],
            rel,
        ) by {
            if k < o0.len() {
                assert(o[k] == o0[k]);
                assert(ms[o0[k]] == before[o0[k]]);
            }
        }
        assert forall|i: int| 0 <= i < ms.len() && owns(#[trigger] ms[i], rel) implies o.contains(
            i,
        ) by {
            if i < before.len() {
                assert(owns(before[i], rel));
                let k = choose|k: int| 0 <= k < o0.len() && o0[k] == i;
                assert(o[k] == i);
            } else {
                assert(o[o.len() - 1] == i);
            }
        }
    }
}

/// The manifest is an older one of the same mod: it has the same Forge id and is not the one at
/// `keep`.
pub open spec fn is_superseded(m: ManifestView, id: u64, keep: Seq<char>) -> bool {
    m.forge_id == Some(id) && m.path != keep
}

/// The indices of the superseded manifests, in order.
pub open spec fn superseded(ms: Seq<ManifestView>, id: u64, keep: Seq<char>) -> Seq<int>
    decreases ms.len(),
{
    if ms.len() == 0 {
        Seq::empty()
    } else {
        let before = superseded(ms.drop_last(), id, keep);
        if is_superseded(ms.last(), id, keep) {
            before.push(ms.len() - 1)
        } else {
            before
        }
    }
}

/// The manifests to drop once the mod with the given Forge id has a manifest at `keep`.
pub fn superseded_manifests(manifests: &[Manifest], id: u64, keep: &str) -> (r: Vec<usize>)
    ensures
        indices(r@) == superseded(manifest_views(manifests@), id, keep@),
{
    let ghost ms = manifest_views(manifests@);
    let mut r: Vec<usize> = Vec::new();
    assert(ms.take(0) =~= Seq::empty());
    assert(indices(r@) =~= Seq::empty());
    for i in 0..manifests.len()
        invariant
            ms == manifest_views(manifests@),
            indices(r@) == superseded(ms.take(i as int), id, keep@),
    {
        assert(ms.take(i + 1).drop_last() =~= ms.take(i as int));
        let same_mod = match manifests[i].forge_id {
            Some(other) => other == id,
            None => false,
        };
        if same_mod && !text::same(manifests[i].path.as_str(), keep) {
            let ghost was = indices(r@);
            r.push(i);
            assert(indices(r@) =~= was.push(i as int));
        }
    }
    assert(ms.take(ms.len() as int) =~= ms);
    r
}

/// One manifest per Forge id is kept: every manifest of the id that is not superseded is the one
/// at `keep`, and no manifest of another mod is.
pub proof fn law_one_manifest_per_mod(ms: Seq<ManifestView>, id: u64, keep: Seq<char>)
    ensures
        forall|i: int|
            0 <= i < ms.len() && !superseded(ms, id, keep).contains(i) && (#[trigger] ms[i]).forge_id
                == Some(id) ==> ms[i].path == keep,
        forall|i: int|
            superseded(ms, id, keep).contains(i) ==> 0 <= i < ms.len() && (#[trigger] ms[i]).forge_id
                == Some(id),
    decreases ms.len(),
{
    if ms.len() > 0 {
        let before = ms.drop_last();
        law_one_manifest_per_mod(before, id, keep);
        let s0 = superseded(before, id, keep);
        let s = superseded(ms, id, keep);
        assert forall|i: int|
            0 <= i < ms.len() && !s.contains(i) && (#[trigger] ms[i]).forge_id == Some(
                id,
            ) implies ms[i].path == keep by {
            if i < before.len() {
                assert(before[i] == ms[i]);
                if s0.contains(i) {
                    let k = choose|k: int| 0 <= k < s0.len() && s0[k] == i;
                    assert(s[k] == i);
                }
            } else if is_superseded(ms.last(), id, keep) {
                assert(s[s.len() - 1] == i);
            }
        }
        assert forall|i: int| s.contains(i) implies 0 <= i < ms.len() && (#[trigger] ms[i]).forge_id
            == Some(id) by {
            let k = choose|k: int| 0 <= k < s.len() && s[k] == i;
            if k < s0.len() {
                assert(s0[k] == i);
                assert(s0.contains(i));
                assert(before[i] == ms[i]);
            }
        }
    }
}

proof fn lemma_recorded_targets(files: Seq<MappedView>)
    ensures
        recorded_targets(files.map_values(|m: MappedView| file_tree(m))) == files.map_values(
            |m: MappedView| text::slashed(m.target),
        ),
    decreases files.len(),
{
    let trees = files.map_values(|m: MappedView| file_tree(m));
    if files.len() > 0 {
        lemma_recorded_targets(files.drop_last());
        assert(trees.drop_last() =~= files.drop_last().map_values(|m: MappedView| file_tree(m)));
        reveal_strlit("original");
        reveal_strlit("target");
        reveal_strlit("category");
        assert("original"@.len() == 8 && "target"@.len() == 6 && "category"@.len() == 8);
        assert(json::str_member(file_tree(files.last()), "target"@) == Some(files.last().target));
    }
    assert(recorded_targets(trees) =~= files.map_values(
        |m: MappedView| text::slashed(m.target),
    ));
}

/// A manifest gives back what was written into it: the exact targets of the installed files, with
/// forward slashes, and the time of the installation. A fresh manifest has no Forge id.
pub proof fn law_manifest_reads_back(
    path: Seq<char>,
    mod_name: Seq<char>,
    source: Seq<char>,
    at: u64,
    classification: Seq<char>,
    client_count: u64,
    server_count: u64,
    files: Seq<MappedView>,
)
    ensures
        manifest_of(
            path,
            manifest_tree(
                mod_name,
                source,
                at,
                classification,
                client_count,
                server_count,
                files,
            ),
        ) == (ManifestView {
            path,
            files: files.map_values(|m: MappedView| text::slashed(m.target)),
            forge_id: None,
            forge_version: None,
            installed_at: at as u128,
        }),
{
    reveal_strlit("mod_name");
    reveal_strlit("source");
    reveal_strlit("installed_at_ms");
    reveal_strlit("classification");
    reveal_strlit("client_count");
    reveal_strlit("server_count");
    reveal_strlit("files");
    reveal_strlit("forge_id");
    reveal_strlit("forge_version");
    assert("mod_name"@[0] == 'm' && "forge_id"@[0] == 'f');
    assert("files"@.len() == 5);
    assert("installed_at_ms"@.len() == 15);
    assert("forge_version"@.len() == 13);
    assert("forge_id"@.len() == 8);
    lemma_recorded_targets(files);
}

/// Recording the Forge id and version changes these two and nothing else of a manifest.
pub proof fn law_forge_record_reads_back(
    path: Seq<char>,
    members: Map<Seq<char>, JsonView>,
    id: u64,
    version: Option<Seq<char>>,
)
    ensures
        ({
            let before = manifest_of(path, JsonView::Object(members));
            let after = manifest_of(path, JsonView::Object(forge_tree(members, id, version)));
            &&& after.forge_id == Some(id)
            &&& after.forge_version == if version is Some {
                version
            } else {
                before.forge_version
            }
            &&& after.path == before.path
            &&& after.files == before.files
            &&& after.installed_at == before.installed_at
        }),
{
    reveal_strlit("installed_at_ms");
    reveal_strlit("files");
    reveal_strlit("forge_id");
    reveal_strlit("forge_version");
    assert("files"@.len() == 5);
    assert("installed_at_ms"@.len() == 15);
    assert("forge_version"@.len() == 13);
    assert("forge_id"@.len() == 8);
}

/// A manifest with the Forge id and version recorded gives back the installed files, the time, the
/// id and the version.
pub proof fn law_recorded_install_reads_back(
    path: Seq<char>,
    mod_name: Seq<char>,
    source: Seq<char>,
    at: u64,
    classification: Seq<char>,
    client_count: u64,
    server_count: u64,
    files: Seq<MappedView>,
    id: u64,
    version: Option<Seq<char>>,
)
    ensures
        ({
            let written = manifest_tree(
                mod_name,
                source,
                at,
                classification,
                client_count,
                server_count,
                files,
            );
            manifest_of(path, JsonView::Object(forge_tree(written->Object_0, id, version)))
                == ManifestView {
                path,
                files: files.map_values(|m: MappedView| text::slashed(m.target)),
                forge_id: Some(id),
                forge_version: version,
                installed_at: at as u128,
            }
        }),
{
    let written = manifest_tree(
        mod_name,
        source,
        at,
        classification,
        client_count,
        server_count,
        files,
    );
    law_manifest_reads_back(
        path,
        mod_name,
        source,
        at,
        classification,
        client_count,
        server_count,
        files,
    );
    law_forge_record_reads_back(path, written->Object_0, id, version);
}

} // verus!
