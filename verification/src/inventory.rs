//! The mods found in the game folder.
use crate::json;
use crate::json::{Json, JsonView};
use crate::manifest;
use crate::manifest::{Manifest, ManifestView};
use crate::names;
use crate::paths;
use crate::text;
use crate::tree;
use crate::tree::Node;
use vstd::prelude::*;

verus! {

/// The name is that of one of SPT's own client files.
pub open spec fn core_client(name: Seq<char>) -> bool {
    let n = text::lowercase(name);
    n == "spt"@ || "spt-"@.is_prefix_of(n) || "spt_"@.is_prefix_of(n)
}

pub fn is_spt_core_client(name: &str) -> (r: bool)
    ensures
        r == core_client(name@),
{
    let n = name.to_lowercase();
    text::same(n.as_str(), "spt") || text::starts_with(n.as_str(), "spt-") || text::starts_with(
        n.as_str(),
        "spt_",
    )
}

/// One installed mod.
pub struct ModEntry {
    pub name: String,
    pub version: Option<String>,
    pub author: Option<String>,
    /// `client` or `server`.
    pub kind: String,
    /// The path in the game folder, where the mod is or would be if it were enabled.
    pub rel_path: String,
    pub file_count: usize,
    pub size_bytes: u64,
    /// `app` where a manifest owns the mod, else `external`.
    pub source: String,
    pub enabled: bool,
    pub forge_id: Option<u64>,
}

#[verifier::ext_equal]
pub struct EntryView {
    pub name: Seq<char>,
    pub version: Option<Seq<char>>,
    pub author: Option<Seq<char>>,
    pub kind: Seq<char>,
    pub rel_path: Seq<char>,
    pub file_count: nat,
    pub size_bytes: nat,
    pub source: Seq<char>,
    pub enabled: bool,
    pub forge_id: Option<u64>,
}

impl View for ModEntry {
    type V = EntryView;

    open spec fn view(&self) -> EntryView {
        EntryView {
            name: self.name@,
            version: text::text_opt(self.version),
            author: text::text_opt(self.author),
            kind: self.kind@,
            rel_path: self.rel_path@,
            file_count: self.file_count as nat,
            size_bytes: self.size_bytes as nat,
            source: self.source@,
            enabled: self.enabled,
            forge_id: self.forge_id,
        }
    }
}

pub open spec fn entry_views(v: Seq<ModEntry>) -> Seq<EntryView> {
    v.map_values(|e: ModEntry| e@)
}

/// The entry of a mod whose version and author, as far as its own files tell them, are given. The
/// manifest that owns the mod knows better of the version.
pub open spec fn entry_of(
    name: Seq<char>,
    kind: Seq<char>,
    rel: Seq<char>,
    file_count: nat,
    size_bytes: nat,
    own_version: Option<Seq<char>>,
    author: Option<Seq<char>>,
    ms: Seq<ManifestView>,
    enabled: bool,
) -> EntryView {
    let owner = manifest::first_owner(ms, rel);
    EntryView {
        name,
        version: match owner {
            Some(i) => if ms[i].forge_version is Some {
                ms[i].forge_version
            } else {
                own_version
            },
            None => own_version,
        },
        author,
        kind,
        rel_path: rel,
        file_count,
        size_bytes,
        source: if owner is Some {
            "app"@
        } else {
            "external"@
        },
        enabled,
        forge_id: match owner {
            Some(i) => ms[i].forge_id,
            None => None,
        },
    }
}

/// Adds the entry of a mod to the list.
pub fn push_entry(
    out: &mut Vec<ModEntry>,
    name: String,
    kind: &str,
    rel: String,
    file_count: usize,
    size_bytes: u64,
    pkg_version: Option<String>,
    author: Option<String>,
    manifests: &[Manifest],
    enabled: bool,
)
    ensures
        entry_views(final(out)@) == entry_views(old(out)@).push(
            entry_of(
                name@,
                kind@,
                rel@,
                file_count as nat,
                size_bytes as nat,
                text::text_opt(pkg_version),
                text::text_opt(author),
                manifest::manifest_views(manifests@),
                enabled,
            ),
        ),
{
    let ghost before = entry_views(out@);
    let ghost own_version = text::text_opt(pkg_version);
    let (source, forge_id, version) = match manifest::manifest_for(manifests, rel.as_str()) {
        Some(m) => {
            let version = match &m.forge_version {
                Some(v) => Some(v.clone()),
                None => pkg_version,
            };
            ("app", m.forge_id, version)
        },
        None => ("external", None, pkg_version),
    };
    let e = ModEntry {
        name,
        version,
        author,
        kind: text::owned(kind),
        rel_path: rel,
        file_count,
        size_bytes,
        source: text::owned(source),
        enabled,
        forge_id,
    };
    let ghost view = e@;
    out.push(e);
    assert(entry_views(out@) =~= before.push(view));
}

/// Name, version and author that a package file gives, as far as it gives them.
pub open spec fn package_in(j: JsonView) -> (
    Option<Seq<char>>,
    Option<Seq<char>>,
    Option<Seq<char>>,
) {
    (
        json::str_member(j, "name"@),
        json::str_member(j, "version"@),
        json::str_member(j, "author"@),
    )
}

/// Name, version and author that a parsed package file gives.
pub fn read_package(j: &Json) -> (r: (Option<String>, Option<String>, Option<String>))
    ensures
        (text::text_opt(r.0), text::text_opt(r.1), text::text_opt(r.2)) == package_in(j@),
{
    (j.str_member("name"), j.str_member("version"), j.str_member("author"))
}

/// Name, version and author that the text of a `package.json` gives, as far as it gives them.
pub open spec fn package_of(source: Option<Seq<char>>) -> (
    Option<Seq<char>>,
    Option<Seq<char>>,
    Option<Seq<char>>,
) {
    match source {
        Some(t) => match json::parsed(t) {
            Ok(j) => package_in(j),
            Err(_) => (None, None, None),
        },
        None => (None, None, None),
    }
}

/// Name, version and author of the mod whose `package.json` has the given text, where there is one.
pub fn read_pkg(source: &Option<String>) -> (r: (Option<String>, Option<String>, Option<String>))
    ensures
        (text::text_opt(r.0), text::text_opt(r.1), text::text_opt(r.2)) == package_of(
            text::text_opt(*source),
        ),
{
    match source {
        Some(t) => match json::parse(t.as_str()) {
            Ok(j) => read_package(&j),
            Err(_) => (None, None, None),
        },
        None => (None, None, None),
    }
}

/// A folder or file in the folder of server mods.
pub struct ServerNode {
    pub node: Node,
    /// The text of the `package.json` in it, where it can be read.
    pub package: Option<String>,
}

/// What is in the mod folders of a tree: of the game folder itself or of the store of disabled
/// mods.
pub struct Listing {
    pub plugins: Vec<Node>,
    pub patchers: Vec<Node>,
    pub mods: Vec<ServerNode>,
}

/// The entry of a node of a client folder, where it is a mod: a folder, or a library by itself.
pub open spec fn client_entry(
    node: Node,
    sub: Seq<char>,
    ms: Seq<ManifestView>,
    enabled: bool,
) -> Option<EntryView> {
    match node {
        Node::Folder { name, children } => if core_client(name@) {
            None
        } else {
            Some(
                entry_of(
                    name@,
                    "client"@,
                    "BepInEx/"@ + sub + "/"@ + name@,
                    tree::count(children@),
                    tree::size(children@),
                    None,
                    None,
                    ms,
                    enabled,
                ),
            )
        },
        Node::File { name, exact, size } => {
            let stem = if exact {
                names::stem(name@)
            } else {
                name@
            };
            if !is_library(name@) || core_client(stem) {
                None
            } else {
                Some(
                    entry_of(
                        stem,
                        "client"@,
                        "BepInEx/"@ + sub + "/"@ + name@,
                        1,
                        match size {
                            Some(n) => n as nat,
                            None => 0,
                        },
                        None,
                        None,
                        ms,
                        enabled,
                    ),
                )
            }
        },
    }
}

/// The file name has the extension `dll`, in any case.
pub open spec fn is_library(name: Seq<char>) -> bool {
    match names::extension(name) {
        Some(e) => text::ascii_lowercase(e) == text::ascii_lowercase("dll"@),
        None => false,
    }
}

/// The entry of a node of the server folder, where it is a mod: a folder.
pub open spec fn server_entry(n: ServerNode, ms: Seq<ManifestView>, enabled: bool) -> Option<
    EntryView,
> {
    match n.node {
        Node::Folder { name, children } => {
            let package = package_of(text::text_opt(n.package));
            Some(
                entry_of(
                    match package.0 {
                        Some(told) => told,
                        None => name@,
                    },
                    "server"@,
                    "SPT/user/mods/"@ + name@,
                    tree::count(children@),
                    tree::size(children@),
                    package.1,
                    package.2,
                    ms,
                    enabled,
                ),
            )
        },
        Node::File { .. } => None,
    }
}

pub open spec fn with_entry(s: Seq<EntryView>, e: Option<EntryView>) -> Seq<EntryView> {
    match e {
        Some(e) => s.push(e),
        None => s,
    }
}

pub open spec fn client_entries(
    nodes: Seq<Node>,
    sub: Seq<char>,
    ms: Seq<ManifestView>,
    enabled: bool,
) -> Seq<EntryView>
    decreases nodes.len(),
{
    if nodes.len() == 0 {
        Seq::empty()
    } else {
        with_entry(
            client_entries(nodes.drop_last(), sub, ms, enabled),
            client_entry(nodes.last(), sub, ms, enabled),
        )
    }
}

pub open spec fn server_entries(
    nodes: Seq<ServerNode>,
    ms: Seq<ManifestView>,
    enabled: bool,
) -> Seq<EntryView>
    decreases nodes.len(),
{
    if nodes.len() == 0 {
        Seq::empty()
    } else {
        with_entry(
            server_entries(nodes.drop_last(), ms, enabled),
            server_entry(nodes.last(), ms, enabled),
        )
    }
}

/// The entries of all mods of a tree.
pub open spec fn entries(l: Listing, ms: Seq<ManifestView>, enabled: bool) -> Seq<EntryView> {
    client_entries(l.plugins@, "plugins"@, ms, enabled) + client_entries(
        l.patchers@,
        "patchers"@,
        ms,
        enabled,
    ) + server_entries(l.mods@, ms, enabled)
}

/// Number and size of the files in the node are within what the machine counts.
pub open spec fn node_fits(n: Node) -> bool {
    match n {
        Node::Folder { children, .. } => tree::count(children@) <= usize::MAX && tree::size(
            children@,
        ) <= u64::MAX,
        Node::File { .. } => true,
    }
}

pub open spec fn fits(l: Listing) -> bool {
    &&& forall|i: int| 0 <= i < l.plugins@.len() ==> node_fits(#[trigger] l.plugins@[i])
    &&& forall|i: int| 0 <= i < l.patchers@.len() ==> node_fits(#[trigger] l.patchers@[i])
    &&& forall|i: int| 0 <= i < l.mods@.len() ==> node_fits((#[trigger] l.mods@[i]).node)
}

fn within_bounds(n: &Node) -> (r: bool)
    ensures
        r == node_fits(*n),
{
    match n {
        Node::Folder { children, .. } => tree::checked_count(children.as_slice()).is_some()
            && tree::checked_size(children.as_slice()).is_some(),
        Node::File { .. } => true,
    }
}

fn all_within_bounds(nodes: &[Node]) -> (r: bool)
    ensures
        r == (forall|i: int| 0 <= i < nodes@.len() ==> node_fits(#[trigger] nodes@[i])),
{
    for i in 0..nodes.len()
        invariant
            forall|j: int| 0 <= j < i ==> node_fits(#[trigger] nodes@[j]),
    {
        if !within_bounds(&nodes[i]) {
            assert(!node_fits(nodes@[i as int]));
            return false;
        }
    }
    true
}

/// Whether number and size of the files of every mod are within what the machine counts.
pub fn listing_fits(l: &Listing) -> (r: bool)
    ensures
        r == fits(*l),
{
    if !all_within_bounds(l.plugins.as_slice()) || !all_within_bounds(l.patchers.as_slice()) {
        return false;
    }
    for i in 0..l.mods.len()
        invariant
            forall|j: int| 0 <= j < i ==> node_fits((#[trigger] l.mods@[j]).node),
    {
        if !within_bounds(&l.mods[i].node) {
            assert(!node_fits(l.mods@[i as int].node));
            return false;
        }
    }
    true
}

fn scan_client(
    nodes: &[Node],
    sub: &str,
    manifests: &[Manifest],
    enabled: bool,
    out: &mut Vec<ModEntry>,
)
    requires
        forall|i: int| 0 <= i < nodes@.len() ==> node_fits(#[trigger] nodes@[i]),
    ensures
        entry_views(final(out)@) == entry_views(old(out)@) + client_entries(
            nodes@,
            sub@,
            manifest::manifest_views(manifests@),
            enabled,
        ),
{
    let ghost before = entry_views(out@);
    let ghost ms = manifest::manifest_views(manifests@);
    assert(nodes@.take(0) =~= Seq::empty());
    assert(before + client_entries(nodes@.take(0), sub@, ms, enabled) =~= before);
    for i in 0..nodes.len()
        invariant
            ms == manifest::manifest_views(manifests@),
            forall|j: int| 0 <= j < nodes@.len() ==> node_fits(#[trigger] nodes@[j]),
            entry_views(out@) == before + client_entries(nodes@.take(i as int), sub@, ms, enabled),
    {
        let ghost so_far = client_entries(nodes@.take(i as int), sub@, ms, enabled);
        assert(nodes@.take(i + 1).drop_last() =~= nodes@.take(i as int));
        assert(node_fits(nodes@[i as int]));
        let ghost told = client_entry(nodes@[i as int], sub@, ms, enabled);
        match &nodes[i] {
            Node::Folder { name, children } => {
                if !is_spt_core_client(name.as_str()) {
                    let rel = client_path(sub, name.as_str());
                    let n: usize = tree::count_files(children.as_slice());
                    let size: u64 = tree::dir_size(children.as_slice());
                    push_entry(
                        out,
                        name.clone(),
                        "client",
                        rel,
                        n,
                        size,
                        None,
                        None,
                        manifests,
                        enabled,
                    );
                }
            },
            Node::File { name, exact, size } => {
                let library = match names::extension_of(name.as_str()) {
                    Some(e) => text::same_ignoring_ascii_case(e.as_str(), "dll"),
                    None => false,
                };
                if library {
                    let stem = if *exact {
                        names::stem_of(name.as_str())
                    } else {
                        name.clone()
                    };
                    if !is_spt_core_client(stem.as_str()) {
                        let rel = client_path(sub, name.as_str());
                        let bytes: u64 = match size {
                            Some(n) => *n,
                            None => 0,
                        };
                        push_entry(
                            out,
                            stem,
                            "client",
                            rel,
                            1,
                            bytes,
                            None,
                            None,
                            manifests,
                            enabled,
                        );
                    }
                }
            },
        }
        assert(entry_views(out@) =~= with_entry(before + so_far, told));
        assert(with_entry(before + so_far, told) =~= before + with_entry(so_far, told));
    }
    assert(nodes@.take(nodes@.len() as int) =~= nodes@);
}

fn client_path(sub: &str, name: &str) -> (r: String)
    ensures
        r@ == "BepInEx/"@ + sub@ + "/"@ + name@,
{
    let mut r = text::concat("BepInEx/", sub);
    r.append("/");
    r.append(name);
    r
}

fn scan_server(
    nodes: &[ServerNode],
    manifests: &[Manifest],
    enabled: bool,
    out: &mut Vec<ModEntry>,
)
    requires
        forall|i: int| 0 <= i < nodes@.len() ==> node_fits((#[trigger] nodes@[i]).node),
    ensures
        entry_views(final(out)@) == entry_views(old(out)@) + server_entries(
            nodes@,
            manifest::manifest_views(manifests@),
            enabled,
        ),
{
    let ghost before = entry_views(out@);
    let ghost ms = manifest::manifest_views(manifests@);
    assert(nodes@.take(0) =~= Seq::empty());
    assert(before + server_entries(nodes@.take(0), ms, enabled) =~= before);
    for i in 0..nodes.len()
        invariant
            ms == manifest::manifest_views(manifests@),
            forall|j: int| 0 <= j < nodes@.len() ==> node_fits((#[trigger] nodes@[j]).node),
            entry_views(out@) == before + server_entries(nodes@.take(i as int), ms, enabled),
    {
        let ghost so_far = server_entries(nodes@.take(i as int), ms, enabled);
        assert(nodes@.take(i + 1).drop_last() =~= nodes@.take(i as int));
        assert(node_fits(nodes@[i as int].node));
        let ghost told = server_entry(nodes@[i as int], ms, enabled);
        match &nodes[i].node {
            Node::Folder { name, children } => {
                let (told_name, version, author) = read_pkg(&nodes[i].package);
                let shown = match told_name {
                    Some(n) => n,
                    None => name.clone(),
                };
                let rel = text::concat("SPT/user/mods/", name.as_str());
                let n: usize = tree::count_files(children.as_slice());
                let size: u64 = tree::dir_size(children.as_slice());
                push_entry(
                    out,
                    shown,
                    "server",
                    rel,
                    n,
                    size,
                    version,
                    author,
                    manifests,
                    enabled,
                );
            },
            Node::File { .. } => {},
        }
        assert(entry_views(out@) =~= with_entry(before + so_far, told));
        assert(with_entry(before + so_far, told) =~= before + with_entry(so_far, told));
    }
    assert(nodes@.take(nodes@.len() as int) =~= nodes@);
}

/// Adds the entries of all mods of a tree to the list.
pub fn scan_tree(l: &Listing, manifests: &[Manifest], enabled: bool, out: &mut Vec<ModEntry>)
    requires
        fits(*l),
    ensures
        entry_views(final(out)@) == entry_views(old(out)@) + entries(
            *l,
            manifest::manifest_views(manifests@),
            enabled,
        ),
{
    let ghost before = entry_views(out@);
    let ghost ms = manifest::manifest_views(manifests@);
    scan_client(l.plugins.as_slice(), "plugins", manifests, enabled, out);
    scan_client(l.patchers.as_slice(), "patchers", manifests, enabled, out);
    scan_server(l.mods.as_slice(), manifests, enabled, out);
    assert(entry_views(out@) =~= before + entries(*l, ms, enabled));
}

/// `a` comes before `b` because of their characters at position `i`.
pub open spec fn precedes_at(a: Seq<char>, b: Seq<char>, i: int) -> bool {
    &&& 0 <= i <= a.len()
    &&& i < b.len()
    &&& forall|j: int| 0 <= j < i ==> a[j] == b[j]
    &&& i < a.len() ==> a[i] < b[i]
}

/// `a` comes before `b` in the order of their characters.
pub open spec fn precedes(a: Seq<char>, b: Seq<char>) -> bool {
    exists|i: int| precedes_at(a, b, i)
}

fn comes_before(a: &str, b: &str) -> (r: bool)
    ensures
        r == precedes(a@, b@),
{
    let x = text::chars_of(a);
    let y = text::chars_of(b);
    for i in 0..y.len()
        invariant
            x@ == a@,
            y@ == b@,
            i <= x@.len(),
            forall|j: int| 0 <= j < i ==> a@[j] == b@[j],
    {
        if i == x.len() || x[i] < y[i] {
            assert(precedes_at(a@, b@, i as int));
            return true;
        }
        if x[i] != y[i] {
            assert forall|k: int| !precedes_at(a@, b@, k) by {}
            return false;
        }
    }
    assert forall|k: int| !precedes_at(a@, b@, k) by {}
    false
}

/// What mods are ordered by: their names in lower case.
pub open spec fn sort_key(e: EntryView) -> Seq<char> {
    text::lowercase(e.name)
}

/// `s` with `e` put behind the last entry that does not come after it.
pub open spec fn inserted(s: Seq<EntryView>, e: EntryView) -> Seq<EntryView>
    decreases s.len(),
{
    if s.len() == 0 || !precedes(sort_key(e), sort_key(s.last())) {
        s.push(e)
    } else {
        inserted(s.drop_last(), e).push(s.last())
    }
}

/// The entries in the order of their names.
pub open spec fn arranged(s: Seq<EntryView>) -> Seq<EntryView>
    decreases s.len(),
{
    if s.len() == 0 {
        Seq::empty()
    } else {
        inserted(arranged(s.drop_last()), s.last())
    }
}

fn insert_entry(v: &mut Vec<ModEntry>, e: ModEntry)
    ensures
        entry_views(final(v)@) == inserted(entry_views(old(v)@), e@),
{
    let ghost s = entry_views(v@);
    let key = e.name.as_str().to_lowercase();
    let mut at: usize = v.len();
    assert(s.take(s.len() as int) =~= s);
    assert(inserted(s.take(at as int), e@) + s.skip(at as int) =~= inserted(s, e@));
    while at > 0 && comes_before(key.as_str(), v[at - 1].name.as_str().to_lowercase().as_str())
        invariant
            at <= v@.len(),
            s == entry_views(v@),
            key@ == sort_key(e@),
            inserted(s.take(at as int), e@) + s.skip(at as int) == inserted(s, e@),
        decreases at,
    {
        let ghost upto = s.take(at as int);
        proof {
            assert(upto.last() == v@[at - 1]@);
            assert(upto.drop_last() =~= s.take(at - 1));
            assert(inserted(s.take(at - 1), e@).push(upto.last()) + s.skip(at as int) =~= inserted(
                s.take(at - 1),
                e@,
            ) + s.skip(at - 1));
        }
        at = at - 1;
    }
    let ghost view = e@;
    proof {
        if at > 0 {
            assert(s.take(at as int).last() == v@[at - 1]@);
        }
        assert(inserted(s.take(at as int), e@) == s.take(at as int).push(e@));
    }
    v.insert(at, e);
    assert(entry_views(v@) =~= s.take(at as int).push(view) + s.skip(at as int));
}

/// The entries in the order of their names.
pub fn arrange(all: Vec<ModEntry>) -> (r: Vec<ModEntry>)
    ensures
        entry_views(r@) == arranged(entry_views(all@)),
{
    let ghost s = entry_views(all@);
    let mut rest = all;
    let mut r: Vec<ModEntry> = Vec::new();
    let n: usize = rest.len();
    assert(s.take(0) =~= Seq::empty());
    assert(s.skip(0) =~= s);
    assert(entry_views(r@) =~= Seq::empty());
    for i in 0..n
        invariant
            n == s.len(),
            entry_views(rest@) == s.skip(i as int),
            entry_views(r@) == arranged(s.take(i as int)),
    {
        assert(entry_views(rest@).len() == rest@.len());
        let ghost was = entry_views(rest@);
        let e = rest.remove(0);
        proof {
            assert(e@ == was[0]);
            assert(entry_views(rest@) =~= was.skip(1));
            assert(was.skip(1) =~= s.skip(i + 1));
            assert(s.take(i + 1).drop_last() =~= s.take(i as int));
        }
        insert_entry(&mut r, e);
    }
    assert(s.take(n as int) =~= s);
    r
}

/// The mods of the game folder, apart by what they are for.
pub struct InstalledList {
    pub client: Vec<ModEntry>,
    pub server: Vec<ModEntry>,
}

pub open spec fn is_client(e: EntryView) -> bool {
    e.kind == "client"@
}

/// `r` holds the entries in the order of their names, the client mods apart from the others.
pub open spec fn lists(r: InstalledList, all: Seq<EntryView>) -> bool {
    &&& entry_views(r.client@) == arranged(all).filter(|e: EntryView| is_client(e))
    &&& entry_views(r.server@) == arranged(all).filter(|e: EntryView| !is_client(e))
}

fn split_by_kind(all: Vec<ModEntry>) -> (r: InstalledList)
    ensures
        entry_views(r.client@) == entry_views(all@).filter(|e: EntryView| is_client(e)),
        entry_views(r.server@) == entry_views(all@).filter(|e: EntryView| !is_client(e)),
{
    let ghost s = entry_views(all@);
    let ghost yes = |e: EntryView| is_client(e);
    let ghost no = |e: EntryView| !is_client(e);
    let mut rest = all;
    let mut client: Vec<ModEntry> = Vec::new();
    let mut server: Vec<ModEntry> = Vec::new();
    let n: usize = rest.len();
    proof {
        text::lemma_filter_none(s, yes);
        text::lemma_filter_none(s, no);
        assert(s.skip(0) =~= s);
        assert(entry_views(client@) =~= Seq::empty());
        assert(entry_views(server@) =~= Seq::empty());
    }
    for i in 0..n
        invariant
            n == s.len(),
            yes == (|e: EntryView| is_client(e)),
            no == (|e: EntryView| !is_client(e)),
            entry_views(rest@) == s.skip(i as int),
            entry_views(client@) == s.take(i as int).filter(yes),
            entry_views(server@) == s.take(i as int).filter(no),
    {
        assert(entry_views(rest@).len() == rest@.len());
        let ghost was = entry_views(rest@);
        let e = rest.remove(0);
        proof {
            assert(e@ == was[0]);
            assert(entry_views(rest@) =~= was.skip(1));
            assert(was.skip(1) =~= s.skip(i + 1));
            text::lemma_filter_next(s, yes, i as int);
            text::lemma_filter_next(s, no, i as int);
        }
        let ghost view = e@;
        if text::same(e.kind.as_str(), "client") {
            let ghost had = entry_views(client@);
            client.push(e);
            assert(entry_views(client@) =~= had.push(view));
        } else {
            let ghost had = entry_views(server@);
            server.push(e);
            assert(entry_views(server@) =~= had.push(view));
        }
    }
    assert(s.take(n as int) =~= s);
    InstalledList { client, server }
}

/// `r` holds the mods of the game folder, enabled, and those of the store, disabled.
pub open spec fn lists_trees(
    r: Result<InstalledList, String>,
    root_is_dir: bool,
    live: Listing,
    disabled: Listing,
    ms: Seq<ManifestView>,
) -> bool {
    match r {
        Ok(l) => root_is_dir && lists(l, entries(live, ms, true) + entries(disabled, ms, false)),
        Err(e) => !root_is_dir && e@ == "SPT root folder does not exist."@,
    }
}

/// All mods of the game folder, enabled and disabled.
pub fn list_installed(
    root_is_dir: bool,
    live: &Listing,
    disabled: &Listing,
    manifests: &[Manifest],
) -> (r: Result<InstalledList, String>)
    requires
        fits(*live),
        fits(*disabled),
    ensures
        lists_trees(r, root_is_dir, *live, *disabled, manifest::manifest_views(manifests@)),
{
    match paths::check_root(root_is_dir) {
        Ok(_) => {},
        Err(e) => return Err(e),
    }
    let mut all: Vec<ModEntry> = Vec::new();
    let ghost ms = manifest::manifest_views(manifests@);
    assert(entry_views(all@) =~= Seq::empty());
    scan_tree(live, manifests, true, &mut all);
    scan_tree(disabled, manifests, false, &mut all);
    assert(entry_views(all@) =~= entries(*live, ms, true) + entries(*disabled, ms, false));
    Ok(split_by_kind(arrange(all)))
}

proof fn lemma_precedes_transitive(a: Seq<char>, b: Seq<char>, c: Seq<char>)
    requires
        precedes(a, b),
        precedes(b, c),
    ensures
        precedes(a, c),
{
    let i = choose|i: int| precedes_at(a, b, i);
    let j = choose|j: int| precedes_at(b, c, j);
    let k = if i < j {
        i
    } else {
        j
    };
    assert(precedes_at(a, c, k));
}

proof fn lemma_precedes_one_way(a: Seq<char>, b: Seq<char>)
    requires
        precedes(a, b),
    ensures
        !precedes(b, a),
{
    let i = choose|i: int| precedes_at(a, b, i);
    assert forall|j: int| !precedes_at(b, a, j) by {}
}

proof fn lemma_precedes_total(a: Seq<char>, b: Seq<char>, n: int)
    requires
        0 <= n <= a.len(),
        n <= b.len(),
        forall|j: int| 0 <= j < n ==> a[j] == b[j],
    ensures
        a == b || precedes(a, b) || precedes(b, a),
    decreases a.len() - n,
{
    if n == a.len() {
        if n == b.len() {
            assert(a =~= b);
        } else {
            assert(precedes_at(a, b, n));
        }
    } else if n == b.len() {
        assert(precedes_at(b, a, n));
    } else if a[n] == b[n] {
        lemma_precedes_total(a, b, n + 1);
    } else if a[n] < b[n] {
        assert(precedes_at(a, b, n));
    } else {
        assert(precedes_at(b, a, n));
    }
}

/// No entry comes after one that it should come before.
pub open spec fn in_order(s: Seq<EntryView>) -> bool {
    forall|i: int, j: int|
        0 <= i < j < s.len() ==> !precedes(sort_key(#[trigger] s[j]), sort_key(#[trigger] s[i]))
}

proof fn lemma_inserted_in_order(s: Seq<EntryView>, e: EntryView)
    requires
        in_order(s),
    ensures
        in_order(inserted(s, e)),
        inserted(s, e).len() == s.len() + 1,
        forall|i: int|
            0 <= i < inserted(s, e).len() ==> #[trigger] inserted(s, e)[i] == e || s.contains(
                inserted(s, e)[i],
            ),
    decreases s.len(),
{
    let r = inserted(s, e);
    if s.len() > 0 && precedes(sort_key(e), sort_key(s.last())) {
        let before = s.drop_last();
        let inner = inserted(before, e);
        lemma_inserted_in_order(before, e);
        assert forall|i: int| 0 <= i < r.len() implies #[trigger] r[i] == e || s.contains(r[i]) by {
            if i < inner.len() {
                assert(inner[i] == r[i]);
                if inner[i] != e {
                    let k = choose|k: int| 0 <= k < before.len() && before[k] == inner[i];
                    assert(s[k] == r[i]);
                }
            } else {
                assert(s[s.len() - 1] == r[i]);
            }
        }
        assert forall|i: int, j: int| 0 <= i < j < r.len() implies !precedes(
            sort_key(#[trigger] r[j]),
            sort_key(#[trigger] r[i]),
        ) by {
            assert(inner[i] == r[i]);
            if j < inner.len() {
                assert(inner[j] == r[j]);
            } else if inner[i] == e {
                lemma_precedes_one_way(sort_key(e), sort_key(s.last()));
            } else {
                let k = choose|k: int| 0 <= k < before.len() && before[k] == inner[i];
                assert(s[k] == r[i] && s[s.len() - 1] == r[j]);
            }
        }
    } else {
        assert forall|i: int| 0 <= i < r.len() implies #[trigger] r[i] == e || s.contains(r[i]) by {
            if i < s.len() {
                assert(s[i] == r[i]);
            }
        }
        assert forall|i: int, j: int| 0 <= i < j < r.len() implies !precedes(
            sort_key(#[trigger] r[j]),
            sort_key(#[trigger] r[i]),
        ) by {
            assert(s[i] == r[i]);
            if j < s.len() {
                assert(s[j] == r[j]);
            } else if precedes(sort_key(e), sort_key(s[i])) {
                let last = s[s.len() - 1];
                if i < s.len() - 1 {
                    assert(!precedes(sort_key(last), sort_key(s[i])));
                    lemma_precedes_total(sort_key(last), sort_key(s[i]), 0);
                    if precedes(sort_key(s[i]), sort_key(last)) {
                        lemma_precedes_transitive(sort_key(e), sort_key(s[i]), sort_key(last));
                    }
                }
            }
        }
    }
}

/// The list of mods is in the order of their names.
pub proof fn law_list_is_in_order(s: Seq<EntryView>)
    ensures
        in_order(arranged(s)),
    decreases s.len(),
{
    if s.len() > 0 {
        law_list_is_in_order(s.drop_last());
        lemma_inserted_in_order(arranged(s.drop_last()), s.last());
    }
}

proof fn lemma_inserted_keeps_all(s: Seq<EntryView>, e: EntryView)
    ensures
        inserted(s, e).to_multiset() == s.to_multiset().insert(e),
    decreases s.len(),
{
    broadcast use vstd::seq_lib::group_to_multiset_ensures;

    if s.len() > 0 && precedes(sort_key(e), sort_key(s.last())) {
        lemma_inserted_keeps_all(s.drop_last(), e);
        assert(s =~= s.drop_last().push(s.last()));
        assert(s.to_multiset().insert(e) =~= s.drop_last().to_multiset().insert(e).insert(
            s.last(),
        ));
    }
}

/// Ordering the list neither loses nor repeats a mod.
pub proof fn law_list_is_complete(s: Seq<EntryView>)
    ensures
        arranged(s).to_multiset() == s.to_multiset(),
    decreases s.len(),
{
    broadcast use vstd::seq_lib::group_to_multiset_ensures;

    if s.len() > 0 {
        law_list_is_complete(s.drop_last());
        lemma_inserted_keeps_all(arranged(s.drop_last()), s.last());
        assert(s =~= s.drop_last().push(s.last()));
    } else {
        assert(s =~= Seq::empty());
    }
}

proof fn lemma_inserted_is_stable(s: Seq<EntryView>, e: EntryView, key: Seq<char>)
    ensures
        ({
            let keep = |x: EntryView| sort_key(x) == key;
            inserted(s, e).filter(keep) == s.push(e).filter(keep)
        }),
    decreases s.len(),
{
    let keep = |x: EntryView| sort_key(x) == key;
    if s.len() > 0 && precedes(sort_key(e), sort_key(s.last())) {
        let before = s.drop_last();
        lemma_inserted_is_stable(before, e, key);
        lemma_precedes_one_way(sort_key(e), sort_key(s.last()));
        assert(s =~= before.push(s.last()));
        inserted(before, e).lemma_filter_push(s.last(), keep);
        before.lemma_filter_push(e, keep);
        before.lemma_filter_push(s.last(), keep);
        s.lemma_filter_push(e, keep);
    }
}

/// Mods of the same name stay in the order in which they were found.
pub proof fn law_list_is_stable(s: Seq<EntryView>, key: Seq<char>)
    ensures
        arranged(s).filter(|x: EntryView| sort_key(x) == key) == s.filter(
            |x: EntryView| sort_key(x) == key,
        ),
    decreases s.len(),
{
    let keep = |x: EntryView| sort_key(x) == key;
    if s.len() > 0 {
        let before = s.drop_last();
        law_list_is_stable(before, key);
        lemma_inserted_is_stable(arranged(before), s.last(), key);
        arranged(before).lemma_filter_push(s.last(), keep);
        before.lemma_filter_push(s.last(), keep);
        assert(s =~= before.push(s.last()));
    } else {
        assert(s =~= Seq::empty());
    }
}

/// SPT's own client files are never listed as mods.
pub proof fn law_core_files_are_not_listed(
    nodes: Seq<Node>,
    sub: Seq<char>,
    ms: Seq<ManifestView>,
    enabled: bool,
)
    ensures
        forall|k: int|
            0 <= k < client_entries(nodes, sub, ms, enabled).len() ==> !core_client(
                (#[trigger] client_entries(nodes, sub, ms, enabled)[k]).name,
            ),
    decreases nodes.len(),
{
    if nodes.len() > 0 {
        law_core_files_are_not_listed(nodes.drop_last(), sub, ms, enabled);
        let before = client_entries(nodes.drop_last(), sub, ms, enabled);
        let all = client_entries(nodes, sub, ms, enabled);
        assert forall|k: int| 0 <= k < all.len() implies !core_client((#[trigger] all[k]).name) by {
            if k < before.len() {
                assert(all[k] == before[k]);
            }
        }
    }
}

/// Every mod in a client folder is listed, whether the manager installed it or not.
pub proof fn law_every_client_mod_is_listed(
    nodes: Seq<Node>,
    sub: Seq<char>,
    ms: Seq<ManifestView>,
    enabled: bool,
    i: int,
)
    requires
        0 <= i < nodes.len(),
        client_entry(nodes[i], sub, ms, enabled) is Some,
    ensures
        client_entries(nodes, sub, ms, enabled).contains(
            client_entry(nodes[i], sub, ms, enabled)->0,
        ),
    decreases nodes.len(),
{
    let e = client_entry(nodes[i], sub, ms, enabled)->0;
    let before = client_entries(nodes.drop_last(), sub, ms, enabled);
    let all = client_entries(nodes, sub, ms, enabled);
    if i < nodes.len() - 1 {
        law_every_client_mod_is_listed(nodes.drop_last(), sub, ms, enabled, i);
        let k = choose|k: int| 0 <= k < before.len() && before[k] == e;
        assert(all[k] == e);
    } else {
        assert(all[all.len() - 1] == e);
    }
}

/// Every folder in the folder of server mods is listed, whether the manager installed it or not.
pub proof fn law_every_server_mod_is_listed(
    nodes: Seq<ServerNode>,
    ms: Seq<ManifestView>,
    enabled: bool,
    i: int,
)
    requires
        0 <= i < nodes.len(),
        nodes[i].node is Folder,
    ensures
        server_entry(nodes[i], ms, enabled) matches Some(e) && server_entries(
            nodes,
            ms,
            enabled,
        ).contains(e),
    decreases nodes.len(),
{
    let e = server_entry(nodes[i], ms, enabled)->0;
    let before = server_entries(nodes.drop_last(), ms, enabled);
    let all = server_entries(nodes, ms, enabled);
    if i < nodes.len() - 1 {
        law_every_server_mod_is_listed(nodes.drop_last(), ms, enabled, i);
        let k = choose|k: int| 0 <= k < before.len() && before[k] == e;
        assert(all[k] == e);
    } else {
        assert(all[all.len() - 1] == e);
    }
}

} // verus!
