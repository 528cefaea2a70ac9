//! What the list of installed mods is for: what it holds, told from what is in the folders.
use crate::inventory;
use crate::inventory::{EntryView, InstalledList, Listing, ServerNode};
use crate::json;
use crate::manifest;
use crate::manifest::ManifestView;
use crate::names;
use crate::text;
use crate::tree;
use crate::tree::Node;
use crate::uninstall_laws;
use vstd::prelude::*;

verus! {

/// The name is hidden in the list of client mods: `spt`, or one that starts with `spt-` or `spt_`,
/// in any case.
pub open spec fn is_hidden(name: Seq<char>) -> bool {
    let low = text::lowercase(name);
    low == "spt"@ || "spt-"@.is_prefix_of(low) || "spt_"@.is_prefix_of(low)
}

/// What the manifests know of the mod at the entry's path goes into the entry: of the first
/// manifest that records it the Forge id and, where it has one, the version. Where none does, the
/// mod is external and has the version that its own files tell.
pub open spec fn knows_manifests(
    e: EntryView,
    ms: Seq<ManifestView>,
    own_version: Option<Seq<char>>,
) -> bool {
    if uninstall_laws::recorded(ms, e.rel_path) {
        exists|i: int|
            {
                &&& 0 <= i < ms.len()
                &&& #[trigger] uninstall_laws::records(ms[i], e.rel_path)
                &&& forall|j: int|
                    0 <= j < i ==> !#[trigger] uninstall_laws::records(ms[j], e.rel_path)
                &&& e.source == "app"@
                &&& e.forge_id == ms[i].forge_id
                &&& e.version == if ms[i].forge_version is Some {
                    ms[i].forge_version
                } else {
                    own_version
                }
            }
    } else {
        e.source == "external"@ && e.forge_id is None && e.version == own_version
    }
}

/// The entry shows a folder of a client folder.
pub open spec fn shows_client_folder(
    e: EntryView,
    name: Seq<char>,
    children: Seq<Node>,
    sub: Seq<char>,
    ms: Seq<ManifestView>,
    enabled: bool,
) -> bool {
    &&& e.name == name
    &&& e.kind == "client"@
    &&& e.rel_path == "BepInEx/"@ + sub + "/"@ + name
    &&& e.file_count == tree::count(children)
    &&& e.size_bytes == tree::size(children)
    &&& e.author is None
    &&& e.enabled == enabled
    &&& knows_manifests(e, ms, None)
}

/// The entry shows a library in a client folder.
pub open spec fn shows_library(
    e: EntryView,
    name: Seq<char>,
    shown: Seq<char>,
    size: nat,
    sub: Seq<char>,
    ms: Seq<ManifestView>,
    enabled: bool,
) -> bool {
    &&& e.name == shown
    &&& e.kind == "client"@
    &&& e.rel_path == "BepInEx/"@ + sub + "/"@ + name
    &&& e.file_count == 1
    &&& e.size_bytes == size
    &&& e.author is None
    &&& e.enabled == enabled
    &&& knows_manifests(e, ms, None)
}

/// The entry shows a folder of the folder of server mods, `told` being its package file.
pub open spec fn shows_server_folder(
    e: EntryView,
    name: Seq<char>,
    children: Seq<Node>,
    told: Option<Seq<char>>,
    ms: Seq<ManifestView>,
    enabled: bool,
) -> bool {
    let package = match told {
        Some(t) => match json::parsed(t) {
            Ok(j) => Some(j),
            Err(_) => None,
        },
        None => None,
    };
    let shown = match package {
        Some(j) => json::str_member(j, "name"@),
        None => None,
    };
    let version = match package {
        Some(j) => json::str_member(j, "version"@),
        None => None,
    };
    let author = match package {
        Some(j) => json::str_member(j, "author"@),
        None => None,
    };
    &&& e.name == if shown is Some {
        shown->0
    } else {
        name
    }
    &&& e.kind == "server"@
    &&& e.rel_path == "SPT/user/mods/"@ + name
    &&& e.file_count == tree::count(children)
    &&& e.size_bytes == tree::size(children)
    &&& e.author == author
    &&& e.enabled == enabled
    &&& knows_manifests(e, ms, version)
}

proof fn lemma_entry_knows(
    name: Seq<char>,
    kind: Seq<char>,
    rel: Seq<char>,
    file_count: nat,
    size_bytes: nat,
    own_version: Option<Seq<char>>,
    author: Option<Seq<char>>,
    ms: Seq<ManifestView>,
    enabled: bool,
)
    ensures
        ({
            let e = inventory::entry_of(
                name,
                kind,
                rel,
                file_count,
                size_bytes,
                own_version,
                author,
                ms,
                enabled,
            );
            knows_manifests(e, ms, own_version)
        }),
{
    manifest::lemma_first_owner(ms, rel);
    match manifest::first_owner(ms, rel) {
        Some(i) => {
            uninstall_laws::lemma_owns(ms[i], rel);
            assert(uninstall_laws::records(ms[i], rel));
            assert forall|j: int| 0 <= j < i implies !#[trigger] uninstall_laws::records(
                ms[j],
                rel,
            ) by {
                uninstall_laws::lemma_owns(ms[j], rel);
                assert(!manifest::owns(ms[j], rel));
            }
        },
        None => {
            if uninstall_laws::recorded(ms, rel) {
                let i = choose|i: int|
                    0 <= i < ms.len() && uninstall_laws::records(#[trigger] ms[i], rel);
                uninstall_laws::lemma_owns(ms[i], rel);
                assert(!manifest::owns(ms[i], rel));
            }
        },
    }
}

/// The entry is in the list, in the part for its kind.
pub open spec fn is_listed(l: InstalledList, e: EntryView) -> bool {
    if e.kind == "client"@ {
        inventory::entry_views(l.client@).contains(e)
    } else {
        inventory::entry_views(l.server@).contains(e)
    }
}

/// What a node of a client folder is listed as; nothing where it is no mod.
proof fn lemma_client_entry(
    node: Node,
    sub: Seq<char>,
    ms: Seq<ManifestView>,
    enabled: bool,
)
    ensures
        ({
            let e = inventory::client_entry(node, sub, ms, enabled);
            match node {
                Node::Folder { name, children } => if is_hidden(name@) {
                    e is None
                } else {
                    e is Some && shows_client_folder(e->0, name@, children@, sub, ms, enabled)
                },
                Node::File { name, exact, size } => {
                    let shown = if exact {
                        names::stem(name@)
                    } else {
                        name@
                    };
                    let known = if size is Some {
                        size->0 as nat
                    } else {
                        0
                    };
                    if inventory::is_library(name@) && !is_hidden(shown) {
                        e is Some && shows_library(e->0, name@, shown, known, sub, ms, enabled)
                    } else {
                        e is None
                    }
                },
            }
        }),
{
    match node {
        Node::Folder { name, children } => {
            lemma_entry_knows(
                name@,
                "client"@,
                "BepInEx/"@ + sub + "/"@ + name@,
                tree::count(children@),
                tree::size(children@),
                None,
                None,
                ms,
                enabled,
            );
        },
        Node::File { name, exact, size } => {
            let shown = if exact {
                names::stem(name@)
            } else {
                name@
            };
            lemma_entry_knows(
                shown,
                "client"@,
                "BepInEx/"@ + sub + "/"@ + name@,
                1,
                match size {
                    Some(n) => n as nat,
                    None => 0,
                },
                None,
                None,
                ms,
                enabled,
            );
        },
    }
}

proof fn lemma_server_entry(n: ServerNode, ms: Seq<ManifestView>, enabled: bool)
    ensures
        ({
            let e = inventory::server_entry(n, ms, enabled);
            match n.node {
                Node::Folder { name, children } => e is Some && shows_server_folder(
                    e->0,
                    name@,
                    children@,
                    text::text_opt(n.package),
                    ms,
                    enabled,
                ),
                Node::File { .. } => e is None,
            }
        }),
{
    if let Node::Folder { name, children } = n.node {
        let package = inventory::package_of(text::text_opt(n.package));
        lemma_entry_knows(
            match package.0 {
                Some(told) => told,
                None => name@,
            },
            "server"@,
            "SPT/user/mods/"@ + name@,
            tree::count(children@),
            tree::size(children@),
            package.1,
            package.2,
            ms,
            enabled,
        );
    }
}

/// What is found by the scans is what the list holds.
proof fn lemma_listed(l: InstalledList, all: Seq<EntryView>, e: EntryView)
    requires
        inventory::lists(l, all),
    ensures
        all.contains(e) <==> is_listed(l, e) ,
        inventory::entry_views(l.client@).contains(e) ==> e.kind == "client"@,
        inventory::entry_views(l.server@).contains(e) ==> e.kind != "client"@,
{
    broadcast use vstd::seq_lib::group_to_multiset_ensures;

    let yes = |x: EntryView| inventory::is_client(x);
    let no = |x: EntryView| !inventory::is_client(x);
    let s = inventory::arranged(all);
    inventory::law_list_is_complete(all);
    assert(s.to_multiset().count(e) == all.to_multiset().count(e));
    assert(s.contains(e) <==> s.to_multiset().count(e) > 0);
    assert(all.contains(e) <==> all.to_multiset().count(e) > 0);
    if s.contains(e) {
        let i = choose|i: int| 0 <= i < s.len() && s[i] == e;
        if yes(e) {
            s.lemma_filter_contains(yes, i);
        } else {
            s.lemma_filter_contains(no, i);
        }
    }
    if s.filter(yes).contains(e) {
        let i = choose|i: int| 0 <= i < s.filter(yes).len() && s.filter(yes)[i] == e;
        s.lemma_filter_pred(yes, i);
        s.lemma_filter_contains_rev(yes, e);
    }
    if s.filter(no).contains(e) {
        let i = choose|i: int| 0 <= i < s.filter(no).len() && s.filter(no)[i] == e;
        s.lemma_filter_pred(no, i);
        s.lemma_filter_contains_rev(no, e);
    }
}

proof fn lemma_client_entries_from(
    nodes: Seq<Node>,
    sub: Seq<char>,
    ms: Seq<ManifestView>,
    enabled: bool,
    e: EntryView,
)
    requires
        inventory::client_entries(nodes, sub, ms, enabled).contains(e),
    ensures
        exists|i: int|
            0 <= i < nodes.len() && #[trigger] inventory::client_entry(nodes[i], sub, ms, enabled)
                == Some(e),
    decreases nodes.len(),
{
    let all = inventory::client_entries(nodes, sub, ms, enabled);
    let k = choose|k: int| 0 <= k < all.len() && all[k] == e;
    if nodes.len() > 0 {
        let before = inventory::client_entries(nodes.drop_last(), sub, ms, enabled);
        if k < before.len() {
            assert(before[k] == e);
            lemma_client_entries_from(nodes.drop_last(), sub, ms, enabled, e);
            let i = choose|i: int|
                0 <= i < nodes.len() - 1 && #[trigger] inventory::client_entry(
                    nodes.drop_last()[i],
                    sub,
                    ms,
                    enabled,
                ) == Some(e);
            assert(inventory::client_entry(nodes[i], sub, ms, enabled) == Some(e));
        } else {
            assert(inventory::client_entry(nodes[nodes.len() - 1], sub, ms, enabled) == Some(e));
        }
    }
}

proof fn lemma_server_entries_from(
    nodes: Seq<ServerNode>,
    ms: Seq<ManifestView>,
    enabled: bool,
    e: EntryView,
)
    requires
        inventory::server_entries(nodes, ms, enabled).contains(e),
    ensures
        exists|i: int|
            0 <= i < nodes.len() && #[trigger] inventory::server_entry(nodes[i], ms, enabled)
                == Some(e),
    decreases nodes.len(),
{
    let all = inventory::server_entries(nodes, ms, enabled);
    let k = choose|k: int| 0 <= k < all.len() && all[k] == e;
    if nodes.len() > 0 {
        let before = inventory::server_entries(nodes.drop_last(), ms, enabled);
        if k < before.len() {
            assert(before[k] == e);
            lemma_server_entries_from(nodes.drop_last(), ms, enabled, e);
            let i = choose|i: int|
                0 <= i < nodes.len() - 1 && #[trigger] inventory::server_entry(
                    nodes.drop_last()[i],
                    ms,
                    enabled,
                ) == Some(e);
            assert(inventory::server_entry(nodes[i], ms, enabled) == Some(e));
        } else {
            assert(inventory::server_entry(nodes[nodes.len() - 1], ms, enabled) == Some(e));
        }
    }
}

/// The node of a client folder is what the entry shows.
pub open spec fn stems_from(
    e: EntryView,
    node: Node,
    sub: Seq<char>,
    ms: Seq<ManifestView>,
    enabled: bool,
) -> bool {
    match node {
        Node::Folder { name, children } => !is_hidden(name@) && shows_client_folder(
            e,
            name@,
            children@,
            sub,
            ms,
            enabled,
        ),
        Node::File { name, exact, size } => {
            let shown = if exact {
                names::stem(name@)
            } else {
                name@
            };
            inventory::is_library(name@) && !is_hidden(shown) && shows_library(
                e,
                name@,
                shown,
                if size is Some {
                    size->0 as nat
                } else {
                    0
                },
                sub,
                ms,
                enabled,
            )
        },
    }
}

/// The entry shows something of the tree: a folder or a library of one of the client folders, or a
/// folder of the folder of server mods.
pub open spec fn is_in_tree(
    e: EntryView,
    l: Listing,
    ms: Seq<ManifestView>,
    enabled: bool,
) -> bool {
    ||| exists|i: int|
        0 <= i < l.plugins@.len() && stems_from(
            e,
            #[trigger] l.plugins@[i],
            "plugins"@,
            ms,
            enabled,
        )
    ||| exists|i: int|
        0 <= i < l.patchers@.len() && stems_from(
            e,
            #[trigger] l.patchers@[i],
            "patchers"@,
            ms,
            enabled,
        )
    ||| exists|i: int|
        0 <= i < l.mods@.len() && ((#[trigger] l.mods@[i]).node matches Node::Folder {
            name,
            children,
        } && shows_server_folder(
            e,
            name@,
            children@,
            text::text_opt(l.mods@[i].package),
            ms,
            enabled,
        ))
}

proof fn lemma_entries_from(l: Listing, ms: Seq<ManifestView>, enabled: bool, e: EntryView)
    requires
        inventory::entries(l, ms, enabled).contains(e),
    ensures
        is_in_tree(e, l, ms, enabled),
{
    let a = inventory::client_entries(l.plugins@, "plugins"@, ms, enabled);
    let b = inventory::client_entries(l.patchers@, "patchers"@, ms, enabled);
    let c = inventory::server_entries(l.mods@, ms, enabled);
    let k = choose|k: int| 0 <= k < (a + b + c).len() && (a + b + c)[k] == e;
    if k < a.len() {
        assert(a[k] == e);
        lemma_client_entries_from(l.plugins@, "plugins"@, ms, enabled, e);
        let i = choose|i: int|
            0 <= i < l.plugins@.len() && #[trigger] inventory::client_entry(
                l.plugins@[i],
                "plugins"@,
                ms,
                enabled,
            ) == Some(e);
        lemma_client_entry(l.plugins@[i], "plugins"@, ms, enabled);
        assert(stems_from(e, l.plugins@[i], "plugins"@, ms, enabled));
    } else if k < a.len() + b.len() {
        assert(b[k - a.len()] == e);
        lemma_client_entries_from(l.patchers@, "patchers"@, ms, enabled, e);
        let i = choose|i: int|
            0 <= i < l.patchers@.len() && #[trigger] inventory::client_entry(
                l.patchers@[i],
                "patchers"@,
                ms,
                enabled,
            ) == Some(e);
        lemma_client_entry(l.patchers@[i], "patchers"@, ms, enabled);
        assert(stems_from(e, l.patchers@[i], "patchers"@, ms, enabled));
    } else {
        assert(c[k - a.len() - b.len()] == e);
        lemma_server_entries_from(l.mods@, ms, enabled, e);
        let i = choose|i: int|
            0 <= i < l.mods@.len() && #[trigger] inventory::server_entry(l.mods@[i], ms, enabled)
                == Some(e);
        lemma_server_entry(l.mods@[i], ms, enabled);
        assert(l.mods@[i].node is Folder);
    }
}

/// Nothing is made up: every entry of the list, of either kind, shows something that is there. One
/// that is marked as enabled shows something in the game folder, and one that is not something in
/// the store of disabled mods.
pub proof fn law_entries_show_what_is_there(
    r: Result<InstalledList, String>,
    live: Listing,
    disabled: Listing,
    ms: Seq<ManifestView>,
    e: EntryView,
)
    requires
        inventory::lists_trees(r, true, live, disabled, ms),
    ensures
        r matches Ok(l) && (inventory::entry_views(l.client@).contains(e)
            || inventory::entry_views(l.server@).contains(e) ==> if e.enabled {
            is_in_tree(e, live, ms, true)
        } else {
            is_in_tree(e, disabled, ms, false)
        }),
{
    let x = inventory::entries(live, ms, true);
    let y = inventory::entries(disabled, ms, false);
    if let Ok(l) = r {
        lemma_listed(l, x + y, e);
        if inventory::entry_views(l.client@).contains(e) || inventory::entry_views(
            l.server@,
        ).contains(e) {
            let k = choose|k: int| 0 <= k < (x + y).len() && (x + y)[k] == e;
            if k < x.len() {
                assert(x[k] == e);
                lemma_entries_from(live, ms, true, e);
            } else {
                assert(y[k - x.len()] == e);
                lemma_entries_from(disabled, ms, false, e);
            }
        }
    }
}

/// The client mod at index `i` of a client folder is in what a scan of the tree gives.
proof fn lemma_client_found(
    l: Listing,
    ms: Seq<ManifestView>,
    enabled: bool,
    patcher: bool,
    i: int,
)
    requires
        if patcher {
            0 <= i < l.patchers@.len() && inventory::client_entry(
                l.patchers@[i],
                "patchers"@,
                ms,
                enabled,
            ) is Some
        } else {
            0 <= i < l.plugins@.len() && inventory::client_entry(
                l.plugins@[i],
                "plugins"@,
                ms,
                enabled,
            ) is Some
        },
    ensures
        inventory::entries(l, ms, enabled).contains(
            if patcher {
                inventory::client_entry(l.patchers@[i], "patchers"@, ms, enabled)->0
            } else {
                inventory::client_entry(l.plugins@[i], "plugins"@, ms, enabled)->0
            },
        ),
{
    let a = inventory::client_entries(l.plugins@, "plugins"@, ms, enabled);
    let b = inventory::client_entries(l.patchers@, "patchers"@, ms, enabled);
    let c = inventory::server_entries(l.mods@, ms, enabled);
    if patcher {
        let e = inventory::client_entry(l.patchers@[i], "patchers"@, ms, enabled)->0;
        inventory::law_every_client_mod_is_listed(l.patchers@, "patchers"@, ms, enabled, i);
        let k = choose|k: int| 0 <= k < b.len() && b[k] == e;
        assert((a + b + c)[a.len() + k] == e);
    } else {
        let e = inventory::client_entry(l.plugins@[i], "plugins"@, ms, enabled)->0;
        inventory::law_every_client_mod_is_listed(l.plugins@, "plugins"@, ms, enabled, i);
        let k = choose|k: int| 0 <= k < a.len() && a[k] == e;
        assert((a + b + c)[k] == e);
    }
}

/// Every client mod is listed, enabled where it is in the game folder and disabled where it is in
/// the store: of the plugins and the patchers every folder and every library that is not one of
/// SPT's own.
pub proof fn law_client_mods_are_listed(
    r: Result<InstalledList, String>,
    live: Listing,
    disabled: Listing,
    ms: Seq<ManifestView>,
    enabled: bool,
    patcher: bool,
    i: int,
)
    requires
        inventory::lists_trees(r, true, live, disabled, ms),
        ({
            let tree = if enabled {
                live
            } else {
                disabled
            };
            let nodes = if patcher {
                tree.patchers@
            } else {
                tree.plugins@
            };
            &&& 0 <= i < nodes.len()
            &&& match nodes[i] {
                Node::Folder { name, .. } => !is_hidden(name@),
                Node::File { name, exact, .. } => inventory::is_library(name@) && !is_hidden(
                    if exact {
                        names::stem(name@)
                    } else {
                        name@
                    },
                ),
            }
        }),
    ensures
        r matches Ok(l) && exists|e: EntryView|
            {
                let tree = if enabled {
                    live
                } else {
                    disabled
                };
                &&& #[trigger] inventory::entry_views(l.client@).contains(e)
                &&& if patcher {
                    stems_from(e, tree.patchers@[i], "patchers"@, ms, enabled)
                } else {
                    stems_from(e, tree.plugins@[i], "plugins"@, ms, enabled)
                }
            },
{
    let tree = if enabled {
        live
    } else {
        disabled
    };
    let x = inventory::entries(live, ms, true);
    let y = inventory::entries(disabled, ms, false);
    let (node, sub) = if patcher {
        (tree.patchers@[i], "patchers"@)
    } else {
        (tree.plugins@[i], "plugins"@)
    };
    lemma_client_entry(node, sub, ms, enabled);
    lemma_client_found(tree, ms, enabled, patcher, i);
    let e = inventory::client_entry(node, sub, ms, enabled)->0;
    if enabled {
        let k = choose|k: int| 0 <= k < x.len() && x[k] == e;
        assert((x + y)[k] == e);
    } else {
        let k = choose|k: int| 0 <= k < y.len() && y[k] == e;
        assert((x + y)[x.len() + k] == e);
    }
    if let Ok(l) = r {
        lemma_listed(l, x + y, e);
        assert(inventory::entry_views(l.client@).contains(e));
        assert(stems_from(e, node, sub, ms, enabled));
    }
}

/// Every server mod is listed, enabled where it is in the game folder and disabled where it is in
/// the store: every folder of the folder of server mods, with the name, version and author that
/// its package file tells.
pub proof fn law_server_mods_are_listed(
    r: Result<InstalledList, String>,
    live: Listing,
    disabled: Listing,
    ms: Seq<ManifestView>,
    enabled: bool,
    i: int,
)
    requires
        inventory::lists_trees(r, true, live, disabled, ms),
        ({
            let tree = if enabled {
                live
            } else {
                disabled
            };
            0 <= i < tree.mods@.len() && tree.mods@[i].node is Folder
        }),
    ensures
        r matches Ok(l) && exists|e: EntryView|
            {
                let tree = if enabled {
                    live
                } else {
                    disabled
                };
                &&& #[trigger] inventory::entry_views(l.server@).contains(e)
                &&& tree.mods@[i].node matches Node::Folder { name, children }
                    && shows_server_folder(
                    e,
                    name@,
                    children@,
                    text::text_opt(tree.mods@[i].package),
                    ms,
                    enabled,
                )
            },
{
    let tree = if enabled {
        live
    } else {
        disabled
    };
    let x = inventory::entries(live, ms, true);
    let y = inventory::entries(disabled, ms, false);
    reveal_strlit("client");
    reveal_strlit("server");
    assert("client"@[0] != "server"@[0]);
    lemma_server_entry(tree.mods@[i], ms, enabled);
    inventory::law_every_server_mod_is_listed(tree.mods@, ms, enabled, i);
    let e = inventory::server_entry(tree.mods@[i], ms, enabled)->0;
    let a = inventory::client_entries(tree.plugins@, "plugins"@, ms, enabled);
    let b = inventory::client_entries(tree.patchers@, "patchers"@, ms, enabled);
    let c = inventory::server_entries(tree.mods@, ms, enabled);
    let m = choose|m: int| 0 <= m < c.len() && c[m] == e;
    assert((a + b + c)[a.len() + b.len() + m] == e);
    if enabled {
        let k = choose|k: int| 0 <= k < x.len() && x[k] == e;
        assert((x + y)[k] == e);
    } else {
        let k = choose|k: int| 0 <= k < y.len() && y[k] == e;
        assert((x + y)[x.len() + k] == e);
    }
    if let Ok(l) = r {
        lemma_listed(l, x + y, e);
        assert(inventory::entry_views(l.server@).contains(e));
    }
}

/// How many mods a client folder holds.
pub open spec fn client_mods(nodes: Seq<Node>) -> nat
    decreases nodes.len(),
{
    if nodes.len() == 0 {
        0
    } else {
        let more: nat = match nodes.last() {
            Node::Folder { name, .. } => if is_hidden(name@) {
                0
            } else {
                1
            },
            Node::File { name, exact, .. } => if inventory::is_library(name@) && !is_hidden(
                if exact {
                    names::stem(name@)
                } else {
                    name@
                },
            ) {
                1
            } else {
                0
            },
        };
        client_mods(nodes.drop_last()) + more
    }
}

/// How many mods the folder of server mods holds.
pub open spec fn server_mods(nodes: Seq<ServerNode>) -> nat
    decreases nodes.len(),
{
    if nodes.len() == 0 {
        0
    } else {
        server_mods(nodes.drop_last()) + if nodes.last().node is Folder {
            1nat
        } else {
            0
        }
    }
}

proof fn lemma_client_count(
    nodes: Seq<Node>,
    sub: Seq<char>,
    ms: Seq<ManifestView>,
    enabled: bool,
)
    ensures
        inventory::client_entries(nodes, sub, ms, enabled).len() == client_mods(nodes),
        forall|k: int|
            0 <= k < inventory::client_entries(nodes, sub, ms, enabled).len() ==> (
            #[trigger] inventory::client_entries(nodes, sub, ms, enabled)[k]).kind == "client"@,
    decreases nodes.len(),
{
    if nodes.len() > 0 {
        lemma_client_count(nodes.drop_last(), sub, ms, enabled);
        lemma_client_entry(nodes.last(), sub, ms, enabled);
        let before = inventory::client_entries(nodes.drop_last(), sub, ms, enabled);
        let all = inventory::client_entries(nodes, sub, ms, enabled);
        assert forall|k: int| 0 <= k < all.len() implies (#[trigger] all[k]).kind == "client"@ by {
            if k < before.len() {
                assert(all[k] == before[k]);
            }
        }
    }
}

proof fn lemma_server_count(nodes: Seq<ServerNode>, ms: Seq<ManifestView>, enabled: bool)
    ensures
        inventory::server_entries(nodes, ms, enabled).len() == server_mods(nodes),
        forall|k: int|
            0 <= k < inventory::server_entries(nodes, ms, enabled).len() ==> (
            #[trigger] inventory::server_entries(nodes, ms, enabled)[k]).kind == "server"@,
    decreases nodes.len(),
{
    if nodes.len() > 0 {
        lemma_server_count(nodes.drop_last(), ms, enabled);
        lemma_server_entry(nodes.last(), ms, enabled);
        let before = inventory::server_entries(nodes.drop_last(), ms, enabled);
        let all = inventory::server_entries(nodes, ms, enabled);
        assert forall|k: int| 0 <= k < all.len() implies (#[trigger] all[k]).kind == "server"@ by {
            if k < before.len() {
                assert(all[k] == before[k]);
            }
        }
    }
}

/// Every mod is listed once: the list is as long as there are mods in the two trees.
pub proof fn law_every_mod_is_listed_once(
    r: Result<InstalledList, String>,
    live: Listing,
    disabled: Listing,
    ms: Seq<ManifestView>,
)
    requires
        inventory::lists_trees(r, true, live, disabled, ms),
    ensures
        r matches Ok(l) && l.client@.len() + l.server@.len() == client_mods(live.plugins@)
            + client_mods(live.patchers@) + server_mods(live.mods@) + client_mods(disabled.plugins@)
            + client_mods(disabled.patchers@) + server_mods(disabled.mods@),
{
    broadcast use vstd::seq_lib::group_to_multiset_ensures;

    lemma_client_count(live.plugins@, "plugins"@, ms, true);
    lemma_client_count(live.patchers@, "patchers"@, ms, true);
    lemma_server_count(live.mods@, ms, true);
    lemma_client_count(disabled.plugins@, "plugins"@, ms, false);
    lemma_client_count(disabled.patchers@, "patchers"@, ms, false);
    lemma_server_count(disabled.mods@, ms, false);
    let all = inventory::entries(live, ms, true) + inventory::entries(disabled, ms, false);
    inventory::law_list_is_complete(all);
    let s = inventory::arranged(all);
    assert(s.to_multiset().len() == s.len());
    assert(all.to_multiset().len() == all.len());
    if let Ok(l) = r {
        lemma_filters_share(s);
        assert(inventory::entry_views(l.client@).len() == l.client@.len());
        assert(inventory::entry_views(l.server@).len() == l.server@.len());
    }
}

proof fn lemma_filters_share(s: Seq<EntryView>)
    ensures
        s.filter(|e: EntryView| inventory::is_client(e)).len() + s.filter(
            |e: EntryView| !inventory::is_client(e),
        ).len() == s.len(),
    decreases s.len(),
{
    reveal(Seq::filter);
    if s.len() > 0 {
        lemma_filters_share(s.drop_last());
    }
}

/// Both parts of the list are in the order of the names, whatever their case.
pub proof fn law_list_goes_by_name(
    r: Result<InstalledList, String>,
    live: Listing,
    disabled: Listing,
    ms: Seq<ManifestView>,
    i: int,
    j: int,
)
    requires
        inventory::lists_trees(r, true, live, disabled, ms),
    ensures
        r matches Ok(l) && {
            &&& 0 <= i < j < l.client@.len() ==> !inventory::precedes(
                text::lowercase(l.client@[j].name@),
                text::lowercase(l.client@[i].name@),
            )
            &&& 0 <= i < j < l.server@.len() ==> !inventory::precedes(
                text::lowercase(l.server@[j].name@),
                text::lowercase(l.server@[i].name@),
            )
        },
{
    let all = inventory::entries(live, ms, true) + inventory::entries(disabled, ms, false);
    let s = inventory::arranged(all);
    inventory::law_list_is_in_order(all);
    if let Ok(l) = r {
        let yes = |e: EntryView| inventory::is_client(e);
        let no = |e: EntryView| !inventory::is_client(e);
        lemma_filter_in_order(s, yes);
        lemma_filter_in_order(s, no);
        let c = inventory::entry_views(l.client@);
        let v = inventory::entry_views(l.server@);
        assert(c.len() == l.client@.len() && v.len() == l.server@.len());
        if 0 <= i < j < l.client@.len() {
            assert(c[i] == l.client@[i]@ && c[j] == l.client@[j]@);
        }
        if 0 <= i < j < l.server@.len() {
            assert(v[i] == l.server@[i]@ && v[j] == l.server@[j]@);
        }
    }
}

proof fn lemma_filter_in_order(s: Seq<EntryView>, keep: spec_fn(EntryView) -> bool)
    requires
        inventory::in_order(s),
    ensures
        inventory::in_order(s.filter(keep)),
    decreases s.len(),
{
    reveal(Seq::filter);
    if s.len() > 0 {
        let before = s.drop_last();
        assert forall|i: int, j: int| 0 <= i < j < before.len() implies !inventory::precedes(
            inventory::sort_key(#[trigger] before[j]),
            inventory::sort_key(#[trigger] before[i]),
        ) by {
            assert(before[i] == s[i] && before[j] == s[j]);
        }
        lemma_filter_in_order(before, keep);
        let f0 = before.filter(keep);
        let f = s.filter(keep);
        assert forall|i: int, j: int| 0 <= i < j < f.len() implies !inventory::precedes(
            inventory::sort_key(#[trigger] f[j]),
            inventory::sort_key(#[trigger] f[i]),
        ) by {
            assert(f[i] == f0[i]);
            if j < f0.len() {
                assert(f[j] == f0[j]);
            } else {
                before.lemma_filter_contains_rev(keep, f0[i]);
                let a = choose|a: int| 0 <= a < before.len() && before[a] == f0[i];
                assert(s[a] == f[i] && s[s.len() - 1] == f[j]);
            }
        }
    }
}

/// A library is a file with a name before its last dot and `dll`, in any case, behind it.
pub proof fn law_libraries_end_with_dll(base: Seq<char>, ext: Seq<char>)
    requires
        base.len() > 0,
        !ext.contains('.'),
        base + "."@ + ext != ".."@,
    ensures
        inventory::is_library(base + "."@ + ext) <==> text::ascii_lowercase(ext) == "dll"@,
        !inventory::is_library(ext),
        !inventory::is_library("."@ + ext),
{
    names::law_last_dot_parts_a_name(base, ext);
    reveal_strlit("dll");
    assert(text::ascii_lowercase("dll"@) =~= "dll"@);
}

/// Listings add up in the number and the size of their files.
pub proof fn law_listings_add_up(nodes: Seq<Node>, more: Seq<Node>)
    ensures
        tree::count(nodes + more) == tree::count(nodes) + tree::count(more),
        tree::size(nodes + more) == tree::size(nodes) + tree::size(more),
    decreases more.len(),
{
    if more.len() > 0 {
        assert((nodes + more).drop_last() =~= nodes + more.drop_last());
        law_listings_add_up(nodes, more.drop_last());
    } else {
        assert(nodes + more =~= nodes);
    }
}

/// A folder counts as what is in it, at any depth, and a file as one file of its size, which is
/// nothing where it is not known.
pub proof fn law_folders_count_what_is_in_them(n: Node)
    ensures
        match n {
            Node::Folder { children, .. } => tree::count(seq![n]) == tree::count(children@)
                && tree::size(seq![n]) == tree::size(children@),
            Node::File { size, .. } => tree::count(seq![n]) == 1 && tree::size(seq![n]) == if size
                is Some {
                size->0 as nat
            } else {
                0
            },
        },
{
    let nodes = seq![n];
    assert(nodes.drop_last() =~= Seq::empty());
    assert(tree::count(nodes.drop_last()) == 0);
    assert(tree::size(nodes.drop_last()) == 0);
    assert(nodes.last() == n);
    assert(tree::count_in(nodes.last()) == tree::count_in(n));
    assert(tree::size_of(nodes.last()) == tree::size_of(n));
}

/// The paths of the files in a listing: those in a folder have its name and a slash in front, and
/// every path has forward slashes alone.
pub proof fn law_paths_lead_to_the_files(nodes: Seq<Node>, n: Node, prefix: Seq<char>)
    ensures
        tree::walk(nodes.push(n), prefix) == tree::walk(nodes, prefix) + match n {
            Node::File { name, .. } => seq![text::slashed(prefix + name@)],
            Node::Folder { name, children } => tree::walk(children@, prefix + name@ + "/"@),
        },
{
    let all = nodes.push(n);
    assert(all.drop_last() =~= nodes);
    assert(all.last() == n);
    assert(tree::walk_in(all.last(), prefix) == tree::walk_in(n, prefix));
}

} // verus!
