//! Enabling and disabling a mod: its files are moved to the store of disabled mods and back.
use crate::manifest;
use crate::manifest::{Manifest, ManifestView};
use crate::paths;
use crate::text;
use crate::text::Separator;
use vstd::prelude::*;

verus! {

/// The topmost folder or file of the mod that an installed path belongs to.
pub open spec fn container(path: Seq<char>) -> Seq<char> {
    let ps = text::pieces(path, Separator::Slash);
    if ps.len() >= 3 && ps[0] == "BepInEx"@ {
        ps[0] + "/"@ + ps[1] + "/"@ + ps[2]
    } else if ps.len() >= 4 && "SPT/user/mods/"@.is_prefix_of(path) {
        "SPT/user/mods/"@ + ps[3]
    } else if ps.len() > 0 {
        ps[0]
    } else {
        path
    }
}

pub fn mod_container(path: &str) -> (r: String)
    ensures
        r@ == container(path@),
{
    let ps = text::pieces_of(path, Separator::Slash);
    let ghost cs = text::texts(ps@);
    assert(cs.len() == ps@.len());
    if ps.len() >= 3 && text::same(ps[0].as_str(), "BepInEx") {
        let mut r = ps[0].clone();
        r.append("/");
        r.append(ps[1].as_str());
        r.append("/");
        r.append(ps[2].as_str());
        assert(cs[0] == ps@[0]@ && cs[1] == ps@[1]@ && cs[2] == ps@[2]@);
        r
    } else if ps.len() >= 4 && text::starts_with(path, "SPT/user/mods/") {
        assert(cs[0] == ps@[0]@ && cs[3] == ps@[3]@);
        text::concat("SPT/user/mods/", ps[3].as_str())
    } else if ps.len() > 0 {
        assert(cs[0] == ps@[0]@);
        ps[0].clone()
    } else {
        text::owned(path)
    }
}

/// The containers of the files, each once.
pub open spec fn containers_of(files: Seq<Seq<char>>) -> Seq<Seq<char>> {
    text::distinct(files.map_values(|f: Seq<char>| container(f)))
}

/// Everything that is moved for the mod at `rel`: what its manifest holds, or, where there is none,
/// the container of the path alone.
pub open spec fn toggled(ms: Seq<ManifestView>, rel: Seq<char>) -> Seq<Seq<char>> {
    let owned = match manifest::first_owner(ms, rel) {
        Some(i) => containers_of(ms[i].files),
        None => Seq::<Seq<char>>::empty(),
    };
    if owned.len() > 0 {
        owned
    } else {
        seq![container(rel)]
    }
}

fn containers(files: &[String]) -> (r: Vec<String>)
    ensures
        text::texts(r@) == containers_of(text::texts(files@)),
{
    let ghost cs = text::texts(files@).map_values(|f: Seq<char>| container(f));
    let mut r: Vec<String> = Vec::new();
    assert(text::texts(r@) =~= text::distinct(cs.take(0)));
    for i in 0..files.len()
        invariant
            cs == text::texts(files@).map_values(|f: Seq<char>| container(f)),
            text::texts(r@) == text::distinct(cs.take(i as int)),
    {
        assert(cs.take(i + 1).drop_last() =~= cs.take(i as int));
        let c = mod_container(files[i].as_str());
        text::push_new(&mut r, c.as_str());
    }
    assert(cs.take(cs.len() as int) =~= cs);
    r
}

/// The reason for which a request is refused before anything on disk is looked at.
pub open spec fn refusal(root_is_dir: bool, rel: Seq<char>) -> Option<Seq<char>> {
    if !root_is_dir {
        Some("SPT root folder does not exist."@)
    } else if !paths::names_mod(rel) {
        Some("Invalid mod path."@)
    } else {
        None
    }
}

/// Whether the mod at the path may be moved, as far as the path itself tells.
pub fn check_toggle(root_is_dir: bool, rel_path: &str) -> (r: Result<(), String>)
    ensures
        match r {
            Ok(_) => refusal(root_is_dir, rel_path@) is None,
            Err(e) => refusal(root_is_dir, rel_path@) == Some(e@),
        },
{
    match paths::check_root(root_is_dir) {
        Ok(_) => {},
        Err(e) => return Err(e),
    }
    paths::check_mod_path(rel_path)
}

/// `r` is what is moved for the mod at `rel`, or why nothing is.
pub open spec fn toggles(
    r: Result<Vec<String>, String>,
    root_is_dir: bool,
    rel: Seq<char>,
    ms: Seq<ManifestView>,
) -> bool {
    match r {
        Ok(v) => refusal(root_is_dir, rel) is None && text::texts(v@) == toggled(ms, rel),
        Err(e) => refusal(root_is_dir, rel) == Some(e@),
    }
}

/// The folders and files to move in order to enable or disable the mod at `rel_path`.
pub fn toggle_mod(root_is_dir: bool, rel_path: &str, manifests: &[Manifest]) -> (r: Result<
    Vec<String>,
    String,
>)
    ensures
        toggles(r, root_is_dir, rel_path@, manifest::manifest_views(manifests@)),
{
    match check_toggle(root_is_dir, rel_path) {
        Ok(_) => {},
        Err(e) => return Err(e),
    }
    let mut r: Vec<String> = match manifest::manifest_for(manifests, rel_path) {
        Some(m) => containers(m.files.as_slice()),
        None => Vec::new(),
    };
    assert(text::texts(r@).len() == r@.len());
    if r.len() == 0 {
        r.push(mod_container(rel_path));
        assert(text::texts(r@) =~= seq![container(rel_path@)]);
    }
    Ok(r)
}

/// One of the two places of a container: in the game folder or in the store.
#[derive(Clone, Copy, PartialEq, Eq, Structural)]
pub struct Place {
    /// The place, joined to the game root, stays in the game folder.
    pub inside: bool,
    /// There is something at it.
    pub exists: bool,
}

/// A move from one path to another, both relative to the game root.
pub struct Move {
    pub from: String,
    pub to: String,
}

/// Where a container is moved from and to; nothing where it is not moved.
pub open spec fn moved(c: Seq<char>, enable: bool, live: Place, stored: Place) -> Option<
    (Seq<char>, Seq<char>),
> {
    if text::occurs(c, ".."@) || !live.inside || !stored.inside {
        None
    } else if enable {
        if stored.exists {
            Some((paths::in_store(c), c))
        } else {
            None
        }
    } else if live.exists {
        Some((c, paths::in_store(c)))
    } else {
        None
    }
}

/// The move that enables or disables a container; none where it is in the requested state already.
pub fn move_container(container: &str, enable: bool, live: Place, stored: Place) -> (r: Option<Move>)
    ensures
        match r {
            Some(m) => moved(container@, enable, live, stored) == Some((m.from@, m.to@)),
            None => moved(container@, enable, live, stored) is None,
        },
{
    if text::contains(container, "..") || !live.inside || !stored.inside {
        return None;
    }
    let here = text::owned(container);
    let there = paths::stored_path(container);
    if enable {
        if stored.exists {
            Some(Move { from: there, to: here })
        } else {
            None
        }
    } else if live.exists {
        Some(Move { from: here, to: there })
    } else {
        None
    }
}

/// `r` tells whether anything was moved.
pub open spec fn tells_moves(r: Result<(), String>, done: Seq<bool>) -> bool {
    match r {
        Ok(_) => done.contains(true),
        Err(e) => !done.contains(true) && e@ == "That mod's files were not found where expected."@,
    }
}

/// What is told once the containers have been moved or not: an error where none was.
pub fn toggle_result(done: &[bool]) -> (r: Result<(), String>)
    ensures
        tells_moves(r, done@),
{
    for i in 0..done.len()
        invariant
            forall|j: int| 0 <= j < i ==> !done@[j],
    {
        if done[i] {
            assert(done@[i as int]);
            return Ok(());
        }
    }
    Err(text::owned("That mod's files were not found where expected."))
}

/// The parts of a mod move together: where a manifest owns the path, the container of every file
/// that the manifest records is moved, none of them twice, and nothing else.
pub proof fn law_parts_move_together(ms: Seq<ManifestView>, rel: Seq<char>, i: int)
    requires
        manifest::first_owner(ms, rel) == Some(i),
    ensures
        toggled(ms, rel).no_duplicates(),
        forall|c: Seq<char>| #[trigger]
            toggled(ms, rel).contains(c) <==> exists|k: int|
                0 <= k < ms[i].files.len() && container(#[trigger] ms[i].files[k]) == c,
{
    let files = ms[i].files;
    let cs = files.map_values(|f: Seq<char>| container(f));
    text::lemma_distinct(cs);
    manifest::lemma_first_owner(ms, rel);
    let k = choose|k: int| 0 <= k < files.len() && manifest::covers(#[trigger] files[k], rel);
    assert(cs[k] == container(files[k]));
    assert(cs.contains(cs[k]));
    assert(containers_of(files).contains(cs[k]));
    assert(containers_of(files).len() > 0);
    assert forall|c: Seq<char>| #[trigger] toggled(ms, rel).contains(c) implies exists|k: int|
        0 <= k < files.len() && container(#[trigger] files[k]) == c by {
        assert(cs.contains(c));
        let j = choose|j: int| 0 <= j < cs.len() && cs[j] == c;
        assert(container(files[j]) == c);
    }
    assert forall|c: Seq<char>|
        (exists|k: int| 0 <= k < files.len() && container(#[trigger] files[k]) == c) implies (
    #[trigger] toggled(ms, rel).contains(c)) by {
        let j = choose|j: int| 0 <= j < files.len() && container(#[trigger] files[j]) == c;
        assert(cs[j] == c);
        assert(cs.contains(c));
    }
}

/// Enabling undoes disabling: a container that was moved away is moved back to where it was.
pub proof fn law_enabling_undoes_disabling(c: Seq<char>, live: Place, stored: Place)
    requires
        moved(c, false, live, stored) is Some,
    ensures
        ({
            let away = moved(c, false, live, stored)->0;
            let back = moved(
                c,
                true,
                Place { inside: live.inside, exists: false },
                Place { inside: stored.inside, exists: true },
            );
            back == Some((away.1, away.0))
        }),
{
}

/// A mod that is in the requested state already is not moved.
pub proof fn law_nothing_moves_twice(c: Seq<char>, enable: bool, live: Place, stored: Place)
    requires
        if enable {
            !stored.exists
        } else {
            !live.exists
        },
    ensures
        moved(c, enable, live, stored) is None,
{
}

proof fn lemma_piece(path: Seq<char>, k: int)
    requires
        0 <= k < text::pieces(path, Separator::Slash).len(),
    ensures
        text::pieces(path, Separator::Slash)[k].len() > 0,
        text::uncut(text::pieces(path, Separator::Slash)[k], Separator::Slash),
{
    text::lemma_pieces(path, Separator::Slash);
}

/// A container holds the path that it is the container of: its components are the first components
/// of the path.
pub proof fn law_container_holds_path(path: Seq<char>)
    requires
        text::pieces(path, Separator::Slash).len() > 0,
    ensures
        text::pieces(container(path), Separator::Slash).is_prefix_of(
            text::pieces(path, Separator::Slash),
        ),
        text::pieces(container(path), Separator::Slash).len() > 0,
{
    let ps = text::pieces(path, Separator::Slash);
    text::lemma_pieces(path, Separator::Slash);
    if ps.len() >= 3 && ps[0] == "BepInEx"@ {
        lemma_three(ps);
        lemma_pieces_of_prefix(ps, 3);
    } else if ps.len() >= 4 && "SPT/user/mods/"@.is_prefix_of(path) {
        lemma_server_pieces(path);
        lemma_four(ps);
        lemma_pieces_of_prefix(ps, 4);
    } else {
        lemma_piece(path, 0);
        text::lemma_pieces_uncut(ps[0], Separator::Slash);
        assert(seq![ps[0]] =~= ps.take(1));
    }
}

proof fn lemma_pieces_of_prefix(ps: Seq<Seq<char>>, n: int)
    requires
        0 <= n <= ps.len(),
        forall|k: int|
            0 <= k < ps.len() ==> (#[trigger] ps[k]).len() > 0 && text::uncut(
                ps[k],
                Separator::Slash,
            ),
    ensures
        text::pieces(text::join(ps.take(n), "/"@), Separator::Slash) == ps.take(n),
{
    let p = ps.take(n);
    assert forall|k: int| 0 <= k < p.len() implies (#[trigger] p[k]).len() > 0 && text::uncut(
        p[k],
        Separator::Slash,
    ) by {
        assert(p[k] == ps[k]);
    }
    text::lemma_pieces_of_join(p);
}

proof fn lemma_three(ps: Seq<Seq<char>>)
    requires
        ps.len() >= 3,
    ensures
        text::join(ps.take(3), "/"@) == ps[0] + "/"@ + ps[1] + "/"@ + ps[2],
{
    reveal_with_fuel(text::join, 3);
    assert(ps.take(3).drop_last() =~= ps.take(2));
    assert(ps.take(2).drop_last() =~= ps.take(1));
}

proof fn lemma_four(ps: Seq<Seq<char>>)
    requires
        ps.len() >= 4,
        ps[0] == "SPT"@,
        ps[1] == "user"@,
        ps[2] == "mods"@,
    ensures
        text::join(ps.take(4), "/"@) == "SPT/user/mods/"@ + ps[3],
{
    lemma_three(ps);
    assert(ps.take(4).drop_last() =~= ps.take(3));
    reveal_strlit("SPT");
    reveal_strlit("user");
    reveal_strlit("mods");
    reveal_strlit("/");
    reveal_strlit("SPT/user/mods/");
    assert("SPT"@ + "/"@ + "user"@ + "/"@ + "mods"@ + "/"@ =~= "SPT/user/mods/"@);
    assert(text::join(ps.take(4), "/"@) =~= "SPT/user/mods/"@ + ps[3]);
}

/// A path in the folder of server mods has that folder's components first.
proof fn lemma_server_pieces(path: Seq<char>)
    requires
        "SPT/user/mods/"@.is_prefix_of(path),
    ensures
        ({
            let ps = text::pieces(path, Separator::Slash);
            ps.len() >= 3 && ps[0] == "SPT"@ && ps[1] == "user"@ && ps[2] == "mods"@
        }),
{
    reveal_strlit("SPT");
    reveal_strlit("user");
    reveal_strlit("mods");
    reveal_strlit("SPT/user/mods/");
    let s = Separator::Slash;
    let after = path.skip(14);
    let tail = "mods"@.push('/') + after;
    let middle = "user"@.push('/') + tail;
    assert("SPT/user/mods/"@ =~= "SPT"@.push('/') + ("user"@.push('/') + "mods"@.push('/')));
    assert(path =~= "SPT/user/mods/"@ + after);
    assert(path =~= "SPT"@.push('/') + middle);
    text::lemma_pieces_at("SPT"@, '/', middle, s);
    text::lemma_pieces_at("user"@, '/', tail, s);
    text::lemma_pieces_at("mods"@, '/', after, s);
    text::lemma_pieces_uncut("SPT"@, s);
    text::lemma_pieces_uncut("user"@, s);
    text::lemma_pieces_uncut("mods"@, s);
    assert(text::pieces(path, s) =~= seq!["SPT"@, "user"@, "mods"@] + text::pieces(after, s));
}

/// A container is its own container.
pub proof fn law_container_is_its_own(path: Seq<char>)
    ensures
        container(container(path)) == container(path),
{
    let ps = text::pieces(path, Separator::Slash);
    text::lemma_pieces(path, Separator::Slash);
    if ps.len() >= 3 && ps[0] == "BepInEx"@ {
        lemma_three(ps);
        lemma_pieces_of_prefix(ps, 3);
    } else if ps.len() >= 4 && "SPT/user/mods/"@.is_prefix_of(path) {
        lemma_server_pieces(path);
        lemma_four(ps);
        lemma_pieces_of_prefix(ps, 4);
        reveal_strlit("SPT");
        reveal_strlit("BepInEx");
        assert("SPT"@.len() == 3 && "BepInEx"@.len() == 7);
        let c = container(path);
        assert("SPT/user/mods/"@.is_prefix_of(c)) by {
            assert(c.subrange(0, "SPT/user/mods/"@.len() as int) =~= "SPT/user/mods/"@);
        }
        assert(ps.take(4)[3] == ps[3]);
    } else if ps.len() > 0 {
        lemma_piece(path, 0);
        text::lemma_pieces_uncut(ps[0], Separator::Slash);
    }
}

/// What the list of mods shows is what is moved: the path of a listed mod is its own container, in
/// a client folder as well as in the folder of server mods.
pub proof fn law_listed_paths_are_containers(sub: Seq<char>, name: Seq<char>)
    requires
        sub.len() > 0,
        text::uncut(sub, Separator::Slash),
        name.len() > 0,
        text::uncut(name, Separator::Slash),
    ensures
        container("BepInEx/"@ + sub + "/"@ + name) == "BepInEx/"@ + sub + "/"@ + name,
        container("SPT/user/mods/"@ + name) == "SPT/user/mods/"@ + name,
{
    reveal_strlit("BepInEx");
    reveal_strlit("BepInEx/");
    reveal_strlit("/");
    reveal_strlit("SPT");
    reveal_strlit("user");
    reveal_strlit("mods");
    reveal_strlit("SPT/user/mods/");
    let client = seq!["BepInEx"@, sub, name];
    let server = seq!["SPT"@, "user"@, "mods"@, name];
    assert forall|k: int| 0 <= k < client.len() implies (#[trigger] client[k]).len() > 0
        && text::uncut(client[k], Separator::Slash) by {}
    assert forall|k: int| 0 <= k < server.len() implies (#[trigger] server[k]).len() > 0
        && text::uncut(server[k], Separator::Slash) by {}
    lemma_three(client);
    lemma_pieces_of_prefix(client, 3);
    assert(client.take(3) =~= client);
    assert("BepInEx/"@ + sub + "/"@ + name =~= "BepInEx"@ + "/"@ + sub + "/"@ + name);
    lemma_four(server);
    lemma_pieces_of_prefix(server, 4);
    assert(server.take(4) =~= server);
    let path = "SPT/user/mods/"@ + name;
    assert(path.subrange(0, 14) =~= "SPT/user/mods/"@);
    assert("SPT/user/mods/"@.is_prefix_of(path));
}

} // verus!
