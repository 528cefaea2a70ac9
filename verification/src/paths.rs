//! Paths in the game folder: which of them name a mod, and where the files of a disabled mod are
//! kept.
use crate::names;
use crate::text;
use crate::text::Separator;
use vstd::prelude::*;

verus! {

/// The folder, relative to the game root, that the files of disabled mods are moved to.
pub const DISABLED_STORE: &'static str = ".spt-mod-installer/disabled";

/// The folder, relative to the game root, that manifests are written to.
pub const MANIFESTS: &'static str = ".spt-mod-installer/manifests";

/// What is found on disk at a path.
#[derive(Clone, Copy, PartialEq, Eq, Structural)]
pub enum Found {
    Nothing,
    File,
    Folder,
    /// Neither a file nor a folder.
    Other,
}

/// A path names a mod: two dots stand nowhere in it and it is not blank.
pub open spec fn names_mod(rel: Seq<char>) -> bool {
    !text::occurs(rel, ".."@) && !text::blank(rel)
}

/// An error where the game root is not a folder.
pub fn check_root(root_is_dir: bool) -> (r: Result<(), String>)
    ensures
        match r {
            Ok(_) => root_is_dir,
            Err(e) => !root_is_dir && e@ == "SPT root folder does not exist."@,
        },
{
    if root_is_dir {
        Ok(())
    } else {
        Err(text::owned("SPT root folder does not exist."))
    }
}

/// An error where the path does not name a mod.
pub fn check_mod_path(rel_path: &str) -> (r: Result<(), String>)
    ensures
        match r {
            Ok(_) => names_mod(rel_path@),
            Err(e) => !names_mod(rel_path@) && e@ == "Invalid mod path."@,
        },
{
    if text::contains(rel_path, "..") || text::is_blank(rel_path) {
        Err(text::owned("Invalid mod path."))
    } else {
        Ok(())
    }
}

/// Where a path of the game folder lies in the store of disabled mods.
pub open spec fn in_store(path: Seq<char>) -> Seq<char> {
    DISABLED_STORE@ + "/"@ + path
}

pub fn stored_path(path: &str) -> (r: String)
    ensures
        r@ == in_store(path@),
{
    let mut r = text::owned(DISABLED_STORE);
    r.append("/");
    r.append(path);
    r
}

/// The components of a path that lead somewhere: `.` stays where it is.
pub open spec fn components(path: Seq<char>) -> Seq<Seq<char>> {
    text::pieces(path, Separator::Slash).filter(|p: Seq<char>| p != "."@)
}

/// The path leads down from where it is joined to, on every platform.
pub open spec fn is_relative(path: Seq<char>) -> bool {
    names::portable(path) && !(path.len() > 0 && path[0] == '/')
}

/// A portable path that is joined to a portable root stays below the root: one that starts with a
/// slash takes the place of the root.
pub open spec fn stays_below(root: Seq<char>, path: Seq<char>) -> bool {
    is_relative(path) || root.len() == 0 || (root[0] == '/' && components(root).is_prefix_of(
        components(path),
    ))
}

/// The path starts with a slash.
pub open spec fn is_rooted(path: Seq<char>) -> bool {
    path.len() > 0 && path[0] == '/'
}

/// The path with a slash at its end, unless it is empty.
pub open spec fn slash_ended(path: Seq<char>) -> Seq<char> {
    if path.len() == 0 || path.last() == '/' {
        path
    } else {
        path.push('/')
    }
}

/// A rooted path in place of `base`: whole, or behind the drive that `base` names.
pub open spec fn in_place_of(r: Seq<char>, base: Seq<char>, path: Seq<char>) -> bool {
    r == path || (base.len() >= 2 && base[1] == ':' && r == base.take(2) + path)
}

/// `std::path::Path::join`: a relative path is put behind the base, a rooted one takes its place.
/// What separates components, and what a path starts with, depends on the platform; stated is what
/// holds on all of them, the base empty or with a slash at its end.
#[verifier::external_body]
fn join_paths(base: &str, path: &str) -> (r: String)
    ensures
        is_relative(path@) && base@ == slash_ended(base@) && !names::names_machine(base@) ==> r@
            == base@ + path@,
        names::portable(base@) && names::portable(path@) && is_rooted(path@) ==> r@ == path@,
        names::portable(path@) && is_rooted(path@) && !names::names_machine(base@) ==> in_place_of(
            r@,
            base@,
            path@,
        ),
{
    std::path::Path::new(base).join(path).to_string_lossy().into_owned()
}

/// `std::path::Path::starts_with`: whether the components of the base are the first ones of the
/// path. What separates components depends on the platform; stated is what holds on all of them.
/// The last component of a base ends with its last name, so that a path without that name does not
/// start with the base.
#[verifier::external_body]
fn path_starts_with(path: &str, base: &str) -> (r: bool)
    ensures
        base@.len() == 0 ==> r,
        slash_ended(base@).is_prefix_of(path@) && !names::names_machine(base@)
            && !names::names_machine(path@) ==> r,
        names::portable(base@) && names::portable(path@) && is_rooted(path@) && base@.len() > 0
            ==> r == (is_rooted(base@) && components(base@).is_prefix_of(components(path@))),
        !names::names_machine(base@) && names::last_name(base@).len() > 0 && names::last_name(base@)
            != "."@ && !text::occurs(path@, names::last_name(base@)) ==> !r,
{
    std::path::Path::new(path).starts_with(base)
}

proof fn lemma_last_name_is_one(path: Seq<char>)
    ensures
        forall|i: int|
            0 <= i < names::last_name(path).len() ==> #[trigger] names::last_name(path)[i] != ':',
    decreases path.len(),
{
    let name = names::last_name(path);
    if name.len() > 0 {
        lemma_last_name_is_one(path.drop_last());
        let before = names::last_name(path.drop_last());
        assert forall|i: int| 0 <= i < name.len() implies #[trigger] name[i] != ':' by {
            if i < before.len() {
                assert(name[i] == before[i]);
            }
        }
    }
}

/// A name without a colon that stands behind a drive stands in the path.
proof fn lemma_not_in_drive(drive: Seq<char>, path: Seq<char>, name: Seq<char>)
    requires
        drive.len() == 2,
        drive[1] == ':',
        name.len() >= 2,
        forall|i: int| 0 <= i < name.len() ==> #[trigger] name[i] != ':',
        text::occurs(drive + path, name),
    ensures
        text::occurs(path, name),
{
    let whole = drive + path;
    let i = choose|i: int| #[trigger] text::occurs_at(whole, name, i);
    let found = whole.subrange(i, i + name.len());
    if i < 2 {
        assert(found[1 - i] == whole[1]);
        assert(name[1 - i] != ':');
    } else {
        assert(path.subrange(i - 2, i - 2 + name.len()) =~= found);
        assert(text::occurs_at(path, name, i - 2));
    }
}

/// Whether the path, joined to the root, stays in the root.
pub fn is_inside(root: &str, path: &str) -> (r: bool)
    ensures
        names::portable(root@) && names::portable(path@) ==> r == stays_below(root@, path@),
        !names::names_machine(slash_ended(root@)) && is_relative(path@) ==> r,
        !names::names_machine(slash_ended(root@)) && names::portable(path@) && is_rooted(path@)
            && names::last_name(root@).len() >= 2 && !text::occurs(
            path@,
            names::last_name(root@),
        ) ==> !r,
{
    let mut base = text::owned(root);
    if !root.is_empty() && !text::ends_with(root, "/") {
        base.append("/");
    }
    let ghost ended = base@;
    if names::is_machine(base.as_str()) {
        base = text::owned(root);
    }
    proof {
        reveal_strlit("/");
        reveal_strlit(".");
        let x = root@;
        if x.len() > 0 {
            assert(x.subrange(x.len() - 1, x.len() as int) =~= seq![x.last()]);
            assert("/"@ =~= seq!['/']);
            if x.last() == '/' {
                assert("/"@.is_suffix_of(x));
            } else {
                assert(x.subrange(x.len() - 1, x.len() as int)[0] != "/"@[0]);
            }
        }
        assert(ended =~= slash_ended(root@));
        assert(slash_ended(ended) == ended);
    }
    let joined = join_paths(base.as_str(), path);
    let r = path_starts_with(joined.as_str(), root);
    proof {
        let b = ended;
        let p = path@;
        lemma_last_name_is_one(root@);
        if is_relative(p) && !names::names_machine(b) {
            assert(joined@ == b + p);
            assert(joined@.subrange(0, b.len() as int) =~= b);
            assert(b.is_prefix_of(joined@));
            assert(!names::names_machine(root@));
            assert(!names::names_machine(joined@));
        }
        if names::portable(root@) && names::portable(p) {
            assert(!names::names_machine(b));
            assert(names::portable(b));
        }
        if !names::names_machine(b) && names::portable(p) && is_rooted(p) && names::last_name(
            root@,
        ).len() >= 2 && !text::occurs(p, names::last_name(root@)) {
            assert(!names::names_machine(root@));
            let name = names::last_name(root@);
            assert(name != "."@);
            if text::occurs(joined@, name) {
                assert(joined@ == b.take(2) + p);
                lemma_not_in_drive(b.take(2), p, name);
            }
        }
    }
    r
}

} // verus!
