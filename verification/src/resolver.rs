//! The archive resolver: where each file of a mod archive belongs in the SPT game folder.
//!
//! Client mods live under `BepInEx`, server mods under `SPT/user/mods`. Whatever folder layout an
//! archive uses, the resolver puts its files onto these targets.
use crate::text;
use crate::text::Separator;
use vstd::prelude::*;

verus! {

/// A file of an archive together with its place in the game folder.
pub struct MappedFile {
    /// Path inside the archive.
    pub original: String,
    /// Path relative to the SPT game root where this file will be written.
    pub target: String,
    /// "client" or "server".
    pub category: String,
}

/// The mathematical content of a [`MappedFile`].
#[verifier::ext_equal]
pub struct MappedView {
    pub original: Seq<char>,
    pub target: Seq<char>,
    pub category: Seq<char>,
}

impl View for MappedFile {
    type V = MappedView;

    open spec fn view(&self) -> MappedView {
        MappedView {
            original: self.original@,
            target: self.target@,
            category: self.category@,
        }
    }
}

impl Clone for MappedFile {
    fn clone(&self) -> (r: MappedFile)
        ensures
            r@ == self@,
    {
        MappedFile {
            original: self.original.clone(),
            target: self.target.clone(),
            category: self.category.clone(),
        }
    }
}

/// The views of a sequence of mapped files.
pub open spec fn mapped_views(v: Seq<MappedFile>) -> Seq<MappedView> {
    v.map_values(|m: MappedFile| m@)
}

/// What the resolver decided about an archive.
pub struct Resolution {
    pub mode: &'static str,
    pub mapped: Vec<MappedFile>,
    pub unrecognized: Vec<String>,
}

/// The non-empty components of a path, with either kind of slash as separator.
pub open spec fn parts(name: Seq<char>) -> Seq<Seq<char>> {
    text::pieces(text::slashed(name), Separator::Slash)
}

/// Some component is `..`.
pub open spec fn traverses(ps: Seq<Seq<char>>) -> bool {
    exists|i: int| 0 <= i < ps.len() && #[trigger] ps[i] == ".."@
}

/// The folder names that tell where the files below them belong.
#[derive(Clone, Copy, PartialEq, Eq, Structural)]
pub enum Anchor {
    Spt,
    BepInEx,
    User,
    Mods,
    Plugins,
    Patchers,
}

/// The anchor that a path component is, whatever its case.
pub open spec fn anchor_of(component: Seq<char>) -> Option<Anchor> {
    let low = text::lowercase(component);
    if low == "spt"@ {
        Some(Anchor::Spt)
    } else if low == "bepinex"@ {
        Some(Anchor::BepInEx)
    } else if low == "user"@ {
        Some(Anchor::User)
    } else if low == "mods"@ {
        Some(Anchor::Mods)
    } else if low == "plugins"@ {
        Some(Anchor::Plugins)
    } else if low == "patchers"@ {
        Some(Anchor::Patchers)
    } else {
        None
    }
}

pub open spec fn has_anchor(ps: Seq<Seq<char>>) -> bool {
    exists|i: int| 0 <= i < ps.len() && (#[trigger] anchor_of(ps[i])) is Some
}

/// Some file of the archive has an anchor on its path.
pub open spec fn anchored(files: Seq<Seq<char>>) -> bool {
    exists|i: int| 0 <= i < files.len() && #[trigger] has_anchor(parts(files[i]))
}

/// The index of the outermost anchor on a path.
pub open spec fn first_anchor(ps: Seq<Seq<char>>) -> Option<int>
    decreases ps.len(),
{
    if ps.len() == 0 {
        None
    } else {
        match first_anchor(ps.drop_last()) {
            Some(i) => Some(i),
            None => if anchor_of(ps.last()) is Some {
                Some(ps.len() - 1)
            } else {
                None
            },
        }
    }
}

/// The path `rest` below `folder`.
pub open spec fn under(folder: Seq<char>, rest: Seq<Seq<char>>) -> Seq<char> {
    if rest.len() == 0 {
        folder
    } else {
        folder + "/"@ + text::join(rest, "/"@)
    }
}

/// The target and category of the components from an anchor at index `i` on.
pub open spec fn anchor_target(a: Anchor, ps: Seq<Seq<char>>, i: int) -> (Seq<char>, Seq<char>) {
    match a {
        Anchor::Spt => (under("SPT"@, ps.skip(i + 1)), "server"@),
        Anchor::BepInEx => (under("BepInEx"@, ps.skip(i + 1)), "client"@),
        Anchor::User => (under("SPT"@, ps.skip(i)), "server"@),
        Anchor::Mods => (under("SPT/user"@, ps.skip(i)), "server"@),
        Anchor::Plugins => (under("BepInEx"@, ps.skip(i)), "client"@),
        Anchor::Patchers => (under("BepInEx"@, ps.skip(i)), "client"@),
    }
}

/// The target and category of a path in an archive that has anchors: what stands below its
/// outermost anchor, put where that anchor belongs. Nothing for a path that climbs with `..` or
/// has no anchor.
pub open spec fn anchored_place(name: Seq<char>) -> Option<(Seq<char>, Seq<char>)> {
    let ps = parts(name);
    if traverses(ps) {
        None
    } else {
        match first_anchor(ps) {
            Some(i) => Some(anchor_target(anchor_of(ps[i])->0, ps, i)),
            None => None,
        }
    }
}

/// The target and category of a standalone executable: its file name, in the game root.
pub open spec fn exe_place(name: Seq<char>) -> Option<(Seq<char>, Seq<char>)> {
    let norm = text::slashed(name);
    let base = text::split(norm, Separator::Slash).last();
    if ".exe"@.is_suffix_of(text::lowercase(norm)) && base.len() > 0 && !text::occurs(base, ".."@) {
        Some((base, "client"@))
    } else {
        None
    }
}

/// The layouts that an archive can have.
#[derive(Clone, Copy, PartialEq, Eq, Structural)]
pub enum Layout {
    /// Anchor folders are present.
    Anchored,
    /// A server mod in a folder of its own.
    BareServerFolder,
    /// A server mod whose files lie loose in the archive.
    BareServerLoose,
    /// A client mod without anchor folders.
    BareClient,
    /// Standalone executables.
    BareRoot,
    /// Nothing that can be installed.
    Empty,
}

/// The files all lie in one and the same top-level folder.
pub open spec fn one_top(files: Seq<Seq<char>>) -> bool {
    &&& files.len() > 0
    &&& forall|i: int|
        0 <= i < files.len() ==> (#[trigger] parts(files[i])).len() >= 2 && parts(files[i])[0]
            == parts(files[0])[0]
}

pub open spec fn top_of(files: Seq<Seq<char>>) -> Option<Seq<char>> {
    if one_top(files) {
        Some(parts(files[0])[0])
    } else {
        None
    }
}

/// The file is a `package.json`, in any folder and in any ASCII case.
pub open spec fn is_package(name: Seq<char>) -> bool {
    let ps = parts(name);
    ps.len() > 0 && text::ascii_lowercase(ps.last()) == text::ascii_lowercase("package.json"@)
}

/// The lower-cased name ends with `ext`.
pub open spec fn has_ending(name: Seq<char>, ext: Seq<char>) -> bool {
    ext.is_suffix_of(text::lowercase(name))
}

pub open spec fn some_package(files: Seq<Seq<char>>) -> bool {
    exists|i: int| 0 <= i < files.len() && is_package(#[trigger] files[i])
}

pub open spec fn some_ending(files: Seq<Seq<char>>, ext: Seq<char>) -> bool {
    exists|i: int| 0 <= i < files.len() && has_ending(#[trigger] files[i], ext)
}

/// The layout of an archive with these files.
pub open spec fn layout_of(files: Seq<Seq<char>>) -> Layout {
    if anchored(files) {
        Layout::Anchored
    } else if some_package(files) {
        if one_top(files) {
            Layout::BareServerFolder
        } else {
            Layout::BareServerLoose
        }
    } else if some_ending(files, ".dll"@) {
        Layout::BareClient
    } else if some_ending(files, ".exe"@) {
        Layout::BareRoot
    } else {
        Layout::Empty
    }
}

pub open spec fn mode_name(l: Layout) -> Seq<char> {
    match l {
        Layout::Anchored => "anchored"@,
        Layout::BareServerFolder => "bare-server"@,
        Layout::BareServerLoose => "bare-server"@,
        Layout::BareClient => "bare-client"@,
        Layout::BareRoot => "bare-root"@,
        Layout::Empty => "empty"@,
    }
}

/// The target and category of one file of an archive with layout `l`; nothing where the file is
/// not recognised.
pub open spec fn place(l: Layout, mod_name: Seq<char>, name: Seq<char>) -> Option<
    (Seq<char>, Seq<char>),
> {
    match l {
        Layout::Anchored => match anchored_place(name) {
            Some(p) => Some(p),
            None => exe_place(name),
        },
        Layout::BareServerFolder => if traverses(parts(name)) {
            None
        } else {
            Some(("SPT/user/mods/"@ + text::slashed(name), "server"@))
        },
        Layout::BareServerLoose => if traverses(parts(name)) {
            None
        } else {
            Some(("SPT/user/mods/"@ + mod_name + "/"@ + text::slashed(name), "server"@))
        },
        Layout::BareClient => if traverses(parts(name)) {
            None
        } else {
            Some(("BepInEx/plugins/"@ + text::slashed(name), "client"@))
        },
        Layout::BareRoot => exe_place(name),
        Layout::Empty => None,
    }
}

/// The recognised files, in order, each with its place.
pub open spec fn placed(l: Layout, mod_name: Seq<char>, files: Seq<Seq<char>>) -> Seq<MappedView>
    decreases files.len(),
{
    if files.len() == 0 {
        Seq::empty()
    } else {
        let before = placed(l, mod_name, files.drop_last());
        match place(l, mod_name, files.last()) {
            Some((target, category)) => before.push(
                MappedView { original: files.last(), target, category },
            ),
            None => before,
        }
    }
}

/// The files that are not recognised, in order.
pub open spec fn unplaced(l: Layout, mod_name: Seq<char>, files: Seq<Seq<char>>) -> Seq<Seq<char>>
    decreases files.len(),
{
    if files.len() == 0 {
        Seq::empty()
    } else {
        let before = unplaced(l, mod_name, files.drop_last());
        match place(l, mod_name, files.last()) {
            Some(_) => before,
            None => before.push(files.last()),
        }
    }
}

/// The entry names a file, not a directory.
pub open spec fn is_file_name(name: Seq<char>) -> bool {
    name.len() == 0 || name.last() != '/'
}

/// The files among the entries of an archive.
pub open spec fn files_of(names: Seq<Seq<char>>) -> Seq<Seq<char>> {
    names.filter(|n: Seq<char>| is_file_name(n))
}

/// "mixed", "client", "server" or "unknown", by the categories that occur.
pub open spec fn classification(ms: Seq<MappedView>) -> Seq<char> {
    let client = has_category(ms, "client"@);
    let server = has_category(ms, "server"@);
    if client && server {
        "mixed"@
    } else if client {
        "client"@
    } else if server {
        "server"@
    } else {
        "unknown"@
    }
}

pub open spec fn has_category(ms: Seq<MappedView>, category: Seq<char>) -> bool {
    exists|i: int| 0 <= i < ms.len() && (#[trigger] ms[i]).category == category
}

pub fn parts_of(name: &str) -> (r: Vec<String>)
    ensures
        text::texts(r@) == parts(name@),
{
    let norm = text::slashes(name);
    text::pieces_of(norm.as_str(), Separator::Slash)
}

pub fn has_traversal(parts: &[String]) -> (r: bool)
    ensures
        r == traverses(text::texts(parts@)),
{
    let ghost ps = text::texts(parts@);
    for i in 0..parts.len()
        invariant
            ps == text::texts(parts@),
            forall|j: int| 0 <= j < i ==> ps[j] != ".."@,
    {
        if text::same(parts[i].as_str(), "..") {
            assert(ps[i as int] == ".."@);
            return true;
        }
    }
    false
}

/// The anchor that a path component is.
fn find_anchor(component: &str) -> (r: Option<Anchor>)
    ensures
        r == anchor_of(component@),
{
    let lowered = component.to_lowercase();
    let low = lowered.as_str();
    if text::same(low, "spt") {
        Some(Anchor::Spt)
    } else if text::same(low, "bepinex") {
        Some(Anchor::BepInEx)
    } else if text::same(low, "user") {
        Some(Anchor::User)
    } else if text::same(low, "mods") {
        Some(Anchor::Mods)
    } else if text::same(low, "plugins") {
        Some(Anchor::Plugins)
    } else if text::same(low, "patchers") {
        Some(Anchor::Patchers)
    } else {
        None
    }
}

pub proof fn lemma_first_anchor(ps: Seq<Seq<char>>)
    ensures
        first_anchor(ps) is Some <==> has_anchor(ps),
        first_anchor(ps) matches Some(i) ==> 0 <= i < ps.len() && anchor_of(ps[i]) is Some
            && forall|j: int| 0 <= j < i ==> (#[trigger] anchor_of(ps[j])) is None,
    decreases ps.len(),
{
    if ps.len() > 0 {
        let before = ps.drop_last();
        lemma_first_anchor(before);
        if has_anchor(before) {
            let i = choose|i: int| 0 <= i < before.len() && (#[trigger] anchor_of(before[i])) is Some;
            assert(anchor_of(ps[i]) is Some);
            let k = first_anchor(before)->0;
            assert forall|j: int| 0 <= j < k implies (#[trigger] anchor_of(ps[j])) is None by {
                assert(ps[j] == before[j]);
            }
        } else {
            if has_anchor(ps) {
                let i = choose|i: int| 0 <= i < ps.len() && (#[trigger] anchor_of(ps[i])) is Some;
                if i < before.len() {
                    assert(anchor_of(before[i]) is Some);
                }
            }
            if anchor_of(ps.last()) is Some {
                assert(anchor_of(ps[ps.len() - 1]) is Some);
                assert forall|j: int| 0 <= j < ps.len() - 1 implies (#[trigger] anchor_of(ps[j])) is None by {
                    assert(anchor_of(before[j]) is None);
                }
            }
        }
    }
}

/// The index of the outermost anchor.
fn find_first_anchor(parts: &[String]) -> (r: Option<(usize, Anchor)>)
    ensures
        match r {
            Some((i, a)) => first_anchor(text::texts(parts@)) == Some(i as int) && i < parts@.len()
                && anchor_of(text::texts(parts@)[i as int]) == Some(a),
            None => first_anchor(text::texts(parts@)) is None,
        },
{
    let ghost ps = text::texts(parts@);
    for i in 0..parts.len()
        invariant
            ps == text::texts(parts@),
            forall|j: int| 0 <= j < i ==> (#[trigger] anchor_of(ps[j])) is None,
    {
        if let Some(a) = find_anchor(parts[i].as_str()) {
            proof {
                assert(anchor_of(ps[i as int]) == Some(a));
                lemma_first_anchor(ps);
                let k = first_anchor(ps)->0;
                if k < i {
                    assert(anchor_of(ps[k]) is None);
                }
            }
            return Some((i, a));
        }
    }
    proof {
        lemma_first_anchor(ps);
    }
    None
}

pub fn is_anchored(files: &[String]) -> (r: bool)
    ensures
        r == anchored(text::texts(files@)),
{
    let ghost fs = text::texts(files@);
    for i in 0..files.len()
        invariant
            fs == text::texts(files@),
            forall|j: int| 0 <= j < i ==> !(#[trigger] has_anchor(parts(fs[j]))),
    {
        let ps = parts_of(files[i].as_str());
        let found = find_first_anchor(ps.as_slice());
        proof {
            lemma_first_anchor(parts(fs[i as int]));
        }
        if found.is_some() {
            assert(has_anchor(parts(fs[i as int])));
            return true;
        }
    }
    false
}

/// If every entry shares a single top-level folder, return it; otherwise None
/// (None also when any file sits at the archive root).
pub fn common_top(files: &[String]) -> (r: Option<String>)
    ensures
        text::text_opt(r) == top_of(text::texts(files@)),
{
    let ghost fs = text::texts(files@);
    let mut top: Option<String> = None;
    for i in 0..files.len()
        invariant
            fs == text::texts(files@),
            i == 0 <==> top is None,
            top matches Some(t) ==> t@ == parts(fs[0])[0],
            forall|j: int| 0 <= j < i ==> (#[trigger] parts(fs[j])).len() >= 2 && parts(fs[j])[0]
                == parts(fs[0])[0],
    {
        let p = parts_of(files[i].as_str());
        assert(text::texts(p@) == parts(fs[i as int]));
        if p.len() < 2 {
            assert(parts(fs[i as int]).len() < 2);
            return None;
        }
        assert(p@[0]@ == parts(fs[i as int])[0]);
        match &top {
            None => {
                top = Some(p[0].clone());
            },
            Some(t) => {
                if !text::same(t.as_str(), p[0].as_str()) {
                    assert(parts(fs[i as int])[0] != parts(fs[0])[0]);
                    return None;
                }
            },
        }
    }
    top
}

/// The components from index `from` on, below `folder`.
fn below(folder: &str, parts: &[String], from: usize) -> (r: String)
    requires
        from <= parts@.len(),
    ensures
        r@ == under(folder@, text::texts(parts@).skip(from as int)),
{
    let mut r = text::owned(folder);
    if from < parts.len() {
        let rest = text::join_from(parts, from, "/");
        r.append("/");
        r.append(rest.as_str());
    }
    r
}

/// The views of a place.
pub open spec fn place_view(p: Option<(String, &'static str)>) -> Option<(Seq<char>, Seq<char>)> {
    match p {
        Some((target, category)) => Some((target@, category@)),
        None => None,
    }
}

/// Resolve one entry from an archive that contains recognised anchor folders.
pub fn resolve_anchored(name: &str) -> (r: Option<(String, &'static str)>)
    ensures
        place_view(r) == anchored_place(name@),
{
    let found = parts_of(name);
    let ps = found.as_slice();
    let n: usize = ps.len();
    if has_traversal(ps) {
        return None;
    }
    match find_first_anchor(ps) {
        None => None,
        Some((i, a)) => match a {
            Anchor::Spt => Some((below("SPT", ps, i + 1), "server")),
            Anchor::BepInEx => Some((below("BepInEx", ps, i + 1), "client")),
            Anchor::User => Some((below("SPT", ps, i), "server")),
            Anchor::Mods => Some((below("SPT/user", ps, i), "server")),
            Anchor::Plugins => Some((below("BepInEx", ps, i), "client")),
            Anchor::Patchers => Some((below("BepInEx", ps, i), "client")),
        },
    }
}

/// Loose .exe files (e.g. FikaSync) are standalone tools that belong in the SPT
/// game root. Map them there by file name.
pub fn exe_to_root(name: &str) -> (r: Option<(String, &'static str)>)
    ensures
        place_view(r) == exe_place(name@),
{
    let norm = text::slashes(name);
    let low = norm.as_str().to_lowercase();
    if !text::ends_with(low.as_str(), ".exe") {
        return None;
    }
    let mut segments = text::split_text(norm.as_str(), Separator::Slash);
    let ghost all = text::texts(segments@);
    proof {
        text::lemma_split_not_empty(norm@, Separator::Slash);
    }
    match segments.pop() {
        None => None,
        Some(base) => {
            assert(base@ == all.last());
            if base.as_str().is_empty() || text::contains(base.as_str(), "..") {
                None
            } else {
                Some((base, "client"))
            }
        },
    }
}

/// Where one file of an archive with layout `l` goes.
fn place_file(l: Layout, mod_name: &str, name: &str) -> (r: Option<(String, &'static str)>)
    ensures
        place_view(r) == place(l, mod_name@, name@),
{
    match l {
        Layout::Anchored => match resolve_anchored(name) {
            Some(p) => Some(p),
            None => exe_to_root(name),
        },
        Layout::BareRoot => exe_to_root(name),
        Layout::Empty => None,
        _ => {
            let ps = parts_of(name);
            if has_traversal(ps.as_slice()) {
                return None;
            }
            let norm = text::slashes(name);
            match l {
                Layout::BareServerFolder => Some(
                    (text::concat("SPT/user/mods/", norm.as_str()), "server"),
                ),
                Layout::BareServerLoose => {
                    let mut target = text::concat("SPT/user/mods/", mod_name);
                    target.append("/");
                    target.append(norm.as_str());
                    Some((target, "server"))
                },
                _ => Some((text::concat("BepInEx/plugins/", norm.as_str()), "client")),
            }
        },
    }
}

fn any_package(files: &[String]) -> (r: bool)
    ensures
        r == some_package(text::texts(files@)),
{
    let ghost fs = text::texts(files@);
    for i in 0..files.len()
        invariant
            fs == text::texts(files@),
            forall|j: int| 0 <= j < i ==> !is_package(#[trigger] fs[j]),
    {
        let ps = parts_of(files[i].as_str());
        let n: usize = ps.len();
        if n > 0 && text::same_ignoring_ascii_case(ps[n - 1].as_str(), "package.json") {
            assert(is_package(fs[i as int]));
            return true;
        }
    }
    false
}

fn any_ending(files: &[String], ext: &str) -> (r: bool)
    ensures
        r == some_ending(text::texts(files@), ext@),
{
    let ghost fs = text::texts(files@);
    for i in 0..files.len()
        invariant
            fs == text::texts(files@),
            forall|j: int| 0 <= j < i ==> !has_ending(#[trigger] fs[j], ext@),
    {
        let low = files[i].as_str().to_lowercase();
        if text::ends_with(low.as_str(), ext) {
            assert(has_ending(fs[i as int], ext@));
            return true;
        }
    }
    false
}

/// The layout of an archive with these files.
fn find_layout(files: &[String]) -> (r: Layout)
    ensures
        r == layout_of(text::texts(files@)),
{
    if is_anchored(files) {
        Layout::Anchored
    } else if any_package(files) {
        if common_top(files).is_some() {
            Layout::BareServerFolder
        } else {
            Layout::BareServerLoose
        }
    } else if any_ending(files, ".dll") {
        Layout::BareClient
    } else if any_ending(files, ".exe") {
        Layout::BareRoot
    } else {
        Layout::Empty
    }
}

fn name_of_layout(l: Layout) -> (r: &'static str)
    ensures
        r@ == mode_name(l),
{
    match l {
        Layout::Anchored => "anchored",
        Layout::BareServerFolder => "bare-server",
        Layout::BareServerLoose => "bare-server",
        Layout::BareClient => "bare-client",
        Layout::BareRoot => "bare-root",
        Layout::Empty => "empty",
    }
}

/// The entries that name files.
fn file_entries(names: &[String]) -> (r: Vec<String>)
    ensures
        text::texts(r@) == files_of(text::texts(names@)),
{
    let ghost all = text::texts(names@);
    let ghost keep = |n: Seq<char>| is_file_name(n);
    let mut r: Vec<String> = Vec::new();
    proof {
        text::lemma_filter_none(all, keep);
        assert(text::texts(r@) =~= Seq::empty());
    }
    for i in 0..names.len()
        invariant
            all == text::texts(names@),
            keep == (|n: Seq<char>| is_file_name(n)),
            text::texts(r@) == all.take(i as int).filter(keep),
    {
        let ghost before = text::texts(r@);
        proof {
            text::lemma_filter_next(all, keep, i as int);
            reveal_strlit("/");
            assert("/"@.is_suffix_of(all[i as int]) <==> !is_file_name(all[i as int])) by {
                let n = all[i as int];
                if n.len() > 0 {
                    let end = n.subrange(n.len() - 1, n.len() as int);
                    assert(end[0] == n.last());
                    assert("/"@[0] == '/');
                    if n.last() == '/' {
                        assert("/"@ =~= end);
                    }
                }
            }
        }
        if !text::ends_with(names[i].as_str(), "/") {
            r.push(names[i].clone());
            assert(text::texts(r@) =~= before.push(all[i as int]));
        }
    }
    assert(all.take(all.len() as int) =~= all);
    r
}

/// `r` is where every file among the entries goes, by the layout that the archive has.
pub open spec fn resolves(r: Resolution, names: Seq<Seq<char>>, mod_name: Seq<char>) -> bool {
    let files = files_of(names);
    let l = layout_of(files);
    &&& r.mode@ == mode_name(l)
    &&& mapped_views(r.mapped@) == placed(l, mod_name, files)
    &&& text::texts(r.unrecognized@) == unplaced(l, mod_name, files)
}

/// Where every file of an archive goes, by the layout that the archive has.
pub fn resolve_all(names: &[String], mod_name: &str) -> (r: Resolution)
    ensures
        resolves(r, text::texts(names@), mod_name@),
{
    let files = file_entries(names);
    let l = find_layout(files.as_slice());
    let ghost fs = text::texts(files@);
    let mut mapped: Vec<MappedFile> = Vec::new();
    let mut unrecognized: Vec<String> = Vec::new();
    assert(mapped_views(mapped@) =~= placed(l, mod_name@, fs.take(0)));
    assert(text::texts(unrecognized@) =~= unplaced(l, mod_name@, fs.take(0)));
    for i in 0..files.len()
        invariant
            fs == text::texts(files@),
            mapped_views(mapped@) == placed(l, mod_name@, fs.take(i as int)),
            text::texts(unrecognized@) == unplaced(l, mod_name@, fs.take(i as int)),
    {
        let ghost done = mapped_views(mapped@);
        let ghost left = text::texts(unrecognized@);
        assert(fs.take(i + 1).drop_last() =~= fs.take(i as int));
        match place_file(l, mod_name, files[i].as_str()) {
            Some((target, category)) => {
                mapped.push(
                    MappedFile {
                        original: files[i].clone(),
                        target,
                        category: text::owned(category),
                    },
                );
                assert(mapped_views(mapped@) =~= done.push(mapped@.last()@));
            },
            None => {
                unrecognized.push(files[i].clone());
                assert(text::texts(unrecognized@) =~= left.push(fs[i as int]));
            },
        }
    }
    assert(fs.take(fs.len() as int) =~= fs);
    Resolution { mode: name_of_layout(l), mapped, unrecognized }
}

fn any_category(mapped: &[MappedFile], category: &str) -> (r: bool)
    ensures
        r == has_category(mapped_views(mapped@), category@),
{
    let ghost ms = mapped_views(mapped@);
    for i in 0..mapped.len()
        invariant
            ms == mapped_views(mapped@),
            forall|j: int| 0 <= j < i ==> (#[trigger] ms[j]).category != category@,
    {
        if text::same(mapped[i].category.as_str(), category) {
            assert(ms[i as int].category == category@);
            return true;
        }
    }
    false
}

pub fn classify(mapped: &[MappedFile]) -> (r: String)
    ensures
        r@ == classification(mapped_views(mapped@)),
{
    let client = any_category(mapped, "client");
    let server = any_category(mapped, "server");
    if client && server {
        text::owned("mixed")
    } else if client {
        text::owned("client")
    } else if server {
        text::owned("server")
    } else {
        text::owned("unknown")
    }
}

} // verus!
