//! The game folder itself: whether it is one, which version is in it, and where a mod is shown.
use crate::json;
use crate::paths;
use crate::paths::Found;
use crate::text;
use vstd::prelude::*;

verus! {

/// What is told of a folder that may be the game folder.
pub struct SptRootCheck {
    pub valid: bool,
    pub note: String,
}

/// What was found of a game folder.
#[derive(Clone, Copy, PartialEq, Eq, Structural)]
pub struct RootSigns {
    pub is_dir: bool,
    /// There is a folder `SPT`.
    pub spt: bool,
    /// There is a folder `BepInEx`.
    pub bepinex: bool,
    /// There is a file `SPT.Launcher.exe`.
    pub launcher: bool,
    /// There is a file `EscapeFromTarkov.exe`.
    pub game: bool,
    /// There is a file `SPT.Server.exe`.
    pub server: bool,
}

pub open spec fn is_game_root(s: RootSigns) -> bool {
    s.is_dir && (s.spt || s.bepinex || s.launcher || s.game || s.server)
}

/// `r` tells whether a folder with these signs is the game folder.
pub open spec fn tells_root(r: SptRootCheck, signs: RootSigns) -> bool {
    &&& r.valid == is_game_root(signs)
    &&& r.note@ == if !signs.is_dir {
        "Folder does not exist."@
    } else if is_game_root(signs) {
        "Looks like a valid SPT install."@
    } else {
        "No SPT/, BepInEx/, or SPT executable found here. Make sure this is your SPT game folder."@
    }
}

pub fn validate_spt_root(signs: RootSigns) -> (r: SptRootCheck)
    ensures
        tells_root(r, signs),
{
    if !signs.is_dir {
        return SptRootCheck { valid: false, note: text::owned("Folder does not exist.") };
    }
    if signs.spt || signs.bepinex || signs.launcher || signs.game || signs.server {
        SptRootCheck { valid: true, note: text::owned("Looks like a valid SPT install.") }
    } else {
        SptRootCheck {
            valid: false,
            note: text::owned(
                "No SPT/, BepInEx/, or SPT executable found here. Make sure this is your SPT game folder.",
            ),
        }
    }
}

/// The first of the members that hold the version which is there as a string.
pub open spec fn version_member(j: json::JsonView) -> Option<Seq<char>> {
    if json::str_member(j, "sptVersion"@) is Some {
        json::str_member(j, "sptVersion"@)
    } else if json::str_member(j, "akiVersion"@) is Some {
        json::str_member(j, "akiVersion"@)
    } else {
        json::str_member(j, "version"@)
    }
}

/// The version that the text of a server configuration tells.
pub open spec fn version_in(config: Option<String>) -> Option<Seq<char>> {
    match config {
        Some(t) => match json::parsed(t@) {
            Ok(j) => version_member(j),
            Err(_) => None,
        },
        None => None,
    }
}

/// The version that the first of the configurations to tell one tells.
pub open spec fn first_version(configs: Seq<Option<String>>) -> Option<Seq<char>>
    decreases configs.len(),
{
    if configs.len() == 0 {
        None
    } else {
        match first_version(configs.drop_last()) {
            Some(v) => Some(v),
            None => version_in(configs.last()),
        }
    }
}

proof fn lemma_first_version_stays(configs: Seq<Option<String>>, n: int)
    requires
        0 <= n <= configs.len(),
        first_version(configs.take(n)) is Some,
    ensures
        first_version(configs) == first_version(configs.take(n)),
    decreases configs.len(),
{
    if n < configs.len() {
        assert(configs.drop_last().take(n) =~= configs.take(n));
        lemma_first_version_stays(configs.drop_last(), n);
    } else {
        assert(configs.take(n) =~= configs);
    }
}

/// The version that a parsed server configuration tells.
pub fn version_of(j: &json::Json) -> (r: Option<String>)
    ensures
        text::text_opt(r) == version_member(j@),
{
    match j.str_member("sptVersion") {
        Some(v) => Some(v),
        None => match j.str_member("akiVersion") {
            Some(v) => Some(v),
            None => j.str_member("version"),
        },
    }
}

/// The version of SPT, from the texts of the server configurations that can be read.
pub fn detect_spt_version(configs: &[Option<String>]) -> (r: Option<String>)
    ensures
        text::text_opt(r) == first_version(configs@),
{
    assert(configs@.take(0) =~= Seq::empty());
    for i in 0..configs.len()
        invariant
            first_version(configs@.take(i as int)) is None,
    {
        assert(configs@.take(i + 1).drop_last() =~= configs@.take(i as int));
        let told = match &configs[i] {
            Some(t) => match json::parse(t.as_str()) {
                Ok(j) => version_of(&j),
                Err(_) => None,
            },
            None => None,
        };
        if told.is_some() {
            proof {
                lemma_first_version_stays(configs@, i + 1);
            }
            return told;
        }
    }
    assert(configs@.take(configs@.len() as int) =~= configs@);
    None
}

/// What is shown of a mod: a folder, relative to the game root.
pub struct Opening {
    pub path: String,
    /// The folder around the path is shown, not what is at it.
    pub around: bool,
}

/// `r` is where the files of the mod at `rel` are shown.
pub open spec fn opens(
    r: Result<Opening, String>,
    rel: Seq<char>,
    live: Found,
    stored: Found,
) -> bool {
    if !paths::names_mod(rel) {
        r matches Err(e) && e@ == "Invalid mod path."@
    } else if live != Found::Nothing {
        r matches Ok(o) && o.path@ == rel && o.around == (live != Found::Folder)
    } else if stored != Found::Nothing {
        r matches Ok(o) && o.path@ == paths::in_store(rel) && o.around == (stored != Found::Folder)
    } else {
        r matches Err(e) && e@ == "Mod files not found."@
    }
}

/// Where the files of the mod at `rel_path` are shown: in the game folder or, where they are not
/// there, in the store of disabled mods. Of a file the folder around it is shown.
pub fn open_mod_folder(rel_path: &str, live: Found, stored: Found) -> (r: Result<Opening, String>)
    ensures
        opens(r, rel_path@, live, stored),
{
    match paths::check_mod_path(rel_path) {
        Ok(_) => {},
        Err(e) => return Err(e),
    }
    if live != Found::Nothing {
        Ok(Opening { path: text::owned(rel_path), around: live != Found::Folder })
    } else if stored != Found::Nothing {
        Ok(Opening { path: paths::stored_path(rel_path), around: stored != Found::Folder })
    } else {
        Err(text::owned("Mod files not found."))
    }
}

/// Whether a temporary file may be written to, where `inside` tells whether it lies in the folder
/// for temporary files.
pub fn check_temp(inside: bool) -> (r: Result<(), String>)
    ensures
        match r {
            Ok(_) => inside,
            Err(e) => !inside && e@ == "Refusing to write outside the temp folder."@,
        },
{
    if inside {
        Ok(())
    } else {
        Err(text::owned("Refusing to write outside the temp folder."))
    }
}

} // verus!
