//! Looking for newer versions of the mods that were installed from the Forge.
use crate::forge::Release;
use crate::manifest;
use crate::manifest::{Manifest, ManifestView};
use crate::text;
use crate::text::Separator;
use crate::version;
use vstd::prelude::*;

verus! {

/// A mod of the Forge as it was installed last.
pub struct InstalledMod {
    pub forge_id: u64,
    pub installed_at: u128,
    pub version: String,
    /// The first of its files, from which a name can be made.
    pub hint: String,
}

#[verifier::ext_equal]
pub struct InstalledView {
    pub forge_id: u64,
    pub installed_at: u128,
    pub version: Seq<char>,
    pub hint: Seq<char>,
}

impl View for InstalledMod {
    type V = InstalledView;

    open spec fn view(&self) -> InstalledView {
        InstalledView {
            forge_id: self.forge_id,
            installed_at: self.installed_at,
            version: self.version@,
            hint: self.hint@,
        }
    }
}

pub open spec fn installed_views(v: Seq<InstalledMod>) -> Seq<InstalledView> {
    v.map_values(|m: InstalledMod| m@)
}

/// The mod of the Forge that a manifest tells of, with its version.
pub open spec fn install_of(m: ManifestView) -> Option<InstalledView> {
    match (m.forge_id, m.forge_version) {
        (Some(id), Some(version)) => Some(
            InstalledView {
                forge_id: id,
                installed_at: m.installed_at,
                version,
                hint: if m.files.len() > 0 {
                    m.files[0]
                } else {
                    Seq::empty()
                },
            },
        ),
        _ => None,
    }
}

/// The last installation of the mod with this id: of those at the same time, the one whose
/// manifest comes last.
pub open spec fn newest(ms: Seq<ManifestView>, id: u64) -> Option<InstalledView>
    decreases ms.len(),
{
    if ms.len() == 0 {
        None
    } else {
        newer_of(newest(ms.drop_last(), id), install_of(ms.last()), id)
    }
}

/// What is the last installation, given the one so far and another one.
pub open spec fn newer_of(
    so_far: Option<InstalledView>,
    next: Option<InstalledView>,
    id: u64,
) -> Option<InstalledView> {
    match next {
        Some(n) => if n.forge_id != id {
            so_far
        } else {
            match so_far {
                Some(s) => if n.installed_at >= s.installed_at {
                    next
                } else {
                    so_far
                },
                None => next,
            }
        },
        None => so_far,
    }
}

/// `found` holds the last installation of every mod that has one, each mod once.
pub open spec fn holds_newest(found: Seq<InstalledView>, ms: Seq<ManifestView>) -> bool {
    &&& forall|i: int|
        0 <= i < found.len() ==> newest(ms, (#[trigger] found[i]).forge_id) == Some(found[i])
    &&& forall|i: int, j: int|
        0 <= i < j < found.len() ==> (#[trigger] found[i]).forge_id != (
        #[trigger] found[j]).forge_id
    &&& forall|id: u64|
        (#[trigger] newest(ms, id)) is Some ==> exists|i: int|
            0 <= i < found.len() && (#[trigger] found[i]).forge_id == id
}

fn read_install(m: &Manifest) -> (r: Option<InstalledMod>)
    ensures
        match r {
            Some(x) => install_of(m@) == Some(x@),
            None => install_of(m@) is None,
        },
{
    match (m.forge_id, &m.forge_version) {
        (Some(id), Some(version)) => {
            assert(m@.files.len() == m.files@.len());
            let hint = if m.files.len() > 0 {
                m.files[0].clone()
            } else {
                String::new()
            };
            let x = InstalledMod {
                forge_id: id,
                installed_at: m.installed_at,
                version: version.clone(),
                hint,
            };
            assert(install_of(m@)->0 =~= x@);
            Some(x)
        },
        _ => None,
    }
}

fn find_install(found: &[InstalledMod], id: u64) -> (r: Option<usize>)
    ensures
        match r {
            Some(i) => i < found@.len() && found@[i as int].forge_id == id,
            None => forall|i: int| 0 <= i < found@.len() ==> (#[trigger] found@[i]).forge_id != id,
        },
{
    for i in 0..found.len()
        invariant
            forall|j: int| 0 <= j < i ==> (#[trigger] found@[j]).forge_id != id,
    {
        if found[i].forge_id == id {
            return Some(i);
        }
    }
    None
}

/// The last installation of every mod of the Forge.
pub fn newest_installs(manifests: &[Manifest]) -> (r: Vec<InstalledMod>)
    ensures
        holds_newest(installed_views(r@), manifest::manifest_views(manifests@)),
{
    let ghost ms = manifest::manifest_views(manifests@);
    let mut r: Vec<InstalledMod> = Vec::new();
    assert(ms.take(0) =~= Seq::empty());
    for i in 0..manifests.len()
        invariant
            ms == manifest::manifest_views(manifests@),
            holds_newest(installed_views(r@), ms.take(i as int)),
    {
        let ghost before = ms.take(i as int);
        let ghost now = ms.take(i + 1);
        let ghost was = installed_views(r@);
        assert(now.drop_last() =~= before);
        assert(now.last() == manifests@[i as int]@);
        assert forall|id: u64| #[trigger] newest(now, id) == newer_of(
            newest(before, id),
            install_of(now.last()),
            id,
        ) by {}
        match read_install(&manifests[i]) {
            Some(x) => {
                let ghost new = x@;
                match find_install(r.as_slice(), x.forge_id) {
                    Some(k) => {
                        assert(was[k as int].forge_id == new.forge_id);
                        if x.installed_at >= r[k].installed_at {
                            r[k] = x;
                            assert(installed_views(r@) =~= was.update(k as int, new));
                        }
                        proof {
                            let f = installed_views(r@);
                            assert(f.len() == was.len());
                            assert(f[k as int].forge_id == new.forge_id);
                            assert forall|j: int| 0 <= j < f.len() implies newest(
                                now,
                                (#[trigger] f[j]).forge_id,
                            ) == Some(f[j]) by {
                                assert(was[j].forge_id == f[j].forge_id);
                            }
                            assert forall|a: int, b: int| 0 <= a < b < f.len() implies (
                            #[trigger] f[a]).forge_id != (#[trigger] f[b]).forge_id by {
                                assert(was[a].forge_id == f[a].forge_id);
                                assert(was[b].forge_id == f[b].forge_id);
                            }
                            assert forall|id: u64| (#[trigger] newest(now, id)) is Some implies exists|
                                j: int,
                            |
                                0 <= j < f.len() && (#[trigger] f[j]).forge_id == id by {
                                if newest(before, id) is Some {
                                    let j = choose|j: int|
                                        0 <= j < was.len() && (#[trigger] was[j]).forge_id == id;
                                    assert(f[j].forge_id == id);
                                } else {
                                    assert(f[k as int].forge_id == id);
                                }
                            }
                        }
                    },
                    None => {
                        proof {
                            assert forall|j: int| 0 <= j < was.len() implies (
                            #[trigger] was[j]).forge_id != new.forge_id by {
                                assert(r@[j].forge_id != new.forge_id);
                            }
                            assert(newest(before, new.forge_id) is None);
                        }
                        r.push(x);
                        proof {
                            let f = installed_views(r@);
                            assert(f =~= was.push(new));
                            assert forall|id: u64| (#[trigger] newest(now, id)) is Some implies exists|
                                j: int,
                            |
                                0 <= j < f.len() && (#[trigger] f[j]).forge_id == id by {
                                if newest(before, id) is Some {
                                    let j = choose|j: int|
                                        0 <= j < was.len() && (#[trigger] was[j]).forge_id == id;
                                    assert(f[j].forge_id == id);
                                } else {
                                    assert(f[was.len() as int].forge_id == id);
                                }
                            }
                        }
                    },
                }
            },
            None => {},
        }
    }
    assert(ms.take(ms.len() as int) =~= ms);
    r
}

/// The newest installation wins: it is one of the installations of the mod, and none of them is
/// later.
pub proof fn law_newest_install_wins(ms: Seq<ManifestView>, id: u64)
    ensures
        match newest(ms, id) {
            Some(x) => {
                &&& x.forge_id == id
                &&& exists|i: int| 0 <= i < ms.len() && install_of(#[trigger] ms[i]) == Some(x)
                &&& forall|i: int|
                    0 <= i < ms.len() && (install_of(#[trigger] ms[i]) matches Some(y) && y.forge_id
                        == id) ==> install_of(ms[i])->0.installed_at <= x.installed_at
            },
            None => forall|i: int|
                0 <= i < ms.len() ==> !(install_of(#[trigger] ms[i]) matches Some(y) && y.forge_id
                    == id),
        },
    decreases ms.len(),
{
    if ms.len() > 0 {
        let before = ms.drop_last();
        law_newest_install_wins(before, id);
        assert forall|i: int| 0 <= i < before.len() implies #[trigger] ms[i] == before[i] by {}
        match newest(ms, id) {
            Some(x) => {
                if newest(before, id) == Some(x) {
                    let i = choose|i: int|
                        0 <= i < before.len() && install_of(#[trigger] before[i]) == Some(x);
                    assert(install_of(ms[i]) == Some(x));
                } else {
                    assert(install_of(ms[ms.len() - 1]) == Some(x));
                }
            },
            None => {},
        }
    }
}

/// A newer version of an installed mod.
pub struct UpdateInfo {
    pub forge_id: u64,
    pub name: String,
    pub installed_version: String,
    pub latest_version: String,
    pub link: String,
    pub size: Option<u64>,
    pub changelog: Option<String>,
}

#[verifier::ext_equal]
pub struct UpdateView {
    pub forge_id: u64,
    pub name: Seq<char>,
    pub installed_version: Seq<char>,
    pub latest_version: Seq<char>,
    pub link: Seq<char>,
    pub size: Option<u64>,
    pub changelog: Option<Seq<char>>,
}

impl View for UpdateInfo {
    type V = UpdateView;

    open spec fn view(&self) -> UpdateView {
        UpdateView {
            forge_id: self.forge_id,
            name: self.name@,
            installed_version: self.installed_version@,
            latest_version: self.latest_version@,
            link: self.link@,
            size: self.size,
            changelog: text::text_opt(self.changelog),
        }
    }
}

/// The name of a mod, from the path of one of its files: the folder or file under the mod folder.
pub open spec fn display_name(hint: Seq<char>) -> Seq<char> {
    let ps = text::split(hint, Separator::Slash);
    let at: int = if "SPT/user/mods/"@.is_prefix_of(hint) {
        3
    } else {
        2
    };
    if at < ps.len() {
        ps[at]
    } else {
        hint
    }
}

pub fn shown_name(hint: &str) -> (r: String)
    ensures
        r@ == display_name(hint@),
{
    let ps = text::split_text(hint, Separator::Slash);
    assert(text::texts(ps@).len() == ps@.len());
    let at: usize = if text::starts_with(hint, "SPT/user/mods/") {
        3
    } else {
        2
    };
    if at < ps.len() {
        assert(text::texts(ps@)[at as int] == ps@[at as int]@);
        ps[at].clone()
    } else {
        text::owned(hint)
    }
}

/// The update that an installed mod has, given what looking it up gave.
pub open spec fn update(m: InstalledView, found: Result<Option<Release>, String>) -> Option<
    UpdateView,
> {
    match found {
        Ok(Some(latest)) => if version::newer(
            version::version(latest@.version),
            version::version(m.version),
        ) {
            Some(
                UpdateView {
                    forge_id: m.forge_id,
                    name: display_name(m.hint),
                    installed_version: m.version,
                    latest_version: latest@.version,
                    link: latest@.link,
                    size: latest@.size,
                    changelog: latest@.changelog,
                },
            )
        } else {
            None
        },
        _ => None,
    }
}

/// The update that an installed mod has; none where its latest version is not newer or could not be
/// found out.
pub fn update_for(m: InstalledMod, found: Result<Option<Release>, String>) -> (r: Option<UpdateInfo>)
    ensures
        match r {
            Some(u) => update(m@, found) == Some(u@),
            None => update(m@, found) is None,
        },
{
    let ghost installed = m@;
    match found {
        Ok(Some(latest)) => {
            if version::version_gt(latest.version.as_str(), m.version.as_str()) {
                let name = shown_name(m.hint.as_str());
                let u = UpdateInfo {
                    forge_id: m.forge_id,
                    name,
                    installed_version: m.version,
                    latest_version: latest.version,
                    link: latest.link,
                    size: latest.size,
                    changelog: latest.changelog,
                };
                assert(update(installed, found)->0 =~= u@);
                Some(u)
            } else {
                None
            }
        },
        _ => None,
    }
}

/// Once the offered version is installed, it is not offered again.
pub proof fn law_update_is_offered_once(
    m: InstalledView,
    found: Result<Option<Release>, String>,
    later: u128,
    hint: Seq<char>,
)
    requires
        update(m, found) is Some,
    ensures
        update(
            InstalledView {
                forge_id: m.forge_id,
                installed_at: later,
                version: update(m, found)->0.latest_version,
                hint,
            },
            found,
        ) is None,
{
    version::law_no_version_is_newer_than_itself(
        version::version(update(m, found)->0.latest_version),
    );
}

/// Updates only go forward: what is offered is newer than what is installed, and going back from
/// it is not offered.
pub proof fn law_updates_go_forward(m: InstalledView, found: Result<Option<Release>, String>)
    requires
        update(m, found) is Some,
    ensures
        ({
            let u = update(m, found)->0;
            &&& version::newer(
                version::version(u.latest_version),
                version::version(u.installed_version),
            )
            &&& !version::newer(
                version::version(u.installed_version),
                version::version(u.latest_version),
            )
        }),
{
    let u = update(m, found)->0;
    version::law_newer_is_one_way(
        version::version(u.latest_version),
        version::version(u.installed_version),
    );
}

} // verus!
