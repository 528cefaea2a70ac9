//! The course of a download and of the installation that follows it: what to do next, whatever
//! comes in.
use crate::forge;
use crate::names;
use crate::text;
use vstd::prelude::*;

verus! {

/// How long, in milliseconds, an installation is waited for before it is looked at again.
pub const WAIT: u64 = 150;

/// `r` tells whether the answer with this HTTP status brings the download.
pub open spec fn brings(r: Result<(), String>, status: u16) -> bool {
    match r {
        Ok(_) => forge::is_success(status),
        Err(e) => !forge::is_success(status) && e@ == "Download failed: HTTP "@ + names::decimal(
            status as nat,
        ),
    }
}

/// Whether the answer with this HTTP status brings the download.
pub fn check_download(status: u16) -> (r: Result<(), String>)
    ensures
        brings(r, status),
{
    if 200 <= status && status <= 299 {
        Ok(())
    } else {
        let mut e = text::owned("Download failed: HTTP ");
        e.append(names::decimal_text(status as u128).as_str());
        Err(e)
    }
}

/// What comes in from a download.
pub enum Incoming {
    /// The next part of the file.
    Chunk,
    /// The download broke off; the text tells why.
    Failed(String),
    /// The file is complete.
    End,
}

/// What to do next about a download.
pub enum Action {
    /// Write the part that came in.
    Write,
    /// Install the file.
    Install,
    /// Delete the file and stop with this error. `clear` tells whether the wish to cancel is dealt
    /// with thereby.
    Abandon { message: String, clear: bool },
}

/// What is to be done about what comes in: a wish to cancel comes first.
pub open spec fn acts(r: Action, cancelled: bool, incoming: Incoming) -> bool {
    if cancelled {
        r matches Action::Abandon { message, clear } && message@ == "Cancelled"@ && clear
    } else {
        match incoming {
            Incoming::Chunk => r is Write,
            Incoming::Failed(e) => r matches Action::Abandon { message, clear } && message@
                == "Download error: "@ + e@ && !clear,
            Incoming::End => r is Install,
        }
    }
}

/// What to do about what comes in.
pub fn download_step(cancelled: bool, incoming: Incoming) -> (r: Action)
    ensures
        acts(r, cancelled, incoming),
{
    if cancelled {
        return Action::Abandon { message: text::owned("Cancelled"), clear: true };
    }
    match incoming {
        Incoming::Chunk => Action::Write,
        Incoming::Failed(e) => Action::Abandon {
            message: text::concat("Download error: ", e.as_str()),
            clear: false,
        },
        Incoming::End => Action::Install,
    }
}

/// How far a download has come.
#[derive(Clone, Copy, PartialEq, Eq, Structural)]
pub struct Progress {
    /// The bytes that were written.
    pub received: u64,
    /// When it was last told how far the download has come, in milliseconds.
    pub told: u128,
}

/// At the start nothing was written and nothing was told.
pub fn no_progress() -> (r: Progress)
    ensures
        r.received == 0,
        r.told == 0,
{
    Progress { received: 0, told: 0 }
}

/// It is time to tell again: more than 150 milliseconds have passed. On a clock that was set back
/// they count as passed.
pub open spec fn is_due(told: u128, now: u128) -> bool {
    if now >= told {
        now - told > 150
    } else {
        told - now <= u128::MAX - 150
    }
}

/// What is to be done once a part of a file was written or could not be.
pub enum Written {
    /// Go on from here; `tell` tells whether to tell how far the download has come.
    GoOn { progress: Progress, tell: bool },
    /// Delete the file and stop with this error.
    Abandon(String),
}

/// `r` is what is to be done once a part of `len` bytes was written or could not be.
pub open spec fn goes_on(
    r: Written,
    p: Progress,
    len: u64,
    outcome: Result<(), String>,
    now: u128,
) -> bool {
    match outcome {
        Ok(_) => r matches Written::GoOn { progress, tell } && progress.received == p.received + len
            && tell == is_due(p.told, now) && progress.told == if tell {
            now
        } else {
            p.told
        },
        Err(e) => r matches Written::Abandon(message) && message@ == "Write error: "@ + e@,
    }
}

/// What to do once a part of `len` bytes was written or could not be.
pub fn written_step(p: Progress, len: u64, outcome: Result<(), String>, now: u128) -> (r: Written)
    requires
        p.received + len <= u64::MAX,
    ensures
        goes_on(r, p, len, outcome, now),
{
    match outcome {
        Ok(_) => {
            let tell = if now >= p.told {
                now - p.told > 150
            } else {
                p.told - now <= u128::MAX - 150
            };
            let progress = Progress {
                received: p.received + len,
                told: if tell {
                    now
                } else {
                    p.told
                },
            };
            Written::GoOn { progress, tell }
        },
        Err(e) => Written::Abandon(text::concat("Write error: ", e.as_str())),
    }
}

/// What to do next about an installation that runs by itself.
pub enum Waiting {
    /// It is over: take its result.
    Take,
    /// Stop waiting, with this error.
    Abandon(String),
    /// Wait so many milliseconds.
    Sleep(u64),
}

/// How far an installation that runs by itself has come. Whoever waits for it and the installation
/// itself share the phase, and change it one at a time.
#[derive(Clone, Copy, PartialEq, Eq, Structural)]
pub enum Phase {
    /// Its archive is being unpacked, away from the game folder.
    Unpacking,
    /// It copies files into the game folder, or did so.
    Copying,
    /// It was given up before it copied a file.
    Abandoned,
}

/// What is to be done next about an installation that runs by itself, where `finished` tells
/// whether it is over.
pub open spec fn waits(r: Waiting, phase: Phase, finished: bool, cancelled: bool) -> bool {
    if finished {
        r is Take
    } else if phase == Phase::Abandoned || phase == Phase::Unpacking && cancelled {
        r matches Waiting::Abandon(message) && message@ == "Cancelled"@
    } else {
        r matches Waiting::Sleep(ms) && ms == WAIT
    }
}

/// The phase after a look at the installation: one that is given up is marked so.
pub open spec fn looked_at(phase: Phase, finished: bool, cancelled: bool) -> Phase {
    if phase == Phase::Unpacking && !finished && cancelled {
        Phase::Abandoned
    } else {
        phase
    }
}

/// The phase after the installation asked to start copying, its archive being unpacked.
pub open spec fn unpacked(phase: Phase) -> Phase {
    if phase == Phase::Unpacking {
        Phase::Copying
    } else {
        phase
    }
}

/// What to do next about an installation that runs by itself: a result that is there is taken, even
/// where it was asked to cancel; one that is still unpacking is given up where it was asked to
/// cancel; one that copies is waited for, since it can no longer leave the game folder untouched.
pub fn wait_step(phase: &mut Phase, finished: bool, cancelled: bool) -> (r: Waiting)
    ensures
        waits(r, *old(phase), finished, cancelled),
        *final(phase) == looked_at(*old(phase), finished, cancelled),
{
    if finished {
        return Waiting::Take;
    }
    match *phase {
        Phase::Copying => Waiting::Sleep(WAIT),
        Phase::Abandoned => Waiting::Abandon(text::owned("Cancelled")),
        Phase::Unpacking => {
            if cancelled {
                *phase = Phase::Abandoned;
                Waiting::Abandon(text::owned("Cancelled"))
            } else {
                Waiting::Sleep(WAIT)
            }
        },
    }
}

/// Whether an installation whose archive is unpacked goes on to copy files: not where it was given
/// up.
pub fn start_copying(phase: &mut Phase) -> (r: Result<(), String>)
    ensures
        *final(phase) == unpacked(*old(phase)),
        match r {
            Ok(_) => *final(phase) == Phase::Copying,
            Err(e) => *final(phase) == Phase::Abandoned && e@ == "Cancelled"@,
        },
{
    if *phase == Phase::Abandoned {
        return Err(text::owned("Cancelled"));
    }
    *phase = Phase::Copying;
    Ok(())
}

/// What happens between an installation that runs by itself and whoever waits for it.
#[derive(Clone, Copy, PartialEq, Eq, Structural)]
pub enum Event {
    /// It is looked at by whoever waits.
    Look { finished: bool, cancelled: bool },
    /// Its archive is unpacked, and it asks to start copying.
    Unpacked,
}

/// The phase of an installation after these events.
pub open spec fn phase_after(events: Seq<Event>) -> Phase
    decreases events.len(),
{
    if events.len() == 0 {
        Phase::Unpacking
    } else {
        let before = phase_after(events.drop_last());
        match events.last() {
            Event::Look { finished, cancelled } => looked_at(before, finished, cancelled),
            Event::Unpacked => unpacked(before),
        }
    }
}

/// The error of an installation that came to no result of its own.
pub fn task_error(e: &str) -> (r: String)
    ensures
        r@ == "Install task failed: "@ + e@,
{
    text::concat("Install task failed: ", e)
}

/// A cancelled download is neither written on nor installed.
pub proof fn law_cancelled_is_not_installed(r: Action, incoming: Incoming)
    requires
        acts(r, true, incoming),
    ensures
        r is Abandon,
{
}

/// Only a complete file is installed.
pub proof fn law_only_complete_files_are_installed(r: Action, cancelled: bool, incoming: Incoming)
    requires
        acts(r, cancelled, incoming),
        r is Install,
    ensures
        incoming is End,
        !cancelled,
{
}

proof fn lemma_phase_stays(events: Seq<Event>, i: int, j: int)
    requires
        0 <= i <= j <= events.len(),
        phase_after(events.take(i)) != Phase::Unpacking,
    ensures
        phase_after(events.take(j)) == phase_after(events.take(i)),
    decreases j - i,
{
    if i < j {
        lemma_phase_stays(events, i, j - 1);
        assert(events.take(j).drop_last() =~= events.take(j - 1));
    }
}

/// Aborting an installation leaves the game folder untouched: whatever happens, in whatever order,
/// where whoever waits is told after the first `i` events to give the installation up, it has not
/// started to copy files before that and does not start later.
pub proof fn law_abandoned_install_copies_nothing(
    events: Seq<Event>,
    i: int,
    w: Waiting,
    finished: bool,
    cancelled: bool,
    j: int,
)
    requires
        0 <= i < events.len(),
        events[i] == (Event::Look { finished, cancelled }),
        waits(w, phase_after(events.take(i)), finished, cancelled),
        w is Abandon,
        0 <= j <= events.len(),
    ensures
        w matches Waiting::Abandon(message) && message@ == "Cancelled"@,
        phase_after(events.take(j)) != Phase::Copying,
        i < j ==> phase_after(events.take(j)) == Phase::Abandoned,
{
    let next = events.take(i + 1);
    assert(next.drop_last() =~= events.take(i));
    assert(phase_after(next) == Phase::Abandoned);
    if i < j {
        lemma_phase_stays(events, i + 1, j);
    } else if phase_after(events.take(j)) == Phase::Copying {
        lemma_phase_stays(events, j, i);
    }
}

/// Aborting takes effect at the next look as long as the archive is being unpacked: where nobody
/// asked to start copying yet and the installation is not over, whoever waits is told to give it
/// up.
pub proof fn law_cancelled_while_unpacking_is_abandoned(events: Seq<Event>, w: Waiting)
    requires
        !events.contains(Event::Unpacked),
        waits(w, phase_after(events), false, true),
    ensures
        w matches Waiting::Abandon(message) && message@ == "Cancelled"@,
{
    lemma_no_copy_before_unpacked(events);
}

proof fn lemma_no_copy_before_unpacked(events: Seq<Event>)
    requires
        !events.contains(Event::Unpacked),
    ensures
        phase_after(events) != Phase::Copying,
    decreases events.len(),
{
    if events.len() > 0 {
        let before = events.drop_last();
        assert(events.contains(events.last()));
        if before.contains(Event::Unpacked) {
            let k = choose|k: int| 0 <= k < before.len() && before[k] == Event::Unpacked;
            assert(events[k] == Event::Unpacked);
        }
        lemma_no_copy_before_unpacked(before);
    }
}

/// An installation that started to copy is never reported as cancelled: whoever waits gets its
/// result, whatever else happens.
pub proof fn law_started_copy_is_not_cancelled(
    events: Seq<Event>,
    i: int,
    j: int,
    w: Waiting,
    finished: bool,
    cancelled: bool,
)
    requires
        0 <= i <= j <= events.len(),
        phase_after(events.take(i)) == Phase::Copying,
        waits(w, phase_after(events.take(j)), finished, cancelled),
    ensures
        w is Take <==> finished,
        w is Sleep <==> !finished,
{
    lemma_phase_stays(events, i, j);
}

} // verus!
