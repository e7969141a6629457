use vstd::prelude::*;

use crate::text::chars_of;

verus! {

/// A coalesced file-system change, with the paths it concerns.
pub enum WatchEvent {
    NoticeWrite(String),
    NoticeRemove(String),
    Create(String),
    Write(String),
    Chmod(String),
    Remove(String),
    Rename(String, String),
    Rescan,
    Error(String, Option<String>),
}

/// What the tailing loop does with an event.
#[derive(Debug, Clone, Copy, PartialEq, Eq, Structural)]
pub enum Action {
    /// The event concerns a file this host writes itself: drop it.
    Ignore,
    /// Announce the event and do nothing more.
    Report,
    /// Read the new lines of the event's file.
    ReadFile,
}

/// `needle` occurs in `hay` as a contiguous run.
pub open spec fn contains_seq(hay: Seq<char>, needle: Seq<char>) -> bool {
    exists|i: int|
        0 <= i && i + needle.len() <= hay.len() && #[trigger] hay.subrange(i, i + needle.len())
            == needle
}

impl WatchEvent {
    /// The paths the event names, the destination of a rename included.
    pub open spec fn paths(&self) -> Seq<Seq<char>> {
        match self {
            WatchEvent::NoticeWrite(p) => seq![p@],
            WatchEvent::NoticeRemove(p) => seq![p@],
            WatchEvent::Create(p) => seq![p@],
            WatchEvent::Write(p) => seq![p@],
            WatchEvent::Chmod(p) => seq![p@],
            WatchEvent::Remove(p) => seq![p@],
            WatchEvent::Rename(from, to) => seq![from@, to@],
            WatchEvent::Rescan => Seq::empty(),
            WatchEvent::Error(_, Some(p)) => seq![p@],
            WatchEvent::Error(_, None) => Seq::empty(),
        }
    }
}

/// Some path of the event holds the host's name.
pub open spec fn names_host(e: WatchEvent, host: Seq<char>) -> bool {
    exists|k: int| 0 <= k < e.paths().len() && contains_seq(#[trigger] e.paths()[k], host)
}

pub open spec fn route(e: WatchEvent, host: Seq<char>) -> Action {
    if names_host(e, host) {
        Action::Ignore
    } else if e is Write {
        Action::ReadFile
    } else {
        Action::Report
    }
}

/// Whether `path` holds the host's name, and so names a file this host writes.
pub fn should_skip(path: &str, host: &str) -> (r: bool)
    ensures
        r == contains_seq(path@, host@),
{
    let p = chars_of(path);
    let h = chars_of(host);
    if h.len() > p.len() {
        return false;
    }
    let last = p.len() - h.len();
    let mut i: usize = 0;
    while i <= last
        invariant
            p@ == path@,
            h@ == host@,
            last == p.len() - h.len(),
            forall|m: int| 0 <= m < i ==> #[trigger] p@.subrange(m, m + h.len()) != h@,
        decreases last + 1 - i,
    {
        let mut k: usize = 0;
        while k < h.len() && p[i + k] == h[k]
            invariant
                i <= last,
                last == p.len() - h.len(),
                k <= h.len(),
                forall|m: int| 0 <= m < k ==> p@[i + m] == h@[m],
            decreases h.len() - k,
        {
            k = k + 1;
        }
        if k == h.len() {
            proof {
                assert(p@.subrange(i as int, i + h.len()) =~= h@);
            }
            return true;
        }
        proof {
            assert(p@.subrange(i as int, i + h.len())[k as int] != h@[k as int]);
        }
        i = i + 1;
    }
    false
}

fn any_skipped(paths: &Vec<&String>, host: &str) -> (r: bool)
    ensures
        r == exists|k: int| 0 <= k < paths.len() && contains_seq(#[trigger] paths@[k]@, host@),
{
    let mut k: usize = 0;
    while k < paths.len()
        invariant
            k <= paths.len(),
            forall|m: int| 0 <= m < k ==> !contains_seq(#[trigger] paths@[m]@, host@),
        decreases paths.len() - k,
    {
        if should_skip(paths[k].as_str(), host) {
            return true;
        }
        k = k + 1;
    }
    false
}

/// Decides what to do with an event: drop it when any of its paths holds
/// the host's name, read the file on a write, announce it otherwise.
pub fn route_event(event: &WatchEvent, host: &str) -> (r: Action)
    ensures
        r == route(*event, host@),
{
    let paths: Vec<&String> = match event {
        WatchEvent::NoticeWrite(p) => vec![p],
        WatchEvent::NoticeRemove(p) => vec![p],
        WatchEvent::Create(p) => vec![p],
        WatchEvent::Write(p) => vec![p],
        WatchEvent::Chmod(p) => vec![p],
        WatchEvent::Remove(p) => vec![p],
        WatchEvent::Rename(from, to) => vec![from, to],
        WatchEvent::Rescan => vec![],
        WatchEvent::Error(_, Some(p)) => vec![p],
        WatchEvent::Error(_, None) => vec![],
    };
    proof {
        assert(paths@.map_values(|p: &String| p@) =~= event.paths());
        assert forall|k: int| 0 <= k < paths.len() implies #[trigger] paths@[k]@ == event.paths()[k] by {
            assert(paths@.map_values(|p: &String| p@)[k] == paths@[k]@);
        }
    }
    if any_skipped(&paths, host) {
        Action::Ignore
    } else {
        match event {
            WatchEvent::Write(_) => Action::ReadFile,
            _ => Action::Report,
        }
    }
}

/// An event any of whose paths holds the host's name never surfaces: it is
/// dropped, whatever its kind.
pub proof fn lemma_own_paths_never_surface(e: WatchEvent, host: Seq<char>, k: int)
    requires
        0 <= k < e.paths().len(),
        contains_seq(e.paths()[k], host),
    ensures
        route(e, host) == Action::Ignore,
{
}

} // verus!
