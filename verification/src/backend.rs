//! Desktop-notification backends of the notifier plugin and the choice
//! among them.
//!
//! Whether a backend can run on this host is found out by launching it
//! (`available`, outside this crate); [`Backend::probe`] decides from those
//! answers.
use vstd::prelude::*;

verus! {

/// Backend identity; `Stderr` is always available.
#[derive(Clone, Copy, Debug, PartialEq, Eq, Structural)]
pub enum Backend {
    Osascript,
    NotifySend,
    TerminalNotifier,
    Stderr,
}

/// Which launchable backends answered the availability probe on this
/// host (`Stderr` always does).
#[derive(Clone, Copy, Debug, PartialEq, Eq, Structural)]
pub struct Availability {
    pub osascript: bool,
    pub notify_send: bool,
    pub terminal_notifier: bool,
}

pub open spec fn is_available(a: Availability, b: Backend) -> bool {
    match b {
        Backend::Osascript => a.osascript,
        Backend::NotifySend => a.notify_send,
        Backend::TerminalNotifier => a.terminal_notifier,
        Backend::Stderr => true,
    }
}

/// First available backend of `candidates[i..]`, else `Stderr`.
pub open spec fn first_available(a: Availability, candidates: Seq<Backend>, i: int) -> Backend
    decreases candidates.len() - i,
{
    if i < 0 || i >= candidates.len() {
        Backend::Stderr
    } else if is_available(a, candidates[i]) {
        candidates[i]
    } else {
        first_available(a, candidates, i + 1)
    }
}

/// The backend chosen for a preference: the preferred one when it is
/// available, otherwise the first available platform default, otherwise
/// `Stderr`.
pub open spec fn probe_spec(preference: Option<Backend>, a: Availability, defaults: Seq<Backend>) -> Backend {
    match preference {
        Some(p) => if is_available(a, p) {
            p
        } else {
            first_available(a, defaults, 0)
        },
        None => first_available(a, defaults, 0),
    }
}

pub fn backend_available(a: &Availability, b: Backend) -> (r: bool)
    ensures
        r == is_available(*a, b),
{
    match b {
        Backend::Osascript => a.osascript,
        Backend::NotifySend => a.notify_send,
        Backend::TerminalNotifier => a.terminal_notifier,
        Backend::Stderr => true,
    }
}

impl Backend {
    /// Picks a backend: `preference` when available, otherwise the first
    /// available entry of `platform_defaults`, otherwise `Stderr`. Never
    /// fails.
    pub fn probe(preference: Option<Backend>, available: &Availability, platform_defaults: &Vec<Backend>) -> (r: Backend)
        ensures
            r == probe_spec(preference, *available, platform_defaults@),
    {
        if let Some(pref) = preference {
            if backend_available(available, pref) {
                return pref;
            }
        }
        let mut i: usize = 0;
        while i < platform_defaults.len()
            invariant
                i <= platform_defaults.len(),
                first_available(*available, platform_defaults@, 0) == first_available(*available, platform_defaults@, i as int),
                match preference {
                    Some(p) => !is_available(*available, p),
                    None => true,
                },
            decreases platform_defaults.len() - i,
        {
            if backend_available(available, platform_defaults[i]) {
                return platform_defaults[i];
            }
            i = i + 1;
        }
        Backend::Stderr
    }
}

/// The default probe order on an operating system (as named by
/// `std::env::consts::OS`): macOS tries `osascript`, then
/// `terminal-notifier`; Linux tries `notify-send`; `Stderr` closes every
/// list.
pub open spec fn platform_defaults_spec(os: Seq<char>) -> Seq<Backend> {
    if os == "macos"@ {
        seq![Backend::Osascript, Backend::TerminalNotifier, Backend::Stderr]
    } else if os == "linux"@ {
        seq![Backend::NotifySend, Backend::Stderr]
    } else {
        seq![Backend::Stderr]
    }
}

/// The default probe order on the operating system `os`.
pub fn platform_defaults(os: &str) -> (r: Vec<Backend>)
    ensures
        r@ == platform_defaults_spec(os@),
{
    let name = String::from_str(os);
    if name == String::from_str("macos") {
        vec![Backend::Osascript, Backend::TerminalNotifier, Backend::Stderr]
    } else if name == String::from_str("linux") {
        vec![Backend::NotifySend, Backend::Stderr]
    } else {
        vec![Backend::Stderr]
    }
}

/// In-memory record of dispatched `(title, body)` notifications, owned
/// by one holder. It is a plain value: it cannot be cloned, so there is
/// no second handle whose records it would miss, and it has no `==`.
/// A sink shared between threads, whose clones see one record list and
/// compare equal exactly when they are the same list, needs a lock and
/// pointer identity, which these contracts cannot state; the holder
/// wraps the sink in `Arc<Mutex<_>>` when it must share it.
#[derive(Debug)]
pub struct CaptureSink {
    pub records: Vec<(String, String)>,
}

impl CaptureSink {
    pub fn new() -> (r: Self)
        ensures
            r.records@.len() == 0,
    {
        CaptureSink { records: Vec::new() }
    }

    pub fn len(&self) -> (r: usize)
        ensures
            r == self.records@.len(),
    {
        self.records.len()
    }

    pub fn is_empty(&self) -> (r: bool)
        ensures
            r == (self.records@.len() == 0),
    {
        self.len() == 0
    }

    /// Records one dispatched notification.
    pub fn record(&mut self, title: String, body: String)
        ensures
            final(self).records@ == old(self).records@.push((title, body)),
    {
        self.records.push((title, body));
    }

    /// Copy of everything recorded so far, in dispatch order.
    pub fn snapshot(&self) -> (r: Vec<(String, String)>)
        ensures
            r@.len() == self.records@.len(),
            forall|i: int| 0 <= i < r@.len() ==> (#[trigger] r@[i]).0@ == self.records@[i].0@ && r@[i].1@ == self.records@[i].1@,
    {
        let mut out: Vec<(String, String)> = Vec::new();
        let mut i: usize = 0;
        while i < self.records.len()
            invariant
                i <= self.records.len(),
                out@.len() == i,
                forall|k: int| 0 <= k < i ==> (#[trigger] out@[k]).0@ == self.records@[k].0@ && out@[k].1@ == self.records@[k].1@,
            decreases self.records.len() - i,
        {
            out.push((self.records[i].0.clone(), self.records[i].1.clone()));
            i = i + 1;
        }
        out
    }
}

} // verus!
