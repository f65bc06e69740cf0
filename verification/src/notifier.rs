//! Configuration of the notifier plugin, which matches events against
//! user rules and dispatches desktop notifications through a backend.
use vstd::prelude::*;
use crate::backend::Backend;
use crate::rules::Rule;

verus! {

pub const DEFAULT_DEBOUNCE_MS: u64 = 5000;

/// Configuration of the notifier plugin (`[plugins.notifier]`).
#[derive(Clone, Debug)]
pub struct NotifierConfig {
    /// Start the worker at process start.
    pub enabled_at_startup: bool,
    /// Preferred backend; `None` means probe the platform defaults.
    pub backend: Option<Backend>,
    /// Default debounce window in milliseconds.
    pub debounce_ms: u64,
    /// User-defined rules, in order.
    pub rule: Vec<Rule>,
    /// Bumped by the loader on every load so the worker recompiles.
    pub generation: u64,
}

impl Default for NotifierConfig {
    fn default() -> (r: Self)
        ensures
            !r.enabled_at_startup,
            r.backend is None,
            r.debounce_ms == DEFAULT_DEBOUNCE_MS,
            r.rule@.len() == 0,
            r.generation == 0,
    {
        NotifierConfig {
            enabled_at_startup: false,
            backend: None,
            debounce_ms: DEFAULT_DEBOUNCE_MS,
            rule: Vec::new(),
            generation: 0,
        }
    }
}

/// The plugin value registered with the plugin registry.
pub struct Notifier {
    pub config: NotifierConfig,
}

impl Notifier {
    pub fn new(config: NotifierConfig) -> (r: Self)
        ensures
            r.config == config,
    {
        Notifier { config }
    }

    /// The plugin's registry name.
    pub fn name(&self) -> (r: &'static str)
        ensures
            r@ == "notifier"@,
    {
        "notifier"
    }
}

/// The backend named in the configuration: `"auto"` (or no name) means
/// probe, the four backend names (kebab-case) select that backend, any
/// other name is an error naming the valid choices.
pub open spec fn backend_named(name: Seq<char>) -> Option<Option<Backend>> {
    if name == "auto"@ {
        Some(None)
    } else if name == "osascript"@ {
        Some(Some(Backend::Osascript))
    } else if name == "notify-send"@ {
        Some(Some(Backend::NotifySend))
    } else if name == "terminal-notifier"@ {
        Some(Some(Backend::TerminalNotifier))
    } else if name == "stderr"@ {
        Some(Some(Backend::Stderr))
    } else {
        None
    }
}

fn str_is(s: &str, lit: &str) -> (r: bool)
    ensures
        r == (s@ == lit@),
{
    let a = crate::text::chars_of(s);
    let b = crate::text::chars_of(lit);
    if a.len() != b.len() {
        assert(a@.len() != b@.len());
        return false;
    }
    let mut i: usize = 0;
    while i < a.len()
        invariant
            a@ == s@,
            b@ == lit@,
            a.len() == b.len(),
            i <= a.len(),
            forall|j: int| 0 <= j < i ==> a@[j] == b@[j],
        decreases a.len() - i,
    {
        if a[i] != b[i] {
            assert(a@[i as int] != b@[i as int]);
            assert(a@ != b@);
            return false;
        }
        i = i + 1;
    }
    assert(a@ =~= b@);
    true
}

/// Resolves the `backend` setting of `[plugins.notifier]`.
pub fn backend_from_name(name: &str) -> (r: Result<Option<Backend>, String>)
    ensures
        match backend_named(name@) {
            Some(b) => r == Ok::<Option<Backend>, String>(b),
            None => r is Err,
        },
{
    if str_is(name, "auto") {
        Ok(None)
    } else if str_is(name, "osascript") {
        Ok(Some(Backend::Osascript))
    } else if str_is(name, "notify-send") {
        Ok(Some(Backend::NotifySend))
    } else if str_is(name, "terminal-notifier") {
        Ok(Some(Backend::TerminalNotifier))
    } else if str_is(name, "stderr") {
        Ok(Some(Backend::Stderr))
    } else {
        let mut msg = String::from_str("unknown backend '");
        msg.append(name);
        msg.append("' — valid: osascript, notify-send, terminal-notifier, stderr, auto");
        Err(msg)
    }
}

} // verus!
