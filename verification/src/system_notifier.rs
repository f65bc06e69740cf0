//! Configuration of the System Notifier plugin (one user-supplied conduit
//! program that receives every matching event), and the shared handle
//! through which a running worker observes hot-reloaded configuration.
use vstd::prelude::*;
use std::sync::{Arc, RwLock};
use crate::text::{chars_of, trim_bounds};

verus! {

pub const DEFAULT_DEBOUNCE_MS: u64 = 5000;

pub const DEFAULT_TIMEOUT_MS: u64 = 5000;

/// Configuration of the System Notifier plugin.
#[derive(Clone, Debug)]
pub struct SystemNotifierConfig {
    /// Start the worker at process start (`enabled` in the TOML table).
    pub enabled_at_startup: bool,
    /// Path to the user-provided conduit program; `~` and `${VAR}` are
    /// expanded at invocation time.
    pub conduit: String,
    /// Extra positional arguments for the conduit.
    pub conduit_args: Vec<String>,
    /// Event-type filter; empty means every type.
    pub on: Vec<String>,
    /// Title template, `{kind}` by default.
    pub title: String,
    /// Body template, empty by default.
    pub body: String,
    /// Debounce window in milliseconds.
    pub debounce_ms: u64,
    /// Per-invocation wall-clock timeout in milliseconds.
    pub conduit_timeout_ms: u64,
    /// Bumped by the loader on every load so workers re-snapshot.
    pub generation: u64,
}

/// The default title template, `{kind}`.
pub open spec fn default_title() -> Seq<char> {
    seq!['{', 'k', 'i', 'n', 'd', '}']
}

pub fn default_title_string() -> (r: String)
    ensures
        r@ == default_title(),
{
    let v: Vec<char> = vec!['{', 'k', 'i', 'n', 'd', '}'];
    assert(v@ =~= default_title());
    crate::text::string_of(v.as_slice())
}

impl Default for SystemNotifierConfig {
    fn default() -> (r: Self)
        ensures
            !r.enabled_at_startup,
            r.conduit@.len() == 0,
            r.conduit_args@.len() == 0,
            r.on@.len() == 0,
            r.title@ == default_title(),
            r.body@.len() == 0,
            r.debounce_ms == DEFAULT_DEBOUNCE_MS,
            r.conduit_timeout_ms == DEFAULT_TIMEOUT_MS,
            r.generation == 0,
    {
        SystemNotifierConfig {
            enabled_at_startup: false,
            conduit: String::new(),
            conduit_args: Vec::new(),
            on: Vec::new(),
            title: default_title_string(),
            body: String::new(),
            debounce_ms: DEFAULT_DEBOUNCE_MS,
            conduit_timeout_ms: DEFAULT_TIMEOUT_MS,
            generation: 0,
        }
    }
}

/// The message of a failed [`SystemNotifierConfig::validate`].
pub open spec fn conduit_required_message() -> Seq<char> {
    "conduit is required when system_notifier.enabled = true"@
}

impl SystemNotifierConfig {
    /// An enabled plugin needs a conduit that is not blank.
    pub fn validate(&self) -> (r: Result<(), String>)
        ensures
            r is Err <==> (self.enabled_at_startup && crate::text::trim(self.conduit@).len() == 0),
            r matches Err(m) ==> m@ == conduit_required_message(),
    {
        if self.enabled_at_startup {
            let cs = chars_of(self.conduit.as_str());
            let (s, e) = trim_bounds(&cs);
            if s == e {
                return Err(String::from_str("conduit is required when system_notifier.enabled = true"));
            }
        }
        Ok(())
    }
}

/// The worker's view of the configuration: shared with the loader, which
/// replaces it on hot reload.
pub struct SystemNotifier {
    pub config: Arc<RwLock<SystemNotifierConfig>>,
}

#[verifier::external_type_specification]
#[verifier::external_body]
#[verifier::reject_recursive_types(T)]
pub struct ExRwLock<T: ?Sized>(RwLock<T>);

/// The configuration a lock was made with (the argument of `RwLock::new`).
/// It is fixed for the lock's lifetime; what the lock holds later may
/// differ, since writers replace it.
pub uninterp spec fn made_with(lock: RwLock<SystemNotifierConfig>) -> SystemNotifierConfig;

/// A lock holding `config` (`RwLock::new`): it was made with `config`.
#[verifier::external_body]
fn new_lock(config: SystemNotifierConfig) -> (r: RwLock<SystemNotifierConfig>)
    ensures
        made_with(r) == config,
{
    RwLock::new(config)
}

/// A copy of the configuration currently behind the lock, or `None` when
/// the lock is poisoned (`RwLock::read`, then `Clone::clone`). Another
/// thread may replace it at any time, so nothing is stated of the copy.
#[verifier::external_body]
pub(crate) fn read_config(shared: &Arc<RwLock<SystemNotifierConfig>>) -> (r: Option<SystemNotifierConfig>) {
    match shared.read() {
        Ok(g) => Some(g.clone()),
        Err(_) => None,
    }
}

impl SystemNotifier {
    /// A notifier whose shared configuration starts out as `config`.
    pub fn new(config: SystemNotifierConfig) -> (r: Self)
        ensures
            made_with(*r.config) == config,
    {
        SystemNotifier { config: Arc::new(new_lock(config)) }
    }

    pub fn from_shared(config: Arc<RwLock<SystemNotifierConfig>>) -> (r: Self)
        ensures
            r.config == config,
    {
        SystemNotifier { config }
    }

    /// The plugin's registry name.
    pub fn name(&self) -> (r: &'static str)
        ensures
            r@ == "system_notifier"@,
    {
        "system_notifier"
    }

    /// Another handle to the same shared configuration.
    pub fn shared(&self) -> (r: Arc<RwLock<SystemNotifierConfig>>)
        ensures
            r == self.config,
    {
        Arc::clone(&self.config)
    }
}

/// Takes a freshly read configuration into the worker's snapshot when its
/// generation differs from the last one seen; otherwise keeps the
/// snapshot.
pub fn adopt_if_changed(current: SystemNotifierConfig, snapshot: &mut SystemNotifierConfig, last_generation: &mut u64)
    ensures
        current.generation == *old(last_generation) ==> *final(snapshot) == *old(snapshot) && *final(last_generation) == *old(last_generation),
        current.generation != *old(last_generation) ==> *final(snapshot) == current && *final(last_generation) == current.generation,
{
    if current.generation == *last_generation {
        return;
    }
    *last_generation = current.generation;
    *snapshot = current;
}

/// Refreshes the snapshot from the shared configuration when its
/// generation counter advanced; keeps it when the lock is poisoned.
pub fn refresh_if_changed(shared: &Arc<RwLock<SystemNotifierConfig>>, snapshot: &mut SystemNotifierConfig, last_generation: &mut u64)
    ensures
        *final(last_generation) == *old(last_generation) ==> *final(snapshot) == *old(snapshot),
        *final(last_generation) != *old(last_generation) ==> final(snapshot).generation == *final(last_generation),
{
    match read_config(shared) {
        Some(c) => adopt_if_changed(c, snapshot, last_generation),
        None => {},
    }
}

} // verus!
