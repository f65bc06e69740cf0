//! The `[events]` and `[plugins.*]` configuration: its schema, how the
//! main `config.toml` and the `plugins.d/*.toml` drop-ins are merged, how
//! the merged file becomes the engine-side configuration, and when a hot
//! reload is due.
//!
//! Reading and parsing the files happens outside this crate; each read is
//! handed in as a [`SourceFile`] (the parsed file and its modification time,
//! or the error message). Parse errors are data: a file that fails to
//! read or parse is reported in the returned error list and contributes
//! nothing.
use vstd::prelude::*;
use crate::interpolation::{env_map, expand_spec, expand_with, join_path, opt_view, path_join};
use crate::notifier::{NotifierConfig, DEFAULT_DEBOUNCE_MS as NOTIFIER_DEBOUNCE_MS};
use crate::system_notifier::{SystemNotifierConfig, default_title, DEFAULT_DEBOUNCE_MS, DEFAULT_TIMEOUT_MS};
use crate::text::{chars_of, string_of};

verus! {

/// Default per-connection backlog depth of the events socket.
pub const DEFAULT_BACKLOG: usize = 256;

/// `[events]` table.
#[derive(Clone, Debug)]
pub struct EventsConfig {
    /// Whether the publisher is enabled at startup (off by default).
    pub enabled: bool,
    /// Socket path before interpolation; `None` lets the socket-path
    /// resolver pick the default.
    pub socket: Option<String>,
    /// Per-connection NDJSON backlog depth.
    pub backlog: usize,
}

impl Default for EventsConfig {
    fn default() -> (r: Self)
        ensures
            !r.enabled,
            r.socket is None,
            r.backlog == DEFAULT_BACKLOG,
    {
        EventsConfig { enabled: false, socket: None, backlog: DEFAULT_BACKLOG }
    }
}

/// `[plugins.*]` tables; an absent table is `None`.
#[derive(Clone, Debug)]
pub struct PluginsTable {
    pub notifier: Option<NotifierConfig>,
    pub system_notifier: Option<SystemNotifierConfig>,
}

/// A parsed configuration file.
#[derive(Clone, Debug)]
pub struct ConfigFile {
    pub events: EventsConfig,
    pub plugins: PluginsTable,
}

impl Default for ConfigFile {
    fn default() -> (r: Self)
        ensures
            !r.events.enabled,
            r.events.socket is None,
            r.events.backlog == DEFAULT_BACKLOG,
            r.plugins.notifier is None,
            r.plugins.system_notifier is None,
    {
        ConfigFile {
            events: EventsConfig::default(),
            plugins: PluginsTable { notifier: None, system_notifier: None },
        }
    }
}

/// Engine-side plugin configuration consumed by the plugin registry.
#[derive(Clone, Debug)]
pub struct PluginsConfig {
    pub notifier: NotifierConfig,
    pub system_notifier: SystemNotifierConfig,
}

impl Default for PluginsConfig {
    fn default() -> (r: Self)
        ensures
            is_default_plugins(r),
    {
        PluginsConfig { notifier: NotifierConfig::default(), system_notifier: SystemNotifierConfig::default() }
    }
}

/// One file that failed to read or parse.
#[derive(Clone, Debug)]
pub struct LoadError {
    pub path: String,
    pub message: String,
}

/// Result of a load.
#[derive(Clone, Debug)]
pub struct LoadedConfig {
    /// Merged `[events]` table (socket not yet interpolated).
    pub events: EventsConfig,
    /// Interpolated socket path, `None` when the configuration sets none.
    pub resolved_socket: Option<String>,
    /// Engine-side plugin configuration.
    pub plugins: PluginsConfig,
    /// The main `config.toml`, when it was read successfully.
    pub source_path: Option<String>,
    /// Every file that contributed (main first, then drop-ins in order).
    pub contributing_paths: Vec<String>,
    /// Latest modification time (nanoseconds since the epoch) across the
    /// contributing files.
    pub mtime: Option<u128>,
    /// Directory holding `config.toml` and `plugins.d/`.
    pub config_dir: String,
    /// File reading and reload polling are suppressed.
    pub skip_files: bool,
}

/// The outcome of reading and parsing one file: the parsed file with its
/// modification time, or the error message.
#[derive(Debug)]
pub struct SourceFile {
    pub path: String,
    pub parsed: Result<(ConfigFile, Option<u128>), String>,
}

/// The files read for one load: the main file, when one was read, and
/// the drop-ins in sorted order.
#[derive(Debug)]
pub struct LoadSources {
    pub main: Option<SourceFile>,
    pub drop_ins: Vec<SourceFile>,
}

/// Values the `${VAR}`, `${UID}` and `~` placeholders expand to.
#[derive(Clone, Debug)]
pub struct ExpansionEnv {
    pub vars: Vec<(String, String)>,
    pub uid: Option<String>,
    pub home: Option<String>,
}

pub open spec fn expand_in(raw: Seq<char>, env: ExpansionEnv) -> Seq<char> {
    expand_spec(raw, env_map(env.vars@), opt_view(env.uid), opt_view(env.home))
}

// ---------------------------------------------------------------------
// Overlay of a drop-in onto the merged file
// ---------------------------------------------------------------------

/// `[events]` after an overlay: a scalar of the overlay wins when it
/// differs from its default.
pub open spec fn events_overlay(b: EventsConfig, n: EventsConfig) -> EventsConfig {
    EventsConfig {
        enabled: b.enabled || n.enabled,
        socket: if n.socket is Some {
            n.socket
        } else {
            b.socket
        },
        backlog: if n.backlog != DEFAULT_BACKLOG {
            n.backlog
        } else {
            b.backlog
        },
    }
}

/// `[plugins.notifier]` after an overlay: a table appears whole when the
/// base had none; otherwise non-default scalars override and rules are
/// appended.
pub open spec fn notifier_overlay(b: Option<NotifierConfig>, n: Option<NotifierConfig>, r: Option<NotifierConfig>) -> bool {
    match n {
        None => r == b,
        Some(o) => match b {
            None => r == Some(o),
            Some(x) => match r {
                None => false,
                Some(y) => {
                    &&& y.enabled_at_startup == (x.enabled_at_startup || o.enabled_at_startup)
                    &&& y.backend == (if o.backend is Some {
                        o.backend
                    } else {
                        x.backend
                    })
                    &&& y.debounce_ms == (if o.debounce_ms != NOTIFIER_DEBOUNCE_MS {
                        o.debounce_ms
                    } else {
                        x.debounce_ms
                    })
                    &&& y.rule@ == x.rule@ + o.rule@
                    &&& y.generation == x.generation
                },
            },
        },
    }
}

/// `[plugins.system_notifier]` after an overlay: a table appears whole when
/// the base had none; otherwise each scalar or list of the overlay that
/// differs from its default overrides.
pub open spec fn system_notifier_overlay(b: Option<SystemNotifierConfig>, n: Option<SystemNotifierConfig>, r: Option<SystemNotifierConfig>) -> bool {
    match n {
        None => r == b,
        Some(o) => match b {
            None => r == Some(o),
            Some(x) => match r {
                None => false,
                Some(y) => {
                    &&& y.enabled_at_startup == (x.enabled_at_startup || o.enabled_at_startup)
                    &&& y.conduit == (if o.conduit@.len() != 0 {
                        o.conduit
                    } else {
                        x.conduit
                    })
                    &&& y.conduit_args == (if o.conduit_args@.len() != 0 {
                        o.conduit_args
                    } else {
                        x.conduit_args
                    })
                    &&& y.on == (if o.on@.len() != 0 {
                        o.on
                    } else {
                        x.on
                    })
                    &&& y.title == (if o.title@ != default_title() {
                        o.title
                    } else {
                        x.title
                    })
                    &&& y.body == (if o.body@.len() != 0 {
                        o.body
                    } else {
                        x.body
                    })
                    &&& y.debounce_ms == (if o.debounce_ms != DEFAULT_DEBOUNCE_MS {
                        o.debounce_ms
                    } else {
                        x.debounce_ms
                    })
                    &&& y.conduit_timeout_ms == (if o.conduit_timeout_ms != DEFAULT_TIMEOUT_MS {
                        o.conduit_timeout_ms
                    } else {
                        x.conduit_timeout_ms
                    })
                    &&& y.generation == x.generation
                },
            },
        },
    }
}

/// `r` is `b` with the drop-in `n` overlaid.
pub open spec fn overlaid(b: ConfigFile, n: ConfigFile, r: ConfigFile) -> bool {
    &&& r.events == events_overlay(b.events, n.events)
    &&& notifier_overlay(b.plugins.notifier, n.plugins.notifier, r.plugins.notifier)
    &&& system_notifier_overlay(b.plugins.system_notifier, n.plugins.system_notifier, r.plugins.system_notifier)
}

fn is_default_title(t: &String) -> (r: bool)
    ensures
        r == (t@ == default_title()),
{
    let c = chars_of(t.as_str());
    let r = c.len() == 6 && c[0] == '{' && c[1] == 'k' && c[2] == 'i' && c[3] == 'n' && c[4] == 'd' && c[5] == '}';
    proof {
        if r {
            assert(c@ =~= default_title());
        } else if t@ == default_title() {
            assert(c@.len() == 6);
            assert(c@[0] == '{' && c@[1] == 'k' && c@[2] == 'i' && c@[3] == 'n' && c@[4] == 'd' && c@[5] == '}');
        }
    }
    r
}

/// Overlays the drop-in `next` onto `base`: scalars override when the
/// overlay differs from the default (so re-setting a default in a drop-in
/// is a no-op), notifier rules append.
pub fn merge_overlay(base: &mut ConfigFile, next: ConfigFile)
    ensures
        overlaid(*old(base), next, *final(base)),
{
    let ConfigFile { events: ne, plugins: np } = next;
    if ne.enabled {
        base.events.enabled = true;
    }
    if ne.socket.is_some() {
        base.events.socket = ne.socket;
    }
    if ne.backlog != DEFAULT_BACKLOG {
        base.events.backlog = ne.backlog;
    }
    let PluginsTable { notifier: nn, system_notifier: ns } = np;
    match nn {
        None => {},
        Some(o) => {
            let cur = base.plugins.notifier.take();
            match cur {
                None => {
                    base.plugins.notifier = Some(o);
                },
                Some(mut existing) => {
                    let NotifierConfig { enabled_at_startup, backend, debounce_ms, rule, generation: _ } = o;
                    if enabled_at_startup {
                        existing.enabled_at_startup = true;
                    }
                    if backend.is_some() {
                        existing.backend = backend;
                    }
                    if debounce_ms != NOTIFIER_DEBOUNCE_MS {
                        existing.debounce_ms = debounce_ms;
                    }
                    let mut more = rule;
                    existing.rule.append(&mut more);
                    base.plugins.notifier = Some(existing);
                },
            }
        },
    }
    match ns {
        None => {},
        Some(o) => {
            let cur = base.plugins.system_notifier.take();
            match cur {
                None => {
                    base.plugins.system_notifier = Some(o);
                },
                Some(mut existing) => {
                    let default_title_here = is_default_title(&o.title);
                    let SystemNotifierConfig {
                        enabled_at_startup,
                        conduit,
                        conduit_args,
                        on,
                        title,
                        body,
                        debounce_ms,
                        conduit_timeout_ms,
                        generation: _,
                    } = o;
                    if enabled_at_startup {
                        existing.enabled_at_startup = true;
                    }
                    if !conduit.as_str().is_empty() {
                        existing.conduit = conduit;
                    }
                    if conduit_args.len() != 0 {
                        existing.conduit_args = conduit_args;
                    }
                    if on.len() != 0 {
                        existing.on = on;
                    }
                    if !default_title_here {
                        existing.title = title;
                    }
                    if !body.as_str().is_empty() {
                        existing.body = body;
                    }
                    if debounce_ms != DEFAULT_DEBOUNCE_MS {
                        existing.debounce_ms = debounce_ms;
                    }
                    if conduit_timeout_ms != DEFAULT_TIMEOUT_MS {
                        existing.conduit_timeout_ms = conduit_timeout_ms;
                    }
                    base.plugins.system_notifier = Some(existing);
                },
            }
        },
    }
}

// ---------------------------------------------------------------------
// Rendering the merged file, modification times, directories
// ---------------------------------------------------------------------

/// The later of two optional modification times.
pub open spec fn later_mtime(a: Option<u128>, b: Option<u128>) -> Option<u128> {
    match (a, b) {
        (Some(x), Some(y)) => Some(if x > y { x } else { y }),
        (Some(x), None) => Some(x),
        (None, Some(y)) => Some(y),
        (None, None) => None,
    }
}

pub fn merge_mtime(prev: Option<u128>, next: Option<u128>) -> (r: Option<u128>)
    ensures
        r == later_mtime(prev, next),
{
    match (prev, next) {
        (Some(a), Some(b)) => Some(if a > b { a } else { b }),
        (Some(a), None) => Some(a),
        (None, Some(b)) => Some(b),
        (None, None) => None,
    }
}

/// `loaded` after taking in the merged file `cf`: the socket is
/// interpolated, `[events]` replaces the old table, and each plugin table
/// that is present replaces the engine-side configuration with its
/// generation bumped (wrapping).
pub open spec fn applied(old: LoadedConfig, cf: ConfigFile, env: ExpansionEnv, new: LoadedConfig) -> bool {
    &&& new.events == cf.events
    &&& opt_view(new.resolved_socket) == (match cf.events.socket {
        Some(raw) => Some(expand_in(raw@, env)),
        None => None,
    })
    &&& match cf.plugins.notifier {
        None => new.plugins.notifier == old.plugins.notifier,
        Some(n) => new.plugins.notifier == (NotifierConfig { generation: (if n.generation == u64::MAX { 0 } else { (n.generation + 1) as u64 }), ..n }),
    }
    &&& match cf.plugins.system_notifier {
        None => new.plugins.system_notifier == old.plugins.system_notifier,
        Some(s) => new.plugins.system_notifier == (SystemNotifierConfig { generation: (if s.generation == u64::MAX { 0 } else { (s.generation + 1) as u64 }), ..s }),
    }
    &&& new.source_path == old.source_path
    &&& new.contributing_paths == old.contributing_paths
    &&& new.mtime == old.mtime
    &&& new.config_dir == old.config_dir
    &&& new.skip_files == old.skip_files
}

pub fn apply_to_loaded(loaded: &mut LoadedConfig, cf: ConfigFile, env: &ExpansionEnv)
    ensures
        applied(*old(loaded), cf, *env, *final(loaded)),
{
    let ConfigFile { events, plugins } = cf;
    let resolved = match &events.socket {
        Some(raw) => Some(expand_with(raw.as_str(), &env.vars, env.uid.clone(), env.home.clone())),
        None => None,
    };
    loaded.resolved_socket = resolved;
    loaded.events = events;
    let PluginsTable { notifier, system_notifier } = plugins;
    match notifier {
        Some(n) => {
            let mut wired = n;
            wired.generation = wired.generation.wrapping_add(1);
            loaded.plugins.notifier = wired;
        },
        None => {},
    }
    match system_notifier {
        Some(s) => {
            let mut wired = s;
            wired.generation = wired.generation.wrapping_add(1);
            loaded.plugins.system_notifier = wired;
        },
        None => {},
    }
}

/// What `Path::parent` gives for a path.
pub uninterp spec fn spec_path_parent(p: Seq<char>) -> Option<Seq<char>>;

/// Parent directory of `p` (`Path::parent`): `None` for a root or an
/// empty path, the empty path for a single relative component.
#[verifier::external_body]
fn path_parent(p: &str) -> (r: Option<String>)
    ensures
        opt_view(r) == spec_path_parent(p@),
{
    std::path::Path::new(p).parent().map(|q| q.to_string_lossy().into_owned())
}

/// The directory that owns `config.toml`: the parent of an explicit
/// `--config` file (`.` when it has none), else `<xdg_config_dir>/abtop`.
pub open spec fn config_dir_spec(cli: Option<Seq<char>>, xdg_config_dir: Seq<char>) -> Seq<char> {
    match cli {
        Some(p) => match spec_path_parent(p) {
            Some(d) => d,
            None => "."@,
        },
        None => path_join(xdg_config_dir, "abtop"@),
    }
}

pub fn resolve_config_dir(cli: Option<&str>, xdg_config_dir: &str) -> (r: String)
    ensures
        r@ == config_dir_spec(
            match cli {
                Some(p) => Some(p@),
                None => None,
            },
            xdg_config_dir@,
        ),
{
    match cli {
        Some(p) => match path_parent(p) {
            Some(d) => d,
            None => String::from_str("."),
        },
        None => {
            let base = chars_of(xdg_config_dir);
            let leaf = chars_of("abtop");
            let j = join_path(&base, leaf.as_slice());
            string_of(j.as_slice())
        },
    }
}

/// `<config_dir>/config.toml`.
pub fn main_config_path(config_dir: &str) -> (r: String)
    ensures
        r@ == path_join(config_dir@, "config.toml"@),
{
    let base = chars_of(config_dir);
    let leaf = chars_of("config.toml");
    let j = join_path(&base, leaf.as_slice());
    string_of(j.as_slice())
}

/// `<config_dir>/plugins.d`, where drop-ins live.
pub fn drop_in_dir(config_dir: &str) -> (r: String)
    ensures
        r@ == path_join(config_dir@, "plugins.d"@),
{
    let base = chars_of(config_dir);
    let leaf = chars_of("plugins.d");
    let j = join_path(&base, leaf.as_slice());
    string_of(j.as_slice())
}

/// The `--config` path a reload of `prev` is made with: `None` when the
/// main file was the default `config.toml` of the configuration
/// directory (or none was read), so the drop-ins are scanned again;
/// otherwise the explicit file that was loaded.
pub open spec fn reload_cli_spec(prev: LoadedConfig) -> Option<Seq<char>> {
    match prev.source_path {
        None => None,
        Some(p) => if p@ == path_join(prev.config_dir@, "config.toml"@) {
            None
        } else {
            Some(p@)
        },
    }
}

/// The `--config` path to reload `prev` with (see [`reload_cli_spec`]).
pub fn reload_cli(prev: &LoadedConfig) -> (r: Option<String>)
    ensures
        opt_view(r) == reload_cli_spec(*prev),
{
    match &prev.source_path {
        None => None,
        Some(p) => {
            let main = main_config_path(prev.config_dir.as_str());
            if main == *p {
                None
            } else {
                Some(p.clone())
            }
        },
    }
}


// ---------------------------------------------------------------------
// Loading
// ---------------------------------------------------------------------

pub open spec fn str_views(v: Seq<String>) -> Seq<Seq<char>> {
    v.map_values(|s: String| s@)
}

/// Parsed files among `d`, in order.
pub open spec fn ok_files(d: Seq<SourceFile>) -> Seq<ConfigFile>
    decreases d.len(),
{
    if d.len() == 0 {
        seq![]
    } else {
        ok_files(d.drop_last()) + match d.last().parsed {
            Ok(p) => seq![p.0],
            Err(_) => seq![],
        }
    }
}

/// Paths of the parsed files among `d`, in order.
pub open spec fn ok_paths(d: Seq<SourceFile>) -> Seq<Seq<char>>
    decreases d.len(),
{
    if d.len() == 0 {
        seq![]
    } else {
        ok_paths(d.drop_last()) + match d.last().parsed {
            Ok(_) => seq![d.last().path@],
            Err(_) => seq![],
        }
    }
}

/// `(path, message)` of the files among `d` that failed, in order.
pub open spec fn failures(d: Seq<SourceFile>) -> Seq<(Seq<char>, Seq<char>)>
    decreases d.len(),
{
    if d.len() == 0 {
        seq![]
    } else {
        failures(d.drop_last()) + match d.last().parsed {
            Ok(_) => seq![],
            Err(m) => seq![(d.last().path@, m@)],
        }
    }
}

/// Latest modification time of `acc` and the parsed files among `d`.
pub open spec fn mtime_fold(acc: Option<u128>, d: Seq<SourceFile>) -> Option<u128>
    decreases d.len(),
{
    if d.len() == 0 {
        acc
    } else {
        let a = mtime_fold(acc, d.drop_last());
        match d.last().parsed {
            Ok(p) => later_mtime(a, p.1),
            Err(_) => a,
        }
    }
}

/// `result` is `start` with each of `files` overlaid in order.
pub open spec fn merged_via(start: ConfigFile, files: Seq<ConfigFile>, result: ConfigFile) -> bool
    decreases files.len(),
{
    if files.len() == 0 {
        result == start
    } else {
        exists|mid: ConfigFile| merged_via(start, files.drop_last(), mid) && #[trigger] overlaid(mid, files.last(), result)
    }
}

/// The parsed file of a successful read.
pub open spec fn parsed_file(s: SourceFile) -> Option<ConfigFile> {
    match s.parsed {
        Ok(p) => Some(p.0),
        Err(_) => None,
    }
}

pub open spec fn is_default_file(c: ConfigFile) -> bool {
    &&& !c.events.enabled
    &&& c.events.socket is None
    &&& c.events.backlog == DEFAULT_BACKLOG
    &&& c.plugins.notifier is None
    &&& c.plugins.system_notifier is None
}

pub open spec fn is_default_plugins(p: PluginsConfig) -> bool {
    &&& !p.notifier.enabled_at_startup
    &&& p.notifier.backend is None
    &&& p.notifier.debounce_ms == NOTIFIER_DEBOUNCE_MS
    &&& p.notifier.rule@.len() == 0
    &&& p.notifier.generation == 0
    &&& !p.system_notifier.enabled_at_startup
    &&& p.system_notifier.conduit@.len() == 0
    &&& p.system_notifier.conduit_args@.len() == 0
    &&& p.system_notifier.on@.len() == 0
    &&& p.system_notifier.title@ == default_title()
    &&& p.system_notifier.body@.len() == 0
    &&& p.system_notifier.debounce_ms == DEFAULT_DEBOUNCE_MS
    &&& p.system_notifier.conduit_timeout_ms == DEFAULT_TIMEOUT_MS
    &&& p.system_notifier.generation == 0
}

/// A `LoadedConfig` as it stands before any file is taken in.
pub open spec fn is_fresh(l: LoadedConfig) -> bool {
    &&& !l.events.enabled
    &&& l.events.socket is None
    &&& l.events.backlog == DEFAULT_BACKLOG
    &&& l.resolved_socket is None
    &&& is_default_plugins(l.plugins)
    &&& l.source_path is None
    &&& l.contributing_paths@.len() == 0
    &&& l.mtime is None
}

/// The outcome of a load that reads files: the main file (when read and
/// parsed) is the starting point, each parsed drop-in is overlaid in
/// order, failures are reported in order, and the merged file is taken in
/// by [`applied`].
pub open spec fn loaded_from(main: Option<SourceFile>, drops: Seq<SourceFile>, env: ExpansionEnv, l: LoadedConfig, errors: Seq<(Seq<char>, Seq<char>)>) -> bool {
    let main_seq: Seq<SourceFile> = match main {
        Some(m) => seq![m],
        None => seq![],
    };
    let all = main_seq + drops;
    let main_ok = main matches Some(m) && m.parsed is Ok;
    &&& errors == failures(all)
    &&& str_views(l.contributing_paths@) == ok_paths(all)
    &&& opt_view(l.source_path) == (if main_ok { Some(main->0.path@) } else { None::<Seq<char>> })
    &&& l.mtime == mtime_fold(None, all)
    &&& exists|start: ConfigFile, merged: ConfigFile, init: LoadedConfig| {
        &&& (if main_ok { Some(start) == parsed_file(main->0) } else { is_default_file(start) })
        &&& #[trigger] merged_via(start, ok_files(drops), merged)
        &&& is_default_plugins(init.plugins)
        &&& #[trigger] applied(init, merged, env, l)
    }
}

pub open spec fn error_views(e: Seq<LoadError>) -> Seq<(Seq<char>, Seq<char>)> {
    e.map_values(|x: LoadError| (x.path@, x.message@))
}

proof fn lemma_fold_push(all: Seq<SourceFile>, f: SourceFile)
    ensures
        ok_files(all.push(f)) == ok_files(all) + match f.parsed {
            Ok(p) => seq![p.0],
            Err(_) => seq![],
        },
        ok_paths(all.push(f)) == ok_paths(all) + match f.parsed {
            Ok(_) => seq![f.path@],
            Err(_) => seq![],
        },
        failures(all.push(f)) == failures(all) + match f.parsed {
            Ok(_) => seq![],
            Err(m) => seq![(f.path@, m@)],
        },
        mtime_fold(None, all.push(f)) == match f.parsed {
            Ok(p) => later_mtime(mtime_fold(None, all), p.1),
            Err(_) => mtime_fold(None, all),
        },
{
    assert(all.push(f).drop_last() =~= all);
}

/// Resolves, merges and renders the configuration. With `skip_files` no
/// file is considered. Otherwise `sources.main` is the main file when one
/// was read (the `--config` file, or `config.toml` in the configuration
/// directory when it exists) and `sources.drop_ins` the sorted
/// `plugins.d/*.toml` files, which are taken in only without `--config`.
pub fn load_initial(
    cli_config_path: Option<&str>,
    skip_files: bool,
    xdg_config_dir: &str,
    sources: LoadSources,
    env: &ExpansionEnv,
) -> (r: (LoadedConfig, Vec<LoadError>))
    requires
        cli_config_path matches Some(p) && sources.main matches Some(m) ==> m.path@ == p@,
    ensures
        r.0.config_dir@ == config_dir_spec(
            match cli_config_path {
                Some(p) => Some(p@),
                None => None,
            },
            xdg_config_dir@,
        ),
        r.0.skip_files == skip_files,
        skip_files ==> is_fresh(r.0) && r.1@.len() == 0,
        !skip_files ==> loaded_from(
            sources.main,
            if cli_config_path is None { sources.drop_ins@ } else { seq![] },
            *env,
            r.0,
            error_views(r.1@),
        ),
        !skip_files && cli_config_path is Some ==> ({
            let p = cli_config_path->0@;
            &&& str_views(r.0.contributing_paths@).len() <= 1
            &&& forall|i: int| 0 <= i < str_views(r.0.contributing_paths@).len() ==> str_views(r.0.contributing_paths@)[i] == p
            &&& forall|i: int| 0 <= i < r.1@.len() ==> (#[trigger] r.1@[i]).path@ == p
        }),
{
    let config_dir = resolve_config_dir(cli_config_path, xdg_config_dir);
    let mut loaded = LoadedConfig {
        events: EventsConfig::default(),
        resolved_socket: None,
        plugins: PluginsConfig::default(),
        source_path: None,
        contributing_paths: Vec::new(),
        mtime: None,
        config_dir,
        skip_files,
    };
    if skip_files {
        return (loaded, Vec::new());
    }
    let ghost init = loaded;
    let mut errors: Vec<LoadError> = Vec::new();
    let mut merged = ConfigFile::default();
    let LoadSources { main, drop_ins } = sources;
    let ghost main_g = main;
    let ghost drops: Seq<SourceFile> = if cli_config_path is None { drop_ins@ } else { seq![] };
    let ghost main_seq: Seq<SourceFile> = match main_g {
        Some(m) => seq![m],
        None => seq![],
    };
    let ghost main_ok = main_g matches Some(m) && m.parsed is Ok;
    match main {
        Some(m) => {
            let SourceFile { path, parsed } = m;
            match parsed {
                Ok(p) => {
                    let (cf, mt) = p;
                    merged = cf;
                    loaded.source_path = Some(path.clone());
                    loaded.contributing_paths.push(path);
                    loaded.mtime = merge_mtime(loaded.mtime, mt);
                },
                Err(message) => {
                    errors.push(LoadError { path, message });
                },
            }
        },
        None => {},
    }
    proof {
        lemma_fold_push(seq![], main_g->0);
        assert(seq![].push(main_g->0) =~= seq![main_g->0]);
        assert(str_views(loaded.contributing_paths@) =~= ok_paths(main_seq));
        assert(error_views(errors@) =~= failures(main_seq));
        assert(ok_files(seq![]) =~= seq![]);
    }
    let ghost start = merged;
    let ghost loaded_mid = loaded;
    if cli_config_path.is_none() {
        let mut i: usize = 0;
        let n = drop_ins.len();
        let mut rest = drop_ins;
        let ghost all = drop_ins@;
        proof {
            assert(main_seq + all.subrange(0, 0) =~= main_seq);
            assert(rest@ =~= all.subrange(0, n as int));
        }
        while i < n
            invariant
                i <= n == all.len(),
                rest@ == all.subrange(i as int, n as int),
                error_views(errors@) == failures(main_seq + all.subrange(0, i as int)),
                str_views(loaded.contributing_paths@) == ok_paths(main_seq + all.subrange(0, i as int)),
                loaded.mtime == mtime_fold(None, main_seq + all.subrange(0, i as int)),
                merged_via(start, ok_files(all.subrange(0, i as int)), merged),
                loaded.source_path == loaded_mid.source_path,
                loaded.config_dir == init.config_dir,
                loaded.skip_files == false,
                loaded.events == init.events,
                loaded.plugins == init.plugins,
                loaded.resolved_socket == init.resolved_socket,
            decreases n - i,
        {
            let f = rest.remove(0);
            let ghost fg = f;
            assert(fg == all[i as int]);
            assert(rest@ =~= all.subrange(i + 1, n as int));
            proof {
                lemma_fold_push(main_seq + all.subrange(0, i as int), fg);
                assert((main_seq + all.subrange(0, i as int)).push(fg) =~= main_seq + all.subrange(0, i + 1));
                lemma_fold_push(all.subrange(0, i as int), fg);
                assert(all.subrange(0, i as int).push(fg) =~= all.subrange(0, i + 1));
            }
            let ghost before = merged;
            let SourceFile { path, parsed } = f;
            match parsed {
                Ok(p) => {
                    let (cf, mt) = p;
                    let ghost cfg = cf;
                    merge_overlay(&mut merged, cf);
                    loaded.contributing_paths.push(path);
                    loaded.mtime = merge_mtime(loaded.mtime, mt);
                    proof {
                        let files = ok_files(all.subrange(0, i + 1));
                        assert(files.drop_last() =~= ok_files(all.subrange(0, i as int)));
                        assert(files.last() == cfg);
                        assert(overlaid(before, files.last(), merged));
                        assert(merged_via(start, files, merged));
                    }
                },
                Err(message) => {
                    errors.push(LoadError { path, message });
                    proof {
                        assert(ok_files(all.subrange(0, i + 1)) =~= ok_files(all.subrange(0, i as int)));
                    }
                },
            }
            proof {
                assert(error_views(errors@) =~= failures(main_seq + all.subrange(0, i + 1)));
                assert(str_views(loaded.contributing_paths@) =~= ok_paths(main_seq + all.subrange(0, i + 1)));
            }
            i = i + 1;
        }
        proof {
            assert(all.subrange(0, n as int) =~= all);
            assert(drops == all);
        }
    } else {
        proof {
            assert(drops =~= seq![]);
            assert(main_seq + drops =~= main_seq);
        }
    }
    let ghost merged_g = merged;
    let ghost pre_apply = loaded;
    apply_to_loaded(&mut loaded, merged, env);
    proof {
        assert(applied(pre_apply, merged_g, *env, loaded));
        assert(is_default_plugins(pre_apply.plugins));
        if cli_config_path.is_some() {
            assert(ok_files(drops) =~= seq![]);
        }
        assert(merged_via(start, ok_files(drops), merged_g));
        assert(loaded_from(main_g, drops, *env, loaded, error_views(errors@)));
        if cli_config_path.is_some() {
            law_explicit_config_alone(cli_config_path->0@, main_g, *env, loaded, error_views(errors@));
            assert forall|i: int| 0 <= i < errors@.len() implies (#[trigger] errors@[i]).path@ == cli_config_path->0@ by {
                assert(error_views(errors@)[i].0 == errors@[i].path@);
            }
        }
    }
    (loaded, errors)
}

/// A reload is due when files are not skipped and either the set of
/// contributing files changed or the latest modification time advanced
/// (or appeared).
pub open spec fn reload_due_spec(prev: LoadedConfig, current_paths: Seq<Seq<char>>, current_mtime: Option<u128>) -> bool {
    &&& !prev.skip_files
    &&& (current_paths != str_views(prev.contributing_paths@) || match (current_mtime, prev.mtime) {
        (Some(now), Some(then)) => now > then,
        (Some(_), None) => true,
        _ => false,
    })
}

/// Decides whether the configuration must be reloaded, given the files
/// that contribute now (existing main file, then sorted drop-ins) and
/// their latest modification time.
pub fn reload_due(prev: &LoadedConfig, current_paths: &Vec<String>, current_mtime: Option<u128>) -> (r: bool)
    ensures
        r == reload_due_spec(*prev, str_views(current_paths@), current_mtime),
{
    if prev.skip_files {
        return false;
    }
    let mut differ = current_paths.len() != prev.contributing_paths.len();
    if !differ {
        let mut i: usize = 0;
        while i < current_paths.len() && !differ
            invariant
                i <= current_paths.len() == prev.contributing_paths.len(),
                forall|k: int| 0 <= k < i ==> (#[trigger] current_paths@[k])@ == prev.contributing_paths@[k]@,
                differ ==> str_views(current_paths@) != str_views(prev.contributing_paths@),
            decreases current_paths.len() - i + (if differ { 0int } else { 1int }),
        {
            if current_paths[i] != prev.contributing_paths[i] {
                differ = true;
                proof {
                    assert(str_views(current_paths@)[i as int] != str_views(prev.contributing_paths@)[i as int]);
                }
            } else {
                i = i + 1;
            }
        }
        if !differ {
            assert(str_views(current_paths@) =~= str_views(prev.contributing_paths@));
        }
    } else {
        assert(str_views(current_paths@).len() != str_views(prev.contributing_paths@).len());
    }
    let advanced = match (current_mtime, prev.mtime) {
        (Some(now), Some(then)) => now > then,
        (Some(_), None) => true,
        _ => false,
    };
    differ || advanced
}


/// A drop-in that only restates defaults (or names no plugin table)
/// changes nothing.
pub proof fn law_default_drop_in_changes_nothing(b: ConfigFile, n: ConfigFile)
    requires
        is_default_file(n),
    ensures
        overlaid(b, n, b),
{
    assert(events_overlay(b.events, n.events) == b.events);
}

/// With the same contributing files and no newer modification time, no
/// reload is due.
pub proof fn law_no_reload_without_change(prev: LoadedConfig)
    ensures
        !reload_due_spec(prev, str_views(prev.contributing_paths@), prev.mtime),
{
}
/// Loading with an explicit `--config` file `p` (so no drop-in is taken
/// in): at most `p` itself contributes, and every error names `p`.
pub proof fn law_explicit_config_alone(
    p: Seq<char>,
    main: Option<SourceFile>,
    env: ExpansionEnv,
    l: LoadedConfig,
    errors: Seq<(Seq<char>, Seq<char>)>,
)
    requires
        main matches Some(m) ==> m.path@ == p,
        loaded_from(main, seq![], env, l, errors),
    ensures
        str_views(l.contributing_paths@).len() <= 1,
        forall|i: int| 0 <= i < str_views(l.contributing_paths@).len() ==> str_views(l.contributing_paths@)[i] == p,
        forall|i: int| 0 <= i < errors.len() ==> errors[i].0 == p,
{
    let main_seq: Seq<SourceFile> = match main {
        Some(m) => seq![m],
        None => seq![],
    };
    let all = main_seq + seq![];
    assert(all =~= main_seq);
    reveal_with_fuel(ok_paths, 2);
    reveal_with_fuel(failures, 2);
    if main is Some {
        assert(all.drop_last() =~= Seq::<SourceFile>::empty());
        assert(ok_paths(all).len() <= 1);
    } else {
        assert(all =~= Seq::<SourceFile>::empty());
    }
    assert(str_views(l.contributing_paths@) == ok_paths(all));
}
/// The socket named by the last of `files` that names one, else `start`'s.
pub open spec fn last_named_socket(start: Option<String>, files: Seq<ConfigFile>) -> Option<String>
    decreases files.len(),
{
    if files.len() == 0 {
        start
    } else if files.last().events.socket is Some {
        files.last().events.socket
    } else {
        last_named_socket(start, files.drop_last())
    }
}

/// A socket named by a drop-in always wins over the base's; a drop-in that
/// names none keeps the base's. A drop-in can turn the publisher on but
/// never off, and a backlog it sets away from the default wins. Over a run of drop-ins, the last one that
/// names a socket decides it, and the main file's socket stands only when
/// no drop-in names one.
pub proof fn law_drop_in_socket_wins(b: ConfigFile, n: ConfigFile, r: ConfigFile, start: ConfigFile, files: Seq<ConfigFile>, merged: ConfigFile)
    requires
        overlaid(b, n, r),
        merged_via(start, files, merged),
    ensures
        n.events.socket is Some ==> r.events.socket == n.events.socket,
        n.events.socket is None ==> r.events.socket == b.events.socket,
        n.events.enabled ==> r.events.enabled,
        !n.events.enabled ==> r.events.enabled == b.events.enabled,
        n.events.backlog != DEFAULT_BACKLOG ==> r.events.backlog == n.events.backlog,
        n.events.backlog == DEFAULT_BACKLOG ==> r.events.backlog == b.events.backlog,
        merged.events.socket == last_named_socket(start.events.socket, files),
    decreases files.len(),
{
    if files.len() > 0 {
        let mid = choose|mid: ConfigFile| merged_via(start, files.drop_last(), mid) && #[trigger] overlaid(mid, files.last(), merged);
        law_drop_in_socket_wins(mid, files.last(), merged, start, files.drop_last(), mid);
    }
}
/// A drop-in's `[plugins.notifier]` table: absent, it changes nothing;
/// when the base has none, it is taken whole; otherwise its rules are
/// appended after the base's, in order, a backend it names wins, and it
/// can turn the plugin on but never off.
pub proof fn law_notifier_drop_in(b: ConfigFile, n: ConfigFile, r: ConfigFile)
    requires
        overlaid(b, n, r),
    ensures
        n.plugins.notifier is None ==> r.plugins.notifier == b.plugins.notifier,
        n.plugins.notifier is Some && b.plugins.notifier is None ==> r.plugins.notifier == n.plugins.notifier,
        n.plugins.notifier is Some && b.plugins.notifier is Some ==> ({
            let x = b.plugins.notifier->0;
            let o = n.plugins.notifier->0;
            &&& r.plugins.notifier is Some
            &&& r.plugins.notifier->0.rule@ == x.rule@ + o.rule@
            &&& (o.backend is Some ==> r.plugins.notifier->0.backend == o.backend)
            &&& (o.backend is None ==> r.plugins.notifier->0.backend == x.backend)
            &&& (o.enabled_at_startup ==> r.plugins.notifier->0.enabled_at_startup)
            &&& (x.enabled_at_startup ==> r.plugins.notifier->0.enabled_at_startup)
        }),
{
}

/// A reload is due exactly when files are read and either the set of
/// contributing files changed or one of them is newer than the last load;
/// with `skip_files` it never is.
pub proof fn law_reload_due(prev: LoadedConfig, paths: Seq<Seq<char>>, mtime: Option<u128>)
    ensures
        prev.skip_files ==> !reload_due_spec(prev, paths, mtime),
        !prev.skip_files && paths != str_views(prev.contributing_paths@) ==> reload_due_spec(prev, paths, mtime),
        !prev.skip_files && (mtime matches Some(now) && (prev.mtime is None || now > prev.mtime->0)) ==> reload_due_spec(prev, paths, mtime),
        paths == str_views(prev.contributing_paths@) && (mtime is None || (prev.mtime is Some && mtime->0 <= prev.mtime->0))
            ==> !reload_due_spec(prev, paths, mtime),
{
}
} // verus!
