//! The event vocabulary published on the events socket: [`AppEvent`],
//! its latency tier and domain kind, and the [`WireRecord`] envelope.
//!
//! Measurements that are floating-point quantities in the running
//! program (token rates, host load) travel through this crate as the raw
//! IEEE-754 bit pattern of the `f64` (`f64::to_bits`); the crate never
//! computes with them, it only carries them to the serializer.
use vstd::prelude::*;

verus! {

/// One observable state transition. Each variant's name is its wire
/// `type` tag.
#[derive(Clone, Debug, PartialEq, Eq)]
pub enum AppEvent {
    /// A new `session_id` appeared in the snapshot.
    SessionStarted { session_id: String, agent_cli: String, pid: u32 },
    /// A `session_id` present in the previous snapshot is gone.
    SessionEnded { session_id: String },
    /// A session's coarse activity state changed; `from` and `to` are the
    /// status names as they appear on the wire.
    StatusChanged { session_id: String, from: String, to: String },
    /// A session's context fill crossed one of the buckets upward.
    ContextThreshold { session_id: String, bucket: u8 },
    /// The token rate spiked above the rolling baseline (`f64` bits).
    TokenRateSpike { rate: u64, baseline: u64 },
    /// A rate-limit provider entered a limited state.
    RateLimited { provider: String, resets_at_ms: Option<u64> },
    /// A previously-limited provider is no longer limited.
    RateLimitCleared { provider: String },
    /// A port appeared in the orphan-port list.
    OrphanPortAppeared { port: u16, prior_pid: u32 },
    /// A new MCP server PID was detected.
    McpServerAppeared { pid: u32, parent_cli: String },
    /// A previously-detected MCP server PID is gone.
    McpServerVanished { pid: u32 },
    /// A new tool call was appended to a session's tool-call tail.
    ToolCalled { session_id: String, tool: String, arg: String },
    /// A session's compaction count incremented.
    CompactionDetected { session_id: String },
    /// A new subagent appeared on a session.
    SubagentSpawned { session_id: String, name: String },
    /// Host 1-minute load crossed the high threshold (`f64` bits).
    HostLoadHigh { load1: u64 },
}

/// Mathematical form of an [`AppEvent`]: strings as character sequences.
pub enum EventModel {
    SessionStarted { session_id: Seq<char>, agent_cli: Seq<char>, pid: u32 },
    SessionEnded { session_id: Seq<char> },
    StatusChanged { session_id: Seq<char>, from: Seq<char>, to: Seq<char> },
    ContextThreshold { session_id: Seq<char>, bucket: u8 },
    TokenRateSpike { rate: u64, baseline: u64 },
    RateLimited { provider: Seq<char>, resets_at_ms: Option<u64> },
    RateLimitCleared { provider: Seq<char> },
    OrphanPortAppeared { port: u16, prior_pid: u32 },
    McpServerAppeared { pid: u32, parent_cli: Seq<char> },
    McpServerVanished { pid: u32 },
    ToolCalled { session_id: Seq<char>, tool: Seq<char>, arg: Seq<char> },
    CompactionDetected { session_id: Seq<char> },
    SubagentSpawned { session_id: Seq<char>, name: Seq<char> },
    HostLoadHigh { load1: u64 },
}

impl View for AppEvent {
    type V = EventModel;

    open spec fn view(&self) -> EventModel {
        match self {
            AppEvent::SessionStarted { session_id, agent_cli, pid } => EventModel::SessionStarted {
                session_id: session_id@,
                agent_cli: agent_cli@,
                pid: *pid,
            },
            AppEvent::SessionEnded { session_id } => EventModel::SessionEnded {
                session_id: session_id@,
            },
            AppEvent::StatusChanged { session_id, from, to } => EventModel::StatusChanged {
                session_id: session_id@,
                from: from@,
                to: to@,
            },
            AppEvent::ContextThreshold { session_id, bucket } => EventModel::ContextThreshold {
                session_id: session_id@,
                bucket: *bucket,
            },
            AppEvent::TokenRateSpike { rate, baseline } => EventModel::TokenRateSpike {
                rate: *rate,
                baseline: *baseline,
            },
            AppEvent::RateLimited { provider, resets_at_ms } => EventModel::RateLimited {
                provider: provider@,
                resets_at_ms: *resets_at_ms,
            },
            AppEvent::RateLimitCleared { provider } => EventModel::RateLimitCleared {
                provider: provider@,
            },
            AppEvent::OrphanPortAppeared { port, prior_pid } => EventModel::OrphanPortAppeared {
                port: *port,
                prior_pid: *prior_pid,
            },
            AppEvent::McpServerAppeared { pid, parent_cli } => EventModel::McpServerAppeared {
                pid: *pid,
                parent_cli: parent_cli@,
            },
            AppEvent::McpServerVanished { pid } => EventModel::McpServerVanished { pid: *pid },
            AppEvent::ToolCalled { session_id, tool, arg } => EventModel::ToolCalled {
                session_id: session_id@,
                tool: tool@,
                arg: arg@,
            },
            AppEvent::CompactionDetected { session_id } => EventModel::CompactionDetected {
                session_id: session_id@,
            },
            AppEvent::SubagentSpawned { session_id, name } => EventModel::SubagentSpawned {
                session_id: session_id@,
                name: name@,
            },
            AppEvent::HostLoadHigh { load1 } => EventModel::HostLoadHigh { load1: *load1 },
        }
    }
}

/// Latency tier. Fast events are emitted every tick; slow events only
/// when the slow collector branch ran.
#[derive(Clone, Copy, Debug, PartialEq, Eq, Structural)]
pub enum EventTier {
    Fast,
    Slow,
}

/// Coarse domain grouping for rule matching.
#[derive(Clone, Copy, Debug, PartialEq, Eq, Structural)]
pub enum EventKind {
    Lifecycle,
    Status,
    Threshold,
    Quota,
    Resource,
    Activity,
    Host,
}

/// Tier of an event: quota and resource events come from the slow
/// collector branch, everything else is fast.
pub open spec fn tier_of(e: EventModel) -> EventTier {
    match e {
        EventModel::RateLimited { .. }
        | EventModel::RateLimitCleared { .. }
        | EventModel::OrphanPortAppeared { .. }
        | EventModel::McpServerAppeared { .. }
        | EventModel::McpServerVanished { .. } => EventTier::Slow,
        _ => EventTier::Fast,
    }
}

pub open spec fn kind_of(e: EventModel) -> EventKind {
    match e {
        EventModel::SessionStarted { .. } | EventModel::SessionEnded { .. } => EventKind::Lifecycle,
        EventModel::StatusChanged { .. } => EventKind::Status,
        EventModel::ContextThreshold { .. } | EventModel::TokenRateSpike { .. } => EventKind::Threshold,
        EventModel::RateLimited { .. } | EventModel::RateLimitCleared { .. } => EventKind::Quota,
        EventModel::OrphanPortAppeared { .. }
        | EventModel::McpServerAppeared { .. }
        | EventModel::McpServerVanished { .. } => EventKind::Resource,
        EventModel::ToolCalled { .. }
        | EventModel::CompactionDetected { .. }
        | EventModel::SubagentSpawned { .. } => EventKind::Activity,
        EventModel::HostLoadHigh { .. } => EventKind::Host,
    }
}

/// The wire `type` tag of an event: its variant name.
pub open spec fn type_name_of(e: EventModel) -> Seq<char> {
    match e {
        EventModel::SessionStarted { .. } => "SessionStarted"@,
        EventModel::SessionEnded { .. } => "SessionEnded"@,
        EventModel::StatusChanged { .. } => "StatusChanged"@,
        EventModel::ContextThreshold { .. } => "ContextThreshold"@,
        EventModel::TokenRateSpike { .. } => "TokenRateSpike"@,
        EventModel::RateLimited { .. } => "RateLimited"@,
        EventModel::RateLimitCleared { .. } => "RateLimitCleared"@,
        EventModel::OrphanPortAppeared { .. } => "OrphanPortAppeared"@,
        EventModel::McpServerAppeared { .. } => "McpServerAppeared"@,
        EventModel::McpServerVanished { .. } => "McpServerVanished"@,
        EventModel::ToolCalled { .. } => "ToolCalled"@,
        EventModel::CompactionDetected { .. } => "CompactionDetected"@,
        EventModel::SubagentSpawned { .. } => "SubagentSpawned"@,
        EventModel::HostLoadHigh { .. } => "HostLoadHigh"@,
    }
}

impl AppEvent {
    pub fn tier(&self) -> (r: EventTier)
        ensures
            r == tier_of(self@),
    {
        match self {
            AppEvent::SessionStarted { .. }
            | AppEvent::SessionEnded { .. }
            | AppEvent::StatusChanged { .. }
            | AppEvent::ContextThreshold { .. }
            | AppEvent::TokenRateSpike { .. }
            | AppEvent::ToolCalled { .. }
            | AppEvent::CompactionDetected { .. }
            | AppEvent::SubagentSpawned { .. }
            | AppEvent::HostLoadHigh { .. } => EventTier::Fast,
            AppEvent::RateLimited { .. }
            | AppEvent::RateLimitCleared { .. }
            | AppEvent::OrphanPortAppeared { .. }
            | AppEvent::McpServerAppeared { .. }
            | AppEvent::McpServerVanished { .. } => EventTier::Slow,
        }
    }

    pub fn kind(&self) -> (r: EventKind)
        ensures
            r == kind_of(self@),
    {
        match self {
            AppEvent::SessionStarted { .. } | AppEvent::SessionEnded { .. } => {
                EventKind::Lifecycle
            },
            AppEvent::StatusChanged { .. } => EventKind::Status,
            AppEvent::ContextThreshold { .. } | AppEvent::TokenRateSpike { .. } => {
                EventKind::Threshold
            },
            AppEvent::RateLimited { .. } | AppEvent::RateLimitCleared { .. } => EventKind::Quota,
            AppEvent::OrphanPortAppeared { .. }
            | AppEvent::McpServerAppeared { .. }
            | AppEvent::McpServerVanished { .. } => EventKind::Resource,
            AppEvent::ToolCalled { .. }
            | AppEvent::CompactionDetected { .. }
            | AppEvent::SubagentSpawned { .. } => EventKind::Activity,
            AppEvent::HostLoadHigh { .. } => EventKind::Host,
        }
    }

    /// Discriminator string matching the wire `type` tag.
    pub fn type_tag(&self) -> (r: &'static str)
        ensures
            r@ == type_name_of(self@),
    {
        match self {
            AppEvent::SessionStarted { .. } => "SessionStarted",
            AppEvent::SessionEnded { .. } => "SessionEnded",
            AppEvent::StatusChanged { .. } => "StatusChanged",
            AppEvent::ContextThreshold { .. } => "ContextThreshold",
            AppEvent::TokenRateSpike { .. } => "TokenRateSpike",
            AppEvent::RateLimited { .. } => "RateLimited",
            AppEvent::RateLimitCleared { .. } => "RateLimitCleared",
            AppEvent::OrphanPortAppeared { .. } => "OrphanPortAppeared",
            AppEvent::McpServerAppeared { .. } => "McpServerAppeared",
            AppEvent::McpServerVanished { .. } => "McpServerVanished",
            AppEvent::ToolCalled { .. } => "ToolCalled",
            AppEvent::CompactionDetected { .. } => "CompactionDetected",
            AppEvent::SubagentSpawned { .. } => "SubagentSpawned",
            AppEvent::HostLoadHigh { .. } => "HostLoadHigh",
        }
    }
}

/// Current wire-schema version.
pub const WIRE_VERSION: u8 = 1;

/// One NDJSON record: `{v, ts_ms, ...event_fields}`.
#[derive(Clone, Debug, PartialEq, Eq)]
pub struct WireRecord {
    pub v: u8,
    pub ts_ms: u64,
    pub event: AppEvent,
}

impl AppEvent {
    /// A copy of the event.
    pub fn duplicate(&self) -> (r: AppEvent)
        ensures
            r@ == self@,
    {
        match self {
            AppEvent::SessionStarted { session_id, agent_cli, pid } => AppEvent::SessionStarted {
                session_id: session_id.clone(),
                agent_cli: agent_cli.clone(),
                pid: *pid,
            },
            AppEvent::SessionEnded { session_id } => AppEvent::SessionEnded { session_id: session_id.clone() },
            AppEvent::StatusChanged { session_id, from, to } => AppEvent::StatusChanged {
                session_id: session_id.clone(),
                from: from.clone(),
                to: to.clone(),
            },
            AppEvent::ContextThreshold { session_id, bucket } => AppEvent::ContextThreshold {
                session_id: session_id.clone(),
                bucket: *bucket,
            },
            AppEvent::TokenRateSpike { rate, baseline } => AppEvent::TokenRateSpike { rate: *rate, baseline: *baseline },
            AppEvent::RateLimited { provider, resets_at_ms } => AppEvent::RateLimited {
                provider: provider.clone(),
                resets_at_ms: *resets_at_ms,
            },
            AppEvent::RateLimitCleared { provider } => AppEvent::RateLimitCleared { provider: provider.clone() },
            AppEvent::OrphanPortAppeared { port, prior_pid } => AppEvent::OrphanPortAppeared {
                port: *port,
                prior_pid: *prior_pid,
            },
            AppEvent::McpServerAppeared { pid, parent_cli } => AppEvent::McpServerAppeared {
                pid: *pid,
                parent_cli: parent_cli.clone(),
            },
            AppEvent::McpServerVanished { pid } => AppEvent::McpServerVanished { pid: *pid },
            AppEvent::ToolCalled { session_id, tool, arg } => AppEvent::ToolCalled {
                session_id: session_id.clone(),
                tool: tool.clone(),
                arg: arg.clone(),
            },
            AppEvent::CompactionDetected { session_id } => AppEvent::CompactionDetected { session_id: session_id.clone() },
            AppEvent::SubagentSpawned { session_id, name } => AppEvent::SubagentSpawned {
                session_id: session_id.clone(),
                name: name.clone(),
            },
            AppEvent::HostLoadHigh { load1 } => AppEvent::HostLoadHigh { load1: *load1 },
        }
    }
}

impl WireRecord {
    /// A copy of the record.
    pub fn duplicate(&self) -> (r: WireRecord)
        ensures
            r.v == self.v,
            r.ts_ms == self.ts_ms,
            r.event@ == self.event@,
    {
        WireRecord { v: self.v, ts_ms: self.ts_ms, event: self.event.duplicate() }
    }

    pub fn new(event: AppEvent, ts_ms: u64) -> (r: Self)
        ensures
            r.v == WIRE_VERSION,
            r.ts_ms == ts_ms,
            r.event == event,
    {
        WireRecord { v: WIRE_VERSION, ts_ms, event }
    }
}

} // verus!
