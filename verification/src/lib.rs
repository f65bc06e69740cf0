//! Verified core of the abtop event, plugin, configuration and theme
//! machinery.
pub mod text;
pub mod events;
pub mod keyed;
pub mod diff;
pub mod interpolation;
pub mod backend;
pub mod system_notifier;
pub mod rules;
pub mod notifier;
pub mod event_config;
pub mod debounce;
pub mod event_key;
pub mod socket_path;
pub mod footer;
pub mod invoke;
pub mod theme;
pub mod plugins;
pub mod template;
pub mod worker;
pub mod publisher;
