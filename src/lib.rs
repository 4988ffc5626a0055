//! Host side of a native extension system: which modules to load, what each
//! one offers, and the queues through which extensions hand deferred work
//! back to the host, drained one callback per tick.

pub mod command;
pub mod config;
pub mod laws;
pub mod platform;
pub mod queue;
pub mod registry;
pub mod text;

pub use command::CommandDescriptor;
pub use config::{
    descriptors_from_document, select_descriptors, ConfigError, ConfigSource, ExtensionDescriptor,
};
pub use platform::{library_file_name, normalize_name, Platform};
pub use queue::{DrainPolicy, PendingQueue};
pub use registry::{
    Capabilities, EntryPoint, LoadAttempt, LoadFailure, Plugin, Plugins, SubmitError,
};
