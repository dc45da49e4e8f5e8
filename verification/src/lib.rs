//! Loomis: a small configuration-driven HTTP server. This crate holds its
//! verified core: configuration validation, command-line reading, the
//! request decisions of the static server, and configuration-mode routing
//! (virtual hosts, longest-prefix locations, proxy rewriting).
pub mod text;
pub mod paths;
pub mod config;
pub mod server;
pub mod cli;
pub mod routing;

pub use cli::{CliAction, CliConfig, CliError};
pub use config::{
    ConfigError, LocationConfig, LocationHandler, LoomisConfig, ProxyTarget, RawConfig,
    RawLocationConfig, RawServerConfig, RootProbe, ServerConfig, ServerProbe,
};
pub use server::{
    CandidateProbe, FileLookup, HttpReply, PathResolutionError, RequestRoute, ServerError,
};
pub use routing::{Header, SiteRoute};
