//! Starting a session over SSH: the command that runs `mosh-server new`, and
//! the parser that finds the port and the key in what the channel said.

pub mod command;
pub mod command_laws;
pub mod error;
pub mod line_laws;
pub mod offer;
pub mod scan;
pub mod scan_laws;

pub use command::{mosh_server_command, mosh_tmux_payload_args};
pub use error::MoshBootstrapError;
pub use scan::{parse_mosh_bootstrap, MoshBootstrap};
