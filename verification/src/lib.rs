//! The pure layers of a mosh (mobile shell) client, bottom-up:
//!
//! - [`wire`]: the proto2 codec for mosh's three message schemas, total on any
//!   bytes.
//! - [`fragment`]: fragments with zlib below them, and mosh's rule for when an
//!   instruction gets a new id.
//! - [`bootstrap`]: the command that starts `mosh-server`, and the parser of what
//!   it prints.
//!
//! [`text`] holds what they share on lines, words and numbers.

pub mod bootstrap;
pub mod fragment;
pub mod message_laws;
pub mod text;
pub mod text_laws;
pub mod wire;

pub use bootstrap::{mosh_server_command, parse_mosh_bootstrap, MoshBootstrap, MoshBootstrapError};
pub use fragment::{Fragment, FragmentAssembly, FragmentError, Fragmenter};
pub use wire::{
    HostInstruction, HostMessage, TransportInstruction, UserInstruction, UserMessage, WireError,
    MOSH_PROTOCOL_VERSION, SHUTDOWN_NUM,
};
