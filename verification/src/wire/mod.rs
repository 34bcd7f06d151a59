//! The proto2 codec for mosh's three message schemas.

pub mod block;
pub mod block_laws;
pub mod bytes_laws;
pub mod error;
pub mod field;
pub mod field_laws;
pub mod host;
pub mod host_laws;
pub mod layout_laws;
pub mod prefix_laws;
pub mod transport;
pub mod transport_laws;
pub mod user;
pub mod user_laws;
pub mod writer;

pub use error::WireError;
pub use host::{HostInstruction, HostMessage};
pub use transport::{TransportInstruction, MOSH_PROTOCOL_VERSION, SHUTDOWN_NUM};
pub use user::{UserInstruction, UserMessage};
