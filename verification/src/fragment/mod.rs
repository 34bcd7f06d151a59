//! Fragment framing: instructions are encoded, compressed whole, and cut into
//! numbered fragments that fit a datagram; the other side puts them together
//! again, whatever order they arrive in.

pub mod assembly;
pub mod assembly_laws;
pub mod error;
pub mod frame;
pub mod frame_laws;
pub mod fragmenter;
pub mod fragmenter_laws;
pub mod history_laws;
pub mod layout_laws;
pub mod zlib;

pub use assembly::FragmentAssembly;
pub use error::FragmentError;
pub use fragmenter::Fragmenter;
pub use frame::{Fragment, FRAG_HEADER_LEN};
pub use zlib::{zlib_compress, zlib_decompress, DECOMPRESS_LIMIT};
