//! BaseHan: a binary-to-text encoding that packs bytes thirteen bits at a
//! time into code points of a window that starts at U+4E00.
pub mod bits;
pub mod basehan;
pub mod laws;
pub mod stream;

pub use basehan::{encode, decode, BaseHan, BaseHanError};
pub use stream::{BaseHanEncoder, BaseHanDecoder};
