//! Lending streams and their combinators, with what every call of `next`
//! does stated and proved against the calls it makes on the streams it is
//! built from.
pub mod lending_stream;
pub mod runs;
pub mod counted;
pub mod fuse;
pub mod pairs;
pub mod closures;
pub mod values;
pub mod borrowed;
pub mod flatten;
pub mod bounded;
pub mod lending_stream_ext;
pub mod laws;

pub use lending_stream::{once, LendingStream};
pub use lending_stream_ext::LendingStreamExt;
