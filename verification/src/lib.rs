//! A small HTTP/1.1 serving library built around a path-routing trie with
//! hook-ordered dispatch.
//!
//! Everything in this crate is plain computation on values: bytes and strings
//! in, bytes and strings out. Sockets and the accept loop live with the caller.

pub mod app;
pub mod header;
pub mod protocol;
pub mod request;
pub mod response;
pub mod router;
pub mod stream;
pub mod text;

pub use app::App;
pub use router::Handle;
pub use router::Return;
