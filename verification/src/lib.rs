//! Session identity and key-value session state carried in a client-side
//! cookie: recovery of a prior session from a cookie value, in-memory
//! mutation during a request, and serialization for write-back.

pub mod codec;
pub mod escape;
pub mod session;
pub mod text;
