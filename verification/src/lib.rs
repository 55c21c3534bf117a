//! A small verified HTTP/1.1 media server core: wire-level request parsing,
//! response serialization, byte-range resolution, request routing, and the
//! idle-tracking state machine that bounds how long a keep-alive connection
//! may sit without traffic.

pub mod err;
pub mod headers;
pub mod idle;
pub mod laws;
pub mod method;
pub mod range;
pub mod request;
pub mod response;
pub mod router;
pub mod session;
pub mod text;
pub mod uri;
