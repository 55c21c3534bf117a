//! The error kinds the server distinguishes.

use vstd::prelude::*;

verus! {

#[derive(Clone, Copy, Debug, PartialEq, Eq, Structural)]
/// Everything that can go wrong while serving a connection.
///
/// The first five kinds are protocol errors found while decoding a request;
/// the session answers them with a bare 400 and keeps the connection.
/// `StreamIoFailure` is fatal to the connection, and `ResourceNotFound`
/// turns into a 404 response.
pub enum Error {
    /// The request line does not have its three space-separated tokens.
    RequestLineMalformed,
    /// The method token is not a standard HTTP verb.
    RequestMethodInvalid,
    /// The request-target token is not a parseable URI reference.
    RequestTargetInvalid,
    /// The protocol token is not the literal `HTTP/1.1`.
    HttpVersionUnsupported,
    /// A header line is malformed, or the blank line ending the header
    /// block is missing.
    HeaderMalformed,
    /// A read or write on the socket failed.
    StreamIoFailure,
    /// The resolver knows no resource under the requested path.
    ResourceNotFound,
}

} // verus!
