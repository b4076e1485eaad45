#![verifier::loop_isolation(false)]

use vstd::prelude::*;

pub mod chunked_reader;
pub mod codec;
pub mod hashing;
pub mod imaging;
pub mod local;
pub mod mime;
pub mod numstr;
pub mod proxy;
mod rng;
pub mod runtime;
pub mod tag;
pub mod text;
mod trusted;

verus! {

/// Error kinds surfaced to callers of the vault.
#[derive(Clone, Copy, Debug, PartialEq, Eq, Structural)]
pub enum VaultError {
    /// Malformed CID, empty upload, non-numeric page token, or an
    /// unsupported mimetype extension request.
    BadInput,
    /// CID absent from the index or the filestore.
    NotFound,
    /// Tagging request for a CID that has not been committed.
    NotIndexed,
    /// Filestore, index, or digest failure that is not the caller's fault.
    Internal,
}

impl VaultError {
    /// HTTP status the read-only proxy maps this error to.
    pub fn http_status(&self) -> (r: u16)
        ensures
            r == 400 <==> *self is BadInput,
            r == 404 <==> *self is NotFound,
            *self is NotIndexed || *self is Internal ==> r == 500,
    {
        match self {
            VaultError::BadInput => 400,
            VaultError::NotFound => 404,
            VaultError::NotIndexed => 500,
            VaultError::Internal => 500,
        }
    }
}

} // verus!
