//! Where a server's certificate comes from.

use vstd::prelude::*;

verus! {

/// Where a server's certificate comes from.
pub enum TlsConfig {
    /// One that is made up at start for the given host names.
    SelfSigned { domains: Vec<String> },
    /// A chain of certificates and a private key from PEM files.
    FromFiles { cert_path: String, key_path: String },
}

} // verus!
