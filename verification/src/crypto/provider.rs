//! Installing the provider, and the token that shows it was done.

use vstd::prelude::*;

verus! {

/// Shows that a provider was installed. Its field is private to this file,
/// where only [`install_ring`] makes one, so there is none without that call.
pub struct DefaultProvider {
    newly_installed: bool,
}

impl DefaultProvider {
    pub closed spec fn is_new(self) -> bool {
        self.newly_installed
    }

    /// Whether the process had no provider before.
    pub fn newly_installed(&self) -> (b: bool)
        ensures
            b == self.is_new(),
    {
        self.newly_installed
    }
}

/// Makes the ring provider the default of the process with
/// [`install_default`](rustls::crypto::CryptoProvider::install_default), which
/// leaves a default that is set already in place and says so with an error.
/// Which of the two comes depends on what ran before in the process, so nothing
/// is claimed of the result.
#[verifier::external_body]
pub(crate) fn install_ring() -> (provider: DefaultProvider) {
    let installed = rustls::crypto::ring::default_provider().install_default();
    DefaultProvider { newly_installed: installed.is_ok() }
}

} // verus!
