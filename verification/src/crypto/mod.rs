//! The cryptography provider of the process.

use crate::crypto::provider::{install_ring, DefaultProvider};
use vstd::prelude::*;

pub mod provider;

verus! {

/// Sees to it that the process has a cryptography provider. Where it has one
/// already, that one stays. The token cannot be had without the installation;
/// which of the two it was, only the process knows, and nothing is said of it.
pub(crate) fn install_default_provider() -> (provider: DefaultProvider) {
    install_ring()
}

} // verus!
