//! The verified core of the BLE federation medium.
//!
//! Every function is total on what its `requires` admits and does exactly what
//! its `ensures` says; the public proof functions whose names start with `law`
//! state what follows for the whole.

pub mod bootstrap;
pub mod commit;
pub mod crypto;
pub mod discovery;
pub mod pipe;
pub mod reliable;
pub mod startup;
