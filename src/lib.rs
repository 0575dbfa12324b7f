//! A registry that binds passkeys (uncompressed P-256 public keys) to the
//! addresses of independently deployed wallets, behind a one-time
//! initialization gate. Bindings are unique per key and never change.

pub mod error;
pub mod factory;
pub mod types;
