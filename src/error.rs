use vstd::prelude::*;

verus! {

/// The failures that the registry reports to its callers.
#[derive(Copy, Clone, Debug, PartialEq, Eq, Structural)]
pub enum Error {
    /// An operation other than initialization ran before the registry was initialized.
    NotInited,
    /// Initialization was requested a second time.
    AlreadyInited,
    /// A registration named a passkey that is already bound.
    PasskeyAlreadyRegistered,
    /// A lookup named a passkey that is not bound.
    PasskeyNotRegistered,
    /// Reserved for a caller restriction on registration; no operation returns it.
    InvalidCaller,
}

} // verus!
