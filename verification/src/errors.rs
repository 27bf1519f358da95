use vstd::prelude::*;

verus! {

/// The failure taxonomy of the transfer core.
///
/// - `NotFound`: a download target is absent.
/// - `Conflict`: the filename already exists at reservation time.
/// - `ResourceExhausted`: the simultaneous-upload ceiling or the storage
///   quota would be exceeded.
/// - `UnknownToken`: an append or commit names a token not in the registry.
/// - `InvalidEncoding`: a malformed base64 request body.
/// - `BackingStoreLost`: the registered file disappeared between reservation
///   and append; fatal for that token.
#[derive(PartialEq, Eq, Structural, Clone, Copy, Debug)]
pub enum TransferError {
    NotFound,
    Conflict,
    ResourceExhausted,
    UnknownToken,
    InvalidEncoding,
    BackingStoreLost,
}

} // verus!
