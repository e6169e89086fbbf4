//! The error the client reports.

use vstd::prelude::*;

verus! {

/// Declares `std::io::Error`, the error that connections and the frame codec
/// report.
#[verifier::external_type_specification]
#[verifier::external_body]
pub struct ExIoError(std::io::Error);

/// What can go wrong while talking to the server.
#[derive(Debug)]
pub enum BogoBarfError {
    /// An input/output error, among them a frame the codec refuses.
    Io(std::io::Error),
}

impl From<std::io::Error> for BogoBarfError {
    fn from(err: std::io::Error) -> (r: Self) {
        BogoBarfError::Io(err)
    }
}

impl vstd::std_specs::convert::FromSpecImpl<std::io::Error> for BogoBarfError {
    open spec fn obeys_from_spec() -> bool {
        true
    }

    open spec fn from_spec(err: std::io::Error) -> Self {
        BogoBarfError::Io(err)
    }
}

} // verus!
