//! The error kinds the core can surface.
use vstd::prelude::*;

verus! {

/// First failure encountered by the core; the driver prints it and exits.
#[derive(Clone, Copy, Debug, PartialEq, Eq, Structural)]
pub enum Error {
    /// Impossible parameters, e.g. too few nodes for the fixed hash plan.
    Config,
    /// An OS-level failure on the data file or the graph cache, mapped in
    /// by the driver.
    Io,
    /// Graph cache header mismatch, truncated file, or an overfull
    /// reversed-expander row.
    Integrity,
    /// 32 input bytes that do not decode to a valid field element.
    Domain,
}

impl Error {
    /// A short diagnostic name for the error kind.
    pub fn describe(&self) -> (r: &'static str)
        ensures
            (*self is Config) ==> r@ == "configuration error"@,
            (*self is Io) ==> r@ == "i/o error"@,
            (*self is Integrity) ==> r@ == "integrity error"@,
            (*self is Domain) ==> r@ == "domain error"@,
    {
        match self {
            Error::Config => "configuration error",
            Error::Io => "i/o error",
            Error::Integrity => "integrity error",
            Error::Domain => "domain error",
        }
    }
}

} // verus!
