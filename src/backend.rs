//! Choice of the foreign-function-interface runtime that bindings target.

use vstd::prelude::*;
use vstd::string::*;

verus! {

/// The FFI runtime that generated bindings are written for.
#[derive(Clone, Copy, Debug, PartialEq, Eq, Structural)]
pub enum FfiBackend {
    Koffi,
}

impl FfiBackend {
    /// The backend a command-line value names; `None` for an unknown value.
    pub fn from_str(s: &str) -> (r: Option<FfiBackend>)
        ensures
            r is Some <==> s@ == "koffi"@,
            r is Some ==> r == Some(FfiBackend::Koffi),
    {
        if String::from_str(s) == String::from_str("koffi") {
            Some(FfiBackend::Koffi)
        } else {
            None
        }
    }
}

impl Default for FfiBackend {
    fn default() -> (r: Self)
        ensures
            r == FfiBackend::Koffi,
    {
        FfiBackend::Koffi
    }
}

} // verus!
