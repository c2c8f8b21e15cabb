//! What can go wrong while a double array is built.

use vstd::prelude::*;

verus! {

/// An error of the build process.
#[derive(Debug, Clone, PartialEq, Eq)]
pub enum BuildError {
    Message(&'static str),
}

impl BuildError {
    /// The text of the error.
    pub open spec fn text(self) -> Seq<char> {
        match self {
            BuildError::Message(m) => m@,
        }
    }
}

impl From<&'static str> for BuildError {
    fn from(s: &'static str) -> (res: Self) {
        BuildError::Message(s)
    }
}

impl vstd::std_specs::convert::FromSpecImpl<&'static str> for BuildError {
    open spec fn obeys_from_spec() -> bool {
        true
    }

    open spec fn from_spec(s: &'static str) -> BuildError {
        BuildError::Message(s)
    }
}

/// The text of the error for an offset that no unit can hold.
pub open spec fn too_large() -> Seq<char> {
    "Failed to modify unit: too large offset"@
}

} // verus!
