use vstd::prelude::*;

verus! {

/// The failures the picker core can report. I/O and configuration-parse
/// failures happen at the edges of the program, outside this library.
#[derive(Clone, Copy, Debug, PartialEq, Eq, Structural)]
pub enum PickError {
    /// The requested group name is not present in the configuration.
    GroupNotFound,
    /// The group exists but its configured item list is empty.
    EmptyConfiguredList,
}

impl PickError {
    /// A human-readable description of the failure.
    pub fn message(&self) -> (r: &'static str)
        ensures
            *self is GroupNotFound ==> r@ == "group not found in configuration"@,
            *self is EmptyConfiguredList ==> r@ == "the configured items list is empty"@,
    {
        match self {
            PickError::GroupNotFound => "group not found in configuration",
            PickError::EmptyConfiguredList => "the configured items list is empty",
        }
    }
}

} // verus!
