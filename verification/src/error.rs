use vstd::prelude::*;

verus! {

/// Why a store operation was refused.
#[derive(Clone, Copy, Debug, PartialEq, Eq, Structural)]
pub enum StoreError {
    /// The input does not have the shape the store requires. Nothing was changed.
    Validation,
    /// The backing file and the store no longer agree. The store accepts no
    /// further writes until it is reopened.
    Integrity,
    /// No record exists under the requested id.
    NotFound,
}

impl StoreError {
    /// A short description for messages and logs.
    pub fn message(&self) -> (s: String)
        ensures
            s@ == (match *self {
                StoreError::Validation => "invalid input"@,
                StoreError::Integrity => "store integrity lost"@,
                StoreError::NotFound => "record not found"@,
            }),
    {
        match self {
            StoreError::Validation => "invalid input".to_string(),
            StoreError::Integrity => "store integrity lost".to_string(),
            StoreError::NotFound => "record not found".to_string(),
        }
    }
}

} // verus!
