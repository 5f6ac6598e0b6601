//! The no-clobber gate of the rename executor.
//!
//! The filesystem probes and the rename call itself are performed by the
//! surrounding application; the decision whether a rename may proceed is made
//! here, from the probe results taken at call time.

use vstd::prelude::*;

verus! {

/// Why a rename was refused.
#[derive(Debug, PartialEq, Eq, Structural, Clone, Copy)]
pub enum RenameError {
    /// The source no longer exists at execution time.
    SourceMissing,
    /// The target already exists at execution time; renaming would clobber it.
    TargetExists,
}

/// Decide whether a rename may proceed, from existence probes taken at call
/// time: the source must still exist and the target must still be absent.
/// A rename is allowed if and only if both hold; otherwise the error names
/// the failed precondition, with the missing source reported first.
pub fn rename_decision(source_exists: bool, target_exists: bool) -> (r: Result<(), RenameError>)
    ensures
        r is Ok <==> (source_exists && !target_exists),
        !source_exists ==> r == Result::<(), RenameError>::Err(RenameError::SourceMissing),
        source_exists && target_exists ==> r == Result::<(), RenameError>::Err(
            RenameError::TargetExists,
        ),
{
    if !source_exists {
        Err(RenameError::SourceMissing)
    } else if target_exists {
        Err(RenameError::TargetExists)
    } else {
        Ok(())
    }
}

impl RenameError {
    /// A short description of the refusal, for the display collaborator.
    pub fn message(&self) -> (r: &'static str)
        ensures
            *self is SourceMissing ==> r@ == "source does not exist"@,
            *self is TargetExists ==> r@ == "target already exists"@,
    {
        match self {
            RenameError::SourceMissing => "source does not exist",
            RenameError::TargetExists => "target already exists",
        }
    }
}

} // verus!
