//! The closed set of failure causes and the exact message text each one
//! renders to.  Every failure is deterministic for a given record and
//! expression; the rendered text is part of the engine's contract.

use vstd::prelude::*;
use crate::text::path_text;

verus! {

/// Cause of a statement or expression failure.
pub enum ErrModel {
    /// An assignment's source did not produce a concrete value.
    NonValueAssignment,
    /// A conditional's condition did not produce a concrete boolean.
    NonBooleanCondition,
    /// A merge's `deep` parameter did not produce a concrete boolean.
    NonBooleanDeep,
    /// A merge's destination path is absent from the record.
    MergeTargetNotFound(Seq<Seq<char>>),
    /// A merge operand (destination or source) is not a map.
    NonMapMergeOperands,
    /// A log message did not produce a concrete value.
    NonValueLog,
    /// A path read found nothing at the path.
    QueryPathNotFound(Seq<Seq<char>>),
    /// An equality comparison was given a non-value operand.
    NonValueEquality,
}

/// The exact message each failure renders to.
pub open spec fn err_text(e: ErrModel) -> Seq<char> {
    match e {
        ErrModel::NonValueAssignment => "assignment must be from a value"@,
        ErrModel::NonBooleanCondition => "query returned non-boolean value"@,
        ErrModel::NonBooleanDeep => "deep parameter passed to merge is a non-boolean value"@,
        ErrModel::MergeTargetNotFound(p) => "parameter "@ + path_text(p)
            + " passed to merge is not found"@,
        ErrModel::NonMapMergeOperands => "parameters passed to merge are non-map values"@,
        ErrModel::NonValueLog => "Can only log Value parameters"@,
        ErrModel::QueryPathNotFound(p) => "path "@ + path_text(p) + " not found in record"@,
        ErrModel::NonValueEquality => "equality can only compare values"@,
    }
}

} // verus!
