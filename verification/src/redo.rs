//! Redoing the most recently undone operation.
//!
//! Operations are loaded and restored elsewhere: here is which ones. Growing
//! the "redo-stack" works very similar to the undo-stack. Both are kept
//! separately, in the descriptions of operations.
//!
//! - If the operation to redo is a regular one (neither an undo- or
//!   redo-operation): Fail, because there is nothing to redo.
//! - If the operation to redo is an undo-operation, try to redo it (by restoring
//!   its parent operation).
//! - If the operation to redo is a redo-operation itself, redo the operation the
//!   early redo-operation restored to.
//! - If the operation to restore to is a redo-operation itself, restore directly
//!   to the original operation. This avoids creating a linked list of
//!   redo-operations, which subsequently may have to be walked with an
//!   inefficient loop.
//!
//! This described behavior leads to "jumping over" old redo-stacks if the
//! current one grows into it.

use vstd::prelude::*;

use crate::simple_op_heads_store::hex_bytes;
use crate::simple_op_heads_store::hex_text;
use crate::simple_op_heads_store::lemma_hex_read_back;
use crate::simple_op_heads_store::OperationId;
use crate::text::concat;
use crate::text::strip_prefix;

verus! {

/// Redo the most recently undone operation
///
/// This is the natural counterpart of `jj undo`. Repeated invocations of `jj
/// undo` and `jj redo` act similarly to Undo/Redo commands in a text editor.
#[derive(Debug, PartialEq, Eq, Structural, Clone, Copy)]
pub struct RedoArgs {}

/// How the description of a redo-operation begins.
pub const REDO_OP_DESC_PREFIX: &'static str = "redo: restore to operation ";

/// Why nothing is redone.
#[derive(Debug, PartialEq, Eq, Structural, Clone, Copy)]
pub enum RedoError {
    /// The description of a redo-operation names no operation.
    BadTarget,
    /// The description of the redo-operation to restore to names no operation.
    BadParentTarget,
    /// Only undo-operations can be redone.
    NothingToRedo,
    /// An undo-operation has no parent, or more than one.
    NotSingleParent,
}

impl RedoError {
    /// The error in words.
    pub open spec fn message_text(&self) -> Seq<char> {
        match self {
            RedoError::BadTarget => "Failed to parse ID of target operation in redo-stack"@,
            RedoError::BadParentTarget => "Failed to parse ID of target operation's parent in redo-stack"@,
            RedoError::NothingToRedo => "Nothing to redo"@,
            RedoError::NotSingleParent => "Undo operation should have a single parent"@,
        }
    }

    /// Returns the error in words.
    pub fn message(&self) -> (message: &'static str)
        ensures
            message@ == self.message_text(),
    {
        match self {
            RedoError::BadTarget => "Failed to parse ID of target operation in redo-stack",
            RedoError::BadParentTarget => "Failed to parse ID of target operation's parent in redo-stack",
            RedoError::NothingToRedo => "Nothing to redo",
            RedoError::NotSingleParent => "Undo operation should have a single parent",
        }
    }

    /// Returns whether the user has made a mistake, and not the program.
    pub fn is_user_error(&self) -> (user: bool)
        ensures
            user == (*self == RedoError::NothingToRedo),
    {
        *self == RedoError::NothingToRedo
    }
}

/// Which operation to go on with.
#[derive(Debug, PartialEq, Eq)]
pub enum Target {
    /// The operation at hand.
    This,
    /// Another operation, which is loaded.
    Other(OperationId),
}

/// The operation that the description of a redo-operation names. None if the
/// operation is no redo-operation.
pub open spec fn named_target(description: Seq<char>) -> Option<Option<Seq<u8>>> {
    if REDO_OP_DESC_PREFIX@.is_prefix_of(description) {
        Some(hex_bytes(description.skip(REDO_OP_DESC_PREFIX@.len() as int)))
    } else {
        None
    }
}

/// Whether a target is what a description asks for, with an error for a
/// description that names no operation.
pub open spec fn is_target(
    description: Seq<char>,
    error: RedoError,
    target: Result<Target, RedoError>,
) -> bool {
    match named_target(description) {
        None => target == Ok::<Target, RedoError>(Target::This),
        Some(None) => target == Err::<Target, RedoError>(error),
        Some(Some(bytes)) => target is Ok && (target->Ok_0 matches Target::Other(id) && id.bytes@
            == bytes),
    }
}

fn find_target(description: &str, error: RedoError) -> (target: Result<Target, RedoError>)
    ensures
        is_target(description@, error, target),
{
    match strip_prefix(description, REDO_OP_DESC_PREFIX) {
        None => Ok(Target::This),
        Some(hex) => match OperationId::from_hex(hex.as_str()) {
            Some(id) => Ok(Target::Other(id)),
            None => Err(error),
        },
    }
}

/// Finds the operation to redo, given the description of the current one.
pub fn operation_to_redo(description: &str) -> (target: Result<Target, RedoError>)
    ensures
        is_target(description@, RedoError::BadTarget, target),
{
    find_target(description, RedoError::BadTarget)
}

/// Checks that the operation to redo is an undo-operation, given how the
/// descriptions of those begin.
pub fn check_undone(description: &str, undo_prefix: &str) -> (result: Result<(), RedoError>)
    ensures
        result == (if undo_prefix@.is_prefix_of(description@) {
            Ok::<(), RedoError>(())
        } else {
            // cannot redo a non-undo-operation
            Err(RedoError::NothingToRedo)
        }),
{
    match strip_prefix(description, undo_prefix) {
        Some(_) => Ok(()),
        None => Err(RedoError::NothingToRedo),
    }
}

/// Finds the operation to restore to, given the descriptions of the parents of
/// the undo-operation: the single parent, or the operation that the parent has
/// restored to. If we didn't do this, repeated calls of `jj undo; jj redo`
/// would create an ever-growing linked list of redo-operations that restore
/// each other.
pub fn operation_to_restore(parents: &[String]) -> (target: Result<Target, RedoError>)
    ensures
        if parents@.len() == 1 {
            is_target(parents@[0]@, RedoError::BadParentTarget, target)
        } else {
            target == Err::<Target, RedoError>(RedoError::NotSingleParent)
        },
{
    if parents.len() != 1 {
        return Err(RedoError::NotSingleParent);
    }
    find_target(parents[0].as_str(), RedoError::BadParentTarget)
}

/// Returns the description of the redo-operation that restores to an operation.
pub fn redo_description(id: &OperationId) -> (description: String)
    ensures
        description@ == REDO_OP_DESC_PREFIX@ + hex_text(id.bytes@),
{
    let hex: String = id.hex();
    concat(REDO_OP_DESC_PREFIX, hex.as_str())
}

/// The description of a redo-operation names the operation that it restores to.
pub proof fn lemma_description_read_back(id: Seq<u8>)
    ensures
        named_target(REDO_OP_DESC_PREFIX@ + hex_text(id)) == Some(Some(id)),
{
    let prefix = REDO_OP_DESC_PREFIX@;
    let description = prefix + hex_text(id);
    assert(prefix =~= description.subrange(0, prefix.len() as int));
    assert(description.skip(prefix.len() as int) =~= hex_text(id));
    lemma_hex_read_back(id);
}

/// An operation that is no redo-operation stands for itself, and a
/// redo-operation for the one that its description names. A redo-operation that
/// names none is an error.
pub proof fn lemma_target(
    id: Seq<char>,
    description: Seq<char>,
    error: RedoError,
    target: Result<Target, RedoError>,
)
    requires
        is_target(description, error, target),
    ensures
        !REDO_OP_DESC_PREFIX@.is_prefix_of(description) ==> target == Ok::<Target, RedoError>(
            Target::This,
        ),
        description == REDO_OP_DESC_PREFIX@ + id && hex_bytes(id) is None ==> target == Err::<
            Target,
            RedoError,
        >(error),
        description == REDO_OP_DESC_PREFIX@ + id && hex_bytes(id) is Some ==> (target matches Ok(
            Target::Other(other),
        ) && other.bytes@ == hex_bytes(id)->Some_0),
{
    let prefix = REDO_OP_DESC_PREFIX@;
    if description == prefix + id {
        assert(prefix =~= description.take(prefix.len() as int));
        assert(description.skip(prefix.len() as int) =~= id);
    }
}

} // verus!
