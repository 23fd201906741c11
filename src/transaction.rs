//! A group of edits to be applied together.

use vstd::prelude::*;

verus! {

/// One edit: an insertion of text at a byte offset, or a deletion of a
/// number of bytes at a byte offset.
#[derive(Debug, PartialEq, Eq, Clone)]
pub enum Operation {
    Insertion(usize, String),
    Deletion(usize, u32),
}

/// An ordered list of edits.
pub struct Transaction {
    pub operations: Vec<Operation>,
}

impl Transaction {
    /// A transaction with no edits.
    pub fn new() -> (r: Self)
        ensures
            r.operations@ == Seq::<Operation>::empty(),
    {
        Transaction { operations: Vec::new() }
    }

    /// A transaction holding `operations`, in order.
    pub fn from(operations: Vec<Operation>) -> (r: Self)
        ensures
            r.operations@ == operations@,
    {
        Transaction { operations }
    }

    /// Adds `op` after the edits already held.
    pub fn append_operation(&mut self, op: Operation)
        ensures
            final(self).operations@ == old(self).operations@.push(op),
    {
        self.operations.push(op);
    }
}

} // verus!
