//! The set of open buffers.

use crate::buffer::Buffer;
use vstd::prelude::*;

verus! {

/// The open buffers, each under its own identifier.
pub struct Editor {
    buffers: Vec<Buffer>,
}

impl Editor {
    /// The open buffers.
    pub closed spec fn buffer_list(&self) -> Seq<Buffer> {
        self.buffers@
    }

    /// No two buffers share an identifier.
    pub open spec fn wf(&self) -> bool {
        forall|i: int, k: int|
            0 <= i < k < self.buffer_list().len() ==> #[trigger] self.buffer_list()[i].ident()
                != #[trigger] self.buffer_list()[k].ident()
    }

    /// An editor with one empty buffer open.
    pub fn new() -> (r: Self)
        ensures
            r.wf(),
            r.buffer_list().len() == 1,
            r.buffer_list()[0].doc()@ == Seq::<u8>::empty(),
    {
        let empty_buffer = Buffer::from_string("");
        proof {
            reveal_strlit("");
        }
        let mut buffers: Vec<Buffer> = Vec::new();
        buffers.push(empty_buffer);
        Editor { buffers }
    }

    /// How many buffers are open.
    pub fn buffer_count(&self) -> (r: usize)
        ensures
            r == self.buffer_list().len(),
    {
        self.buffers.len()
    }
}

} // verus!
