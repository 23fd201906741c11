//! A list-based text model: fragments kept in a vector, each carrying the
//! line breaks that fall inside it.

use crate::indexed_string::{lists_linebreaks, IndexedString};
use vstd::prelude::*;
use vstd::string::StringSliceAdditionalSpecFns;

verus! {

/// A window into one of the two stores, with the offsets (from the window's
/// start) of the line feeds inside it.
#[derive(Debug)]
pub struct Fragment {
    pub byte_offset: usize,
    pub byte_length: usize,
    pub lines: Vec<usize>,
    pub is_new: bool,
}

impl Fragment {
    fn new(is_new: bool, byte_offset: usize, byte_length: usize, source: &IndexedString) -> (r: Self)
        requires
            source.wf(),
            byte_offset + byte_length <= source@.len(),
        ensures
            r.is_new == is_new,
            r.byte_offset == byte_offset,
            r.byte_length == byte_length,
            lists_linebreaks(
                r.lines@,
                source@.subrange(byte_offset as int, byte_offset + byte_length),
                0,
            ),
    {
        let store_len = source.len();
        assert(byte_offset + byte_length <= store_len);
        let ending_offset = byte_offset + byte_length;
        let lines = source.select_relative_linebreaks(byte_offset, ending_offset);
        Fragment { byte_length, byte_offset, is_new, lines }
    }

    /// A window of `size` bytes at `offset` into the original store `text`.
    pub fn of_original(offset: usize, size: usize, text: &IndexedString) -> (r: Self)
        requires
            text.wf(),
            offset + size <= text@.len(),
        ensures
            !r.is_new,
            r.byte_offset == offset,
            r.byte_length == size,
            lists_linebreaks(r.lines@, text@.subrange(offset as int, offset + size), 0),
    {
        Fragment::new(false, offset, size, text)
    }
}

/// The original text, the inserted text, and the fragments over them.
pub struct SourceText {
    fragments: Vec<Fragment>,
    insertions: IndexedString,
    source: IndexedString,
}

impl SourceText {
    /// The fragments, in order.
    pub closed spec fn fragment_list(&self) -> Seq<Fragment> {
        self.fragments@
    }

    /// The store of the original text.
    pub closed spec fn source_store(&self) -> IndexedString {
        self.source
    }

    /// The store of inserted text.
    pub closed spec fn insertion_store(&self) -> IndexedString {
        self.insertions
    }

    /// The initial fragment, spanning the whole of `source`.
    fn create_source_fragment(source: &IndexedString) -> (r: Fragment)
        requires
            source.wf(),
        ensures
            !r.is_new,
            r.byte_offset == 0,
            r.byte_length == source@.len(),
            lists_linebreaks(r.lines@, source@, 0),
    {
        let size = source.len();
        let r = Fragment::of_original(0, size, source);
        assert(source@.subrange(0, size as int) =~= source@);
        r
    }

    /// An empty text: no bytes, and one empty original fragment.
    pub fn new() -> (r: SourceText)
        ensures
            r.source_store()@ == Seq::<u8>::empty(),
            r.insertion_store()@ == Seq::<u8>::empty(),
            r.fragment_list().len() == 1,
            !r.fragment_list()[0].is_new,
            r.fragment_list()[0].byte_offset == 0,
            r.fragment_list()[0].byte_length == 0,
    {
        let source = IndexedString::new();
        let fragment = SourceText::create_source_fragment(&source);
        let mut fragments: Vec<Fragment> = Vec::new();
        fragments.push(fragment);
        SourceText { insertions: IndexedString::new(), fragments, source }
    }

    /// The text `text`, held in one original fragment.
    pub fn from(text: &str) -> (r: SourceText)
        ensures
            r.source_store()@ == text.spec_bytes(),
            r.insertion_store()@ == Seq::<u8>::empty(),
            r.fragment_list().len() == 1,
            !r.fragment_list()[0].is_new,
            r.fragment_list()[0].byte_offset == 0,
            r.fragment_list()[0].byte_length == text.spec_bytes().len(),
    {
        let source = IndexedString::from(text);
        let fragment = SourceText::create_source_fragment(&source);
        let mut fragments: Vec<Fragment> = Vec::new();
        fragments.push(fragment);
        SourceText { insertions: IndexedString::new(), fragments, source }
    }

    /// The store of the original text.
    pub fn source(&self) -> (r: &IndexedString)
        ensures
            *r == self.source_store(),
    {
        &self.source
    }

    /// The store of inserted text.
    pub fn insertions(&self) -> (r: &IndexedString)
        ensures
            *r == self.insertion_store(),
    {
        &self.insertions
    }

    /// The fragments, in order.
    pub fn fragments(&self) -> (r: &Vec<Fragment>)
        ensures
            r@ == self.fragment_list(),
    {
        &self.fragments
    }
}

} // verus!
