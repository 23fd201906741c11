//! A window `[byte_offset, byte_offset + byte_length)` into one of a document's
//! two byte stores.

use crate::indexed_string::IndexedString;
use vstd::prelude::*;
use vstd::utf8::encode_utf8;

verus! {

/// Which of the two stores backs a fragment.
#[derive(Debug, Clone, Copy, PartialEq, Eq, Structural)]
pub enum Source {
    Insertion,
    Original,
}

/// An immutable window into a store; its place in a document is carried by
/// the key it is filed under, not by the fragment.
#[derive(Debug, Clone, Copy, PartialEq, Eq, Structural)]
pub struct Fragment {
    pub byte_offset: usize,
    pub byte_length: usize,
    pub source: Source,
}

/// Relies on `String::from_utf8_lossy`: bytes that are valid UTF-8 come back as
/// the text they encode.
#[verifier::external_body]
pub(crate) fn string_from_bytes(bytes: &[u8]) -> (r: String)
    ensures
        vstd::utf8::valid_utf8(bytes@) ==> encode_utf8(r@) == bytes@,
{
    String::from_utf8_lossy(bytes).into_owned()
}

/// Copies `bytes[start..end]` into a new vector.
pub(crate) fn copy_range(bytes: &[u8], start: usize, end: usize) -> (r: Vec<u8>)
    requires
        start <= end <= bytes@.len(),
    ensures
        r@ == bytes@.subrange(start as int, end as int),
{
    let mut out: Vec<u8> = Vec::new();
    let mut i: usize = start;
    while i < end
        invariant
            start <= i <= end <= bytes@.len(),
            out@ == bytes@.subrange(start as int, i as int),
        decreases end - i,
    {
        out.push(bytes[i]);
        i = i + 1;
        assert(out@ =~= bytes@.subrange(start as int, i as int));
    }
    out
}

impl Fragment {
    /// The window lies inside a store of `store_len` bytes.
    pub open spec fn fits(self, store_len: nat) -> bool {
        self.byte_offset + self.byte_length <= store_len
    }

    /// The bytes the window designates in `store`.
    pub open spec fn bytes_in(self, store: Seq<u8>) -> Seq<u8> {
        store.subrange(self.byte_offset as int, self.byte_offset + self.byte_length)
    }

    fn new(source: Source, byte_offset: usize, byte_length: usize) -> (r: Self)
        ensures
            r == (Fragment { byte_offset, byte_length, source }),
    {
        Fragment { byte_length, byte_offset, source }
    }

    /// The `Original` fragment that spans the whole of `text`.
    pub fn from_string(text: &IndexedString) -> (r: Self)
        ensures
            r.byte_offset == 0,
            r.byte_length == text@.len(),
            r.source == Source::Original,
    {
        let size = text.len();
        Fragment::new(Source::Original, 0, size)
    }

    /// A window of `size` bytes at `offset` into the original store.
    pub fn of_original(offset: usize, size: usize) -> (r: Self)
        ensures
            r == (Fragment { byte_offset: offset, byte_length: size, source: Source::Original }),
    {
        Fragment::new(Source::Original, offset, size)
    }

    /// A window of `size` bytes at `offset` into the insertions store.
    pub fn of_insertion(offset: usize, size: usize) -> (r: Self)
        ensures
            r == (Fragment { byte_offset: offset, byte_length: size, source: Source::Insertion }),
    {
        Fragment::new(Source::Insertion, offset, size)
    }

    /// The bytes the fragment designates within `source`.
    pub fn slice_bytes(&self, source: &IndexedString) -> (r: Vec<u8>)
        requires
            self.fits(source@.len()),
        ensures
            r@ == self.bytes_in(source@),
    {
        let store = source.as_bytes();
        let store_len = store.len();
        assert(self.byte_offset + self.byte_length <= store_len);
        copy_range(store, self.byte_offset, self.byte_offset + self.byte_length)
    }

    /// The text the fragment designates within `source`.
    pub fn get_slice(&self, source: &IndexedString) -> (r: String)
        requires
            self.fits(source@.len()),
        ensures
            vstd::utf8::valid_utf8(self.bytes_in(source@)) ==> encode_utf8(r@) == self.bytes_in(
                source@,
            ),
    {
        let bytes = self.slice_bytes(source);
        string_from_bytes(bytes.as_slice())
    }

    /// Moves the window to `new_offset` and gives it `new_length` bytes.
    pub fn resize(&mut self, new_offset: usize, new_length: usize)
        ensures
            *final(self) == (Fragment {
                byte_offset: new_offset,
                byte_length: new_length,
                source: old(self).source,
            }),
    {
        self.byte_offset = new_offset;
        self.byte_length = new_length;
    }
}

} // verus!
