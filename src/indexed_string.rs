//! An append-only byte store that keeps the positions of its line feeds.

use std::collections::BTreeSet;
use vstd::prelude::*;
use vstd::string::StringSliceAdditionalSpecFns;

verus! {

broadcast use vstd::std_specs::btree::group_btree_axioms, vstd::laws_cmp::group_laws_cmp;

/// The byte that ends a line (`'\n'`).
pub const LINE_FEED: u8 = 10;

/// The byte that precedes a line feed in CRLF text (`'\r'`); it is not indexed.
pub const CARRIAGE_RETURN: u8 = 13;

/// `set` holds exactly the positions of `bytes` that hold a line feed.
pub open spec fn linebreaks_exact(bytes: Seq<u8>, set: Set<usize>) -> bool {
    forall|i: usize| #[trigger]
        set.contains(i) <==> (i < bytes.len() && bytes[i as int] == LINE_FEED)
}

/// `r` lists, in increasing order, the positions `offset + i` of every line
/// feed at local index `i` of `bytes`.
pub open spec fn lists_linebreaks(r: Seq<usize>, bytes: Seq<u8>, offset: int) -> bool {
    &&& forall|k: int, l: int| 0 <= k < l < r.len() ==> r[k] < r[l]
    &&& forall|p: usize| #[trigger]
        r.contains(p) <==> (offset <= p < offset + bytes.len() && bytes[p - offset] == LINE_FEED)
}

/// A growable byte sequence with an ordered index of its line-feed positions.
pub struct IndexedString {
    linebreaks: BTreeSet<usize>,
    source: Vec<u8>,
}

impl View for IndexedString {
    type V = Seq<u8>;

    closed spec fn view(&self) -> Seq<u8> {
        self.source@
    }
}

impl IndexedString {
    /// The positions recorded in the line-break index.
    pub closed spec fn linebreak_set(&self) -> Set<usize> {
        self.linebreaks@
    }

    /// The line-break index is exactly the set of line-feed positions.
    pub open spec fn wf(&self) -> bool {
        linebreaks_exact(self@, self.linebreak_set())
    }

    /// Scans `source` and returns `byte_offset + i` for each line feed at index `i`.
    fn find_linebreaks(source: &[u8], byte_offset: usize) -> (r: Vec<usize>)
        requires
            byte_offset + source@.len() <= usize::MAX,
        ensures
            lists_linebreaks(r@, source@, byte_offset as int),
    {
        let mut linebreaks: Vec<usize> = Vec::new();
        let mut index: usize = 0;
        while index < source.len()
            invariant
                index <= source@.len(),
                byte_offset + source@.len() <= usize::MAX,
                forall|k: int, l: int| 0 <= k < l < linebreaks@.len() ==> linebreaks@[k] < linebreaks@[l],
                forall|k: int| 0 <= k < linebreaks@.len() ==> linebreaks@[k] < byte_offset + index,
                forall|p: usize| #[trigger]
                    linebreaks@.contains(p) <==> (byte_offset <= p < byte_offset + index
                        && source@[p - byte_offset] == LINE_FEED),
            decreases source@.len() - index,
        {
            let ghost before = linebreaks@;
            if source[index] == LINE_FEED {
                linebreaks.push(index + byte_offset);
            }
            index = index + 1;
            assert forall|p: usize| #[trigger]
                linebreaks@.contains(p) <==> (byte_offset <= p < byte_offset + index
                    && source@[p - byte_offset] == LINE_FEED) by {
                if source@[index - 1] == LINE_FEED {
                    assert(linebreaks@ == before.push((index - 1 + byte_offset) as usize));
                    if linebreaks@.contains(p) && p != index - 1 + byte_offset {
                        let k = choose|k: int| 0 <= k < linebreaks@.len() && linebreaks@[k] == p;
                        assert(before[k] == p);
                    }
                    if before.contains(p) {
                        let k = choose|k: int| 0 <= k < before.len() && before[k] == p;
                        assert(linebreaks@[k] == p);
                    }
                    if p == index - 1 + byte_offset {
                        assert(linebreaks@[linebreaks@.len() - 1] == p);
                    }
                }
            }
        }
        linebreaks
    }

    /// Adds every position of `positions` to the line-break index.
    fn insert_linebreaks(&mut self, positions: &Vec<usize>)
        ensures
            final(self)@ == old(self)@,
            forall|p: usize| #[trigger]
                final(self).linebreak_set().contains(p) <==> (old(self).linebreak_set().contains(p)
                    || positions@.contains(p)),
    {
        let mut k: usize = 0;
        while k < positions.len()
            invariant
                k <= positions@.len(),
                self@ == old(self)@,
                forall|p: usize| #[trigger]
                    self.linebreak_set().contains(p) <==> (old(self).linebreak_set().contains(p)
                        || exists|j: int| 0 <= j < k && positions@[j] == p),
            decreases positions@.len() - k,
        {
            let ghost before = self.linebreak_set();
            proof {
                assert(vstd::laws_cmp::obeys_cmp::<usize>());
            }
            self.linebreaks.insert(positions[k]);
            assert(self.linebreak_set() == before.insert(positions@[k as int]));
            k = k + 1;
            assert forall|p: usize| #[trigger]
                self.linebreak_set().contains(p) <==> (old(self).linebreak_set().contains(p)
                    || exists|j: int| 0 <= j < k && positions@[j] == p) by {
                if p == positions@[k - 1] {
                    assert(positions@[k - 1] == p);
                }
            }
        }
    }

    /// Builds the line-break index of the whole store.
    fn index_linebreaks(&mut self)
        requires
            old(self).linebreak_set() == Set::<usize>::empty(),
        ensures
            final(self)@ == old(self)@,
            final(self).wf(),
    {
        // The store's length fits `usize`, so positions in it do too.
        let n = self.source.len();
        assert(n == self@.len());
        let found = IndexedString::find_linebreaks(self.source.as_slice(), 0);
        self.insert_linebreaks(&found);
    }

    /// An empty store with an empty line-break index.
    pub fn new() -> (r: Self)
        ensures
            r@ == Seq::<u8>::empty(),
            r.wf(),
    {
        IndexedString { linebreaks: BTreeSet::new(), source: Vec::new() }
    }

    /// A store holding the bytes of `source`, with its line feeds indexed.
    pub fn from(source: &str) -> (r: Self)
        ensures
            r@ == source.spec_bytes(),
            r.wf(),
    {
        let mut text = IndexedString {
            linebreaks: BTreeSet::new(),
            source: vstd::slice::slice_to_vec(source.as_bytes()),
        };
        text.index_linebreaks();
        text
    }

    /// Appends the bytes of `text`; only the new bytes are scanned for line feeds,
    /// and every position already indexed stays.
    pub fn append(&mut self, text: &str)
        requires
            old(self)@.len() + text.spec_bytes().len() <= usize::MAX,
        ensures
            final(self)@ == old(self)@ + text.spec_bytes(),
            old(self).wf() ==> final(self).wf(),
            forall|p: usize| old(self).linebreak_set().contains(p)
                ==> #[trigger] final(self).linebreak_set().contains(p),
    {
        let bytes = text.as_bytes();
        let found = IndexedString::find_linebreaks(bytes, self.source.len());
        self.insert_linebreaks(&found);
        let ghost mid = self.linebreak_set();
        self.source.extend_from_slice(bytes);
        assert(self.linebreak_set() == mid);
        proof {
            if old(self).wf() {
                assert forall|i: usize| #[trigger]
                    self.linebreak_set().contains(i) <==> (i < self@.len() && self@[i as int]
                        == LINE_FEED) by {
                    if i < old(self)@.len() {
                        assert(self@[i as int] == old(self)@[i as int]);
                    } else if i < self@.len() {
                        assert(self@[i as int] == bytes@[i - old(self)@.len()]);
                    }
                }
            }
        }
    }

    /// The number of bytes held.
    pub fn len(&self) -> (r: usize)
        ensures
            r == self@.len(),
    {
        self.source.len()
    }

    /// The bytes held.
    pub fn as_bytes(&self) -> (r: &[u8])
        ensures
            r@ == self@,
    {
        self.source.as_slice()
    }

    /// The line-break index.
    pub fn linebreaks(&self) -> (r: &BTreeSet<usize>)
        ensures
            r@ == self.linebreak_set(),
    {
        &self.linebreaks
    }

    /// The bytes as text; when they are valid UTF-8 it is exactly the text
    /// they encode.
    pub fn render(&self) -> (r: String)
        ensures
            vstd::utf8::valid_utf8(self@) ==> vstd::utf8::encode_utf8(r@) == self@,
    {
        crate::fragment::string_from_bytes(self.source.as_slice())
    }

    /// The line feeds in `[start, end)`, as offsets from `start`, in increasing order.
    pub fn select_relative_linebreaks(&self, start: usize, end: usize) -> (r: Vec<usize>)
        requires
            self.wf(),
            start <= end <= self@.len(),
        ensures
            lists_linebreaks(r@, self@.subrange(start as int, end as int), 0),
            forall|p: usize| #[trigger] r@.contains(p) ==> self.linebreak_set().contains((start + p) as usize),
    {
        let window = crate::fragment::copy_range(self.source.as_slice(), start, end);
        let r = IndexedString::find_linebreaks(window.as_slice(), 0);
        proof {
            assert forall|p: usize| #[trigger] r@.contains(p) implies self.linebreak_set().contains(
                (start + p) as usize,
            ) by {
                assert(self@[start + p] == window@[p as int]);
            }
        }
        r
    }
}

} // verus!
