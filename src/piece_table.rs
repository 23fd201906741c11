//! The mathematical model of a piece table: the text that a sequence of keyed
//! fragments spells out over two stores, and the facts the edits rely on.

use crate::fragment::{Fragment, Source};
use vstd::prelude::*;

verus! {

/// The store that backs fragments of the given source.
pub open spec fn store_of(source: Source, original: Seq<u8>, insertions: Seq<u8>) -> Seq<u8> {
    match source {
        Source::Original => original,
        Source::Insertion => insertions,
    }
}

/// The bytes that `f` designates.
pub open spec fn fragment_text(f: Fragment, original: Seq<u8>, insertions: Seq<u8>) -> Seq<u8> {
    f.bytes_in(store_of(f.source, original, insertions))
}

/// The concatenation of the fragments' bytes, in sequence order.
pub open spec fn entries_text(
    entries: Seq<(usize, Fragment)>,
    original: Seq<u8>,
    insertions: Seq<u8>,
) -> Seq<u8>
    decreases entries.len(),
{
    if entries.len() == 0 {
        Seq::empty()
    } else {
        entries_text(entries.drop_last(), original, insertions) + fragment_text(
            entries.last().1,
            original,
            insertions,
        )
    }
}

/// The sum of the fragments' lengths.
pub open spec fn total_length(entries: Seq<(usize, Fragment)>) -> nat
    decreases entries.len(),
{
    if entries.len() == 0 {
        0
    } else {
        total_length(entries.drop_last()) + entries.last().1.byte_length as nat
    }
}

/// The first key is `start` and each next key is the previous key plus its
/// fragment's length.
pub open spec fn contiguous_from(entries: Seq<(usize, Fragment)>, start: int) -> bool {
    &&& entries.len() > 0 ==> entries[0].0 == start
    &&& forall|i: int|
        0 < i < entries.len() ==> #[trigger] entries[i].0 == entries[i - 1].0 + entries[i
            - 1].1.byte_length
}

/// Every fragment lies inside its store.
pub open spec fn all_fit(entries: Seq<(usize, Fragment)>, original: Seq<u8>, insertions: Seq<u8>) -> bool {
    forall|i: int|
        0 <= i < entries.len() ==> #[trigger] entries[i].1.fits(
            store_of(entries[i].1.source, original, insertions).len(),
        )
}

/// Every fragment holds at least one byte.
pub open spec fn all_nonempty(entries: Seq<(usize, Fragment)>) -> bool {
    forall|i: int| 0 <= i < entries.len() ==> #[trigger] entries[i].1.byte_length > 0
}

/// The same fragments with every key moved by `delta`.
pub open spec fn shift_keys(entries: Seq<(usize, Fragment)>, delta: int) -> Seq<(usize, Fragment)> {
    Seq::new(entries.len(), |i: int| ((entries[i].0 + delta) as usize, entries[i].1))
}

/// `x` clamped into `[0, n]`.
pub open spec fn clamp(x: int, n: int) -> int {
    if x < 0 {
        0
    } else if x > n {
        n
    } else {
        x
    }
}

/// `text` with the positions in `[lo, hi)` removed (positions outside the
/// text are ignored).
pub open spec fn cut(text: Seq<u8>, lo: int, hi: int) -> Seq<u8> {
    text.subrange(0, clamp(lo, text.len() as int)) + text.subrange(
        clamp(hi, text.len() as int),
        text.len() as int,
    )
}

/// `text` without the bytes `[a, b)`; an end past the text is taken as the
/// text's end.
pub open spec fn removed(text: Seq<u8>, a: int, b: int) -> Seq<u8> {
    text.subrange(0, a) + text.subrange(vstd::math::min(b, text.len() as int), text.len() as int)
}

/// `text` with `piece` placed before position `at`.
pub open spec fn spliced(text: Seq<u8>, at: int, piece: Seq<u8>) -> Seq<u8> {
    text.subrange(0, at) + piece + text.subrange(at, text.len() as int)
}

pub proof fn lemma_text_concat(
    a: Seq<(usize, Fragment)>,
    b: Seq<(usize, Fragment)>,
    original: Seq<u8>,
    insertions: Seq<u8>,
)
    ensures
        entries_text(a + b, original, insertions) == entries_text(a, original, insertions)
            + entries_text(b, original, insertions),
    decreases b.len(),
{
    if b.len() == 0 {
        assert(a + b =~= a);
        assert(entries_text(b, original, insertions) =~= Seq::empty());
        assert(entries_text(a, original, insertions) + Seq::empty() =~= entries_text(
            a,
            original,
            insertions,
        ));
    } else {
        lemma_text_concat(a, b.drop_last(), original, insertions);
        assert((a + b).drop_last() =~= a + b.drop_last());
        assert((a + b).last() == b.last());
        assert(entries_text(a + b, original, insertions) =~= entries_text(a, original, insertions)
            + entries_text(b, original, insertions));
    }
}

pub proof fn lemma_text_len(entries: Seq<(usize, Fragment)>, original: Seq<u8>, insertions: Seq<u8>)
    requires
        all_fit(entries, original, insertions),
    ensures
        entries_text(entries, original, insertions).len() == total_length(entries),
    decreases entries.len(),
{
    if entries.len() > 0 {
        let init = entries.drop_last();
        assert forall|i: int| 0 <= i < init.len() implies #[trigger] init[i].1.fits(
            store_of(init[i].1.source, original, insertions).len(),
        ) by {
            assert(init[i] == entries[i]);
        }
        lemma_text_len(init, original, insertions);
        let k = entries.len() - 1;
        assert(entries.last() == entries[k]);
        assert(entries[k].1.fits(store_of(entries[k].1.source, original, insertions).len()));
    }
}

pub proof fn lemma_text_single(e: (usize, Fragment), original: Seq<u8>, insertions: Seq<u8>)
    ensures
        entries_text(seq![e], original, insertions) == fragment_text(e.1, original, insertions),
{
    assert(seq![e].drop_last() =~= Seq::<(usize, Fragment)>::empty());
    assert(seq![e].last() == e);
    assert(entries_text(Seq::<(usize, Fragment)>::empty(), original, insertions) =~= Seq::<
        u8,
    >::empty());
    assert(Seq::<u8>::empty() + fragment_text(e.1, original, insertions) =~= fragment_text(
        e.1,
        original,
        insertions,
    ));
}

/// Keys that run contiguously from `start` are the running sums of the lengths.
pub proof fn lemma_contiguous_keys(entries: Seq<(usize, Fragment)>, start: int)
    requires
        contiguous_from(entries, start),
    ensures
        forall|i: int|
            0 <= i < entries.len() ==> #[trigger] entries[i].0 == start + total_length(
                entries.subrange(0, i),
            ),
        entries.len() > 0 ==> entries.last().0 + entries.last().1.byte_length == start
            + total_length(entries),
    decreases entries.len(),
{
    if entries.len() > 0 {
        let init = entries.drop_last();
        assert(contiguous_from(init, start)) by {
            assert forall|i: int| 0 < i < init.len() implies #[trigger] init[i].0 == init[i
                - 1].0 + init[i - 1].1.byte_length by {
                assert(init[i] == entries[i]);
                assert(init[i - 1] == entries[i - 1]);
            }
        }
        lemma_contiguous_keys(init, start);
        assert forall|i: int| 0 <= i < entries.len() implies #[trigger] entries[i].0 == start
            + total_length(entries.subrange(0, i)) by {
            if i < entries.len() - 1 {
                assert(entries.subrange(0, i) =~= init.subrange(0, i));
                assert(init[i] == entries[i]);
            } else {
                assert(entries.subrange(0, i) =~= init);
                if i > 0 {
                    assert(init.subrange(0, i - 1) =~= init.drop_last());
                    assert(init.last() == entries[i - 1]);
                    assert(init[i - 1] == entries[i - 1]);
                } else {
                    assert(init =~= Seq::<(usize, Fragment)>::empty());
                }
            }
        }
        assert(entries.subrange(0, entries.len() - 1) =~= init);
    }
}

/// Contiguous keys never decrease, and strictly increase over nonempty fragments.
pub proof fn lemma_keys_ordered(entries: Seq<(usize, Fragment)>, start: int, i: int, j: int)
    requires
        contiguous_from(entries, start),
        0 <= i <= j < entries.len(),
    ensures
        entries[i].0 <= entries[j].0,
        i < j && all_nonempty(entries) ==> entries[i].0 < entries[j].0,
        entries[i].0 + entries[i].1.byte_length <= entries[j].0 + entries[j].1.byte_length,
    decreases j - i,
{
    if i < j {
        lemma_keys_ordered(entries, start, i, j - 1);
        assert(entries[j].0 == entries[j - 1].0 + entries[j - 1].1.byte_length);
    }
}

/// A contiguous run ends at its start plus its total length.
pub proof fn lemma_contiguous_end(entries: Seq<(usize, Fragment)>, start: int)
    requires
        contiguous_from(entries, start),
        entries.len() > 0,
    ensures
        forall|i: int|
            0 <= i < entries.len() ==> start <= #[trigger] entries[i].0 && entries[i].0
                + entries[i].1.byte_length <= start + total_length(entries),
{
    lemma_contiguous_keys(entries, start);
    assert forall|i: int| 0 <= i < entries.len() implies start <= #[trigger] entries[i].0
        && entries[i].0 + entries[i].1.byte_length <= start + total_length(entries) by {
        lemma_keys_ordered(entries, start, 0, i);
        lemma_keys_ordered(entries, start, i, entries.len() - 1);
    }
}

/// Fragments that lie inside the insertions store read the same bytes after the
/// store has grown.
pub proof fn lemma_text_after_growth(
    entries: Seq<(usize, Fragment)>,
    original: Seq<u8>,
    insertions: Seq<u8>,
    extra: Seq<u8>,
)
    requires
        all_fit(entries, original, insertions),
    ensures
        entries_text(entries, original, insertions + extra) == entries_text(
            entries,
            original,
            insertions,
        ),
        all_fit(entries, original, insertions + extra),
    decreases entries.len(),
{
    assert forall|i: int| 0 <= i < entries.len() implies #[trigger] entries[i].1.fits(
        store_of(entries[i].1.source, original, insertions + extra).len(),
    ) by {
        assert(entries[i].1.fits(store_of(entries[i].1.source, original, insertions).len()));
    }
    if entries.len() > 0 {
        let init = entries.drop_last();
        assert forall|i: int| 0 <= i < init.len() implies #[trigger] init[i].1.fits(
            store_of(init[i].1.source, original, insertions).len(),
        ) by {
            assert(init[i] == entries[i]);
        }
        lemma_text_after_growth(init, original, insertions, extra);
        let k = entries.len() - 1;
        let f = entries.last().1;
        assert(entries.last() == entries[k]);
        assert(entries[k].1.fits(store_of(entries[k].1.source, original, insertions).len()));
        assert(fragment_text(f, original, insertions + extra) =~= fragment_text(
            f,
            original,
            insertions,
        ));
    }
}

/// Moving keys does not change the text.
pub proof fn lemma_text_shift(
    entries: Seq<(usize, Fragment)>,
    delta: int,
    original: Seq<u8>,
    insertions: Seq<u8>,
)
    ensures
        entries_text(shift_keys(entries, delta), original, insertions) == entries_text(
            entries,
            original,
            insertions,
        ),
    decreases entries.len(),
{
    if entries.len() > 0 {
        lemma_text_shift(entries.drop_last(), delta, original, insertions);
        assert(shift_keys(entries, delta).drop_last() =~= shift_keys(entries.drop_last(), delta));
    }
}

/// Removing a range from a concatenation removes it from each part.
pub proof fn lemma_cut_concat(x: Seq<u8>, y: Seq<u8>, lo: int, hi: int)
    requires
        lo <= hi,
    ensures
        cut(x + y, lo, hi) == cut(x, lo, hi) + cut(y, lo - x.len(), hi - x.len()),
{
    let n = x.len() as int;
    let xy = x + y;
    let lhs = cut(xy, lo, hi);
    let rhs = cut(x, lo, hi) + cut(y, lo - n, hi - n);
    if hi <= n {
        assert(xy.subrange(0, clamp(lo, xy.len() as int)) =~= x.subrange(0, clamp(lo, n)));
        assert(xy.subrange(clamp(hi, xy.len() as int), xy.len() as int) =~= x.subrange(
            clamp(hi, n),
            n,
        ) + y);
        assert(cut(y, lo - n, hi - n) =~= y);
        assert(lhs =~= rhs);
    } else if lo <= n {
        assert(xy.subrange(0, clamp(lo, xy.len() as int)) =~= x.subrange(0, clamp(lo, n)));
        assert(xy.subrange(clamp(hi, xy.len() as int), xy.len() as int) =~= y.subrange(
            clamp(hi - n, y.len() as int),
            y.len() as int,
        ));
        assert(cut(x, lo, hi) =~= x.subrange(0, clamp(lo, n)));
        assert(cut(y, lo - n, hi - n) =~= y.subrange(
            clamp(hi - n, y.len() as int),
            y.len() as int,
        ));
        assert(lhs =~= rhs);
    } else {
        assert(xy.subrange(0, clamp(lo, xy.len() as int)) =~= x + y.subrange(
            0,
            clamp(lo - n, y.len() as int),
        ));
        assert(xy.subrange(clamp(hi, xy.len() as int), xy.len() as int) =~= y.subrange(
            clamp(hi - n, y.len() as int),
            y.len() as int,
        ));
        assert(cut(x, lo, hi) =~= x);
        assert(lhs =~= rhs);
    }
}

/// Fitting and non-empty fragments stay so under concatenation.
pub proof fn lemma_concat_props(
    x: Seq<(usize, Fragment)>,
    y: Seq<(usize, Fragment)>,
    original: Seq<u8>,
    insertions: Seq<u8>,
)
    ensures
        all_fit(x, original, insertions) && all_fit(y, original, insertions) ==> all_fit(
            x + y,
            original,
            insertions,
        ),
        all_nonempty(x) && all_nonempty(y) ==> all_nonempty(x + y),
{
    let xy = x + y;
    if all_fit(x, original, insertions) && all_fit(y, original, insertions) {
        assert forall|i: int| 0 <= i < xy.len() implies #[trigger] xy[i].1.fits(
            store_of(xy[i].1.source, original, insertions).len(),
        ) by {
            if i < x.len() {
                assert(xy[i] == x[i]);
            } else {
                assert(xy[i] == y[i - x.len()]);
            }
        }
    }
    if all_nonempty(x) && all_nonempty(y) {
        assert forall|i: int| 0 <= i < xy.len() implies #[trigger] xy[i].1.byte_length > 0 by {
            if i < x.len() {
                assert(xy[i] == x[i]);
            } else {
                assert(xy[i] == y[i - x.len()]);
            }
        }
    }
}

/// Any window of a contiguous run is contiguous from its own first key, and
/// keeps the other properties.
pub proof fn lemma_subrange_props(
    entries: Seq<(usize, Fragment)>,
    start: int,
    lo: int,
    hi: int,
    original: Seq<u8>,
    insertions: Seq<u8>,
)
    requires
        contiguous_from(entries, start),
        0 <= lo <= hi <= entries.len(),
    ensures
        lo < entries.len() ==> contiguous_from(entries.subrange(lo, hi), entries[lo].0 as int),
        lo == 0 ==> contiguous_from(entries.subrange(lo, hi), start),
        all_fit(entries, original, insertions) ==> all_fit(entries.subrange(lo, hi), original, insertions),
        all_nonempty(entries) ==> all_nonempty(entries.subrange(lo, hi)),
{
    let w = entries.subrange(lo, hi);
    assert forall|i: int| 0 < i < w.len() implies #[trigger] w[i].0 == w[i - 1].0 + w[i
        - 1].1.byte_length by {
        assert(w[i] == entries[lo + i] && w[i - 1] == entries[lo + i - 1]);
    }
    if all_fit(entries, original, insertions) {
        assert forall|i: int| 0 <= i < w.len() implies #[trigger] w[i].1.fits(
            store_of(w[i].1.source, original, insertions).len(),
        ) by {
            assert(w[i] == entries[lo + i]);
        }
    }
    if all_nonempty(entries) {
        assert forall|i: int| 0 <= i < w.len() implies #[trigger] w[i].1.byte_length > 0 by {
            assert(w[i] == entries[lo + i]);
        }
    }
    if w.len() > 0 {
        assert(w[0] == entries[lo]);
    }
}

/// Shifting the keys of a contiguous run shifts where it starts and keeps the
/// other properties.
pub proof fn lemma_shift_props(
    entries: Seq<(usize, Fragment)>,
    start: int,
    delta: int,
    original: Seq<u8>,
    insertions: Seq<u8>,
)
    requires
        contiguous_from(entries, start),
        forall|i: int|
            0 <= i < entries.len() ==> 0 <= #[trigger] entries[i].0 + delta <= usize::MAX,
    ensures
        contiguous_from(shift_keys(entries, delta), start + delta),
        total_length(shift_keys(entries, delta)) == total_length(entries),
        all_fit(entries, original, insertions) ==> all_fit(
            shift_keys(entries, delta),
            original,
            insertions,
        ),
        all_nonempty(entries) ==> all_nonempty(shift_keys(entries, delta)),
    decreases entries.len(),
{
    let w = shift_keys(entries, delta);
    assert forall|i: int| 0 < i < w.len() implies #[trigger] w[i].0 == w[i - 1].0 + w[i
        - 1].1.byte_length by {
        assert(entries[i].0 == entries[i - 1].0 + entries[i - 1].1.byte_length);
        assert(0 <= entries[i].0 + delta <= usize::MAX);
        assert(0 <= entries[i - 1].0 + delta <= usize::MAX);
    }
    if w.len() > 0 {
        assert(0 <= entries[0].0 + delta <= usize::MAX);
    }
    if entries.len() > 0 {
        let init = entries.drop_last();
        assert(contiguous_from(init, start)) by {
            lemma_subrange_props(entries, start, 0, entries.len() - 1, original, insertions);
            assert(init =~= entries.subrange(0, entries.len() - 1));
        }
        assert forall|i: int| 0 <= i < init.len() implies 0 <= #[trigger] init[i].0 + delta
            <= usize::MAX by {
            assert(init[i] == entries[i]);
        }
        lemma_shift_props(init, start, delta, original, insertions);
        assert(w.drop_last() =~= shift_keys(init, delta));
    }
    if all_fit(entries, original, insertions) {
        assert forall|i: int| 0 <= i < w.len() implies #[trigger] w[i].1.fits(
            store_of(w[i].1.source, original, insertions).len(),
        ) by {
            assert(entries[i].1.fits(store_of(entries[i].1.source, original, insertions).len()));
        }
    }
    if all_nonempty(entries) {
        assert forall|i: int| 0 <= i < w.len() implies #[trigger] w[i].1.byte_length > 0 by {
            assert(entries[i].1.byte_length > 0);
        }
    }
}

/// Splicing into the middle part of a concatenation splices into the whole.
pub proof fn lemma_splice_concat(a: Seq<u8>, x: Seq<u8>, b: Seq<u8>, at: int, t: Seq<u8>)
    requires
        0 <= at <= x.len(),
    ensures
        a + spliced(x, at, t) + b == spliced(a + x + b, a.len() + at, t),
{
    let whole = a + x + b;
    assert(whole.subrange(0, a.len() + at) =~= a + x.subrange(0, at));
    assert(whole.subrange(a.len() + at, whole.len() as int) =~= x.subrange(at, x.len() as int) + b);
    assert(a + spliced(x, at, t) + b =~= spliced(whole, a.len() + at, t));
}

/// A range that starts at or past the end of a text removes nothing from it.
pub proof fn lemma_cut_past_end(x: Seq<u8>, lo: int, hi: int)
    requires
        x.len() <= lo <= hi,
    ensures
        cut(x, lo, hi) == x,
{
    assert(cut(x, lo, hi) =~= x);
}

/// Deleting the bytes just inserted gives back the text from before the
/// insertion.
pub proof fn lemma_round_trip(before: Seq<u8>, p: int, s: Seq<u8>)
    requires
        0 <= p <= before.len(),
    ensures
        removed(spliced(before, p, s), p, p + s.len()) == before,
{
    let after = spliced(before, p, s);
    assert(after.subrange(0, p) =~= before.subrange(0, p));
    assert(after.subrange(p + s.len(), after.len() as int) =~= before.subrange(p, before.len() as int));
    assert(removed(after, p, p + s.len()) =~= before);
}

/// Inserting `s` at `p` makes the text `|s|` bytes longer and puts `s` at `p`.
pub proof fn lemma_insert_length(before: Seq<u8>, p: int, s: Seq<u8>)
    requires
        0 <= p <= before.len(),
    ensures
        spliced(before, p, s).len() == before.len() + s.len(),
        spliced(before, p, s).subrange(p, p + s.len()) == s,
{
    assert(spliced(before, p, s).subrange(p, p + s.len()) =~= s);
}

/// Deleting `[a, b)` shortens the text by the part of the range inside it.
pub proof fn lemma_delete_length(before: Seq<u8>, a: int, b: int)
    requires
        0 <= a <= b,
        a <= before.len(),
    ensures
        removed(before, a, b).len() == before.len() - (vstd::math::min(b, before.len() as int) - a),
{
}

} // verus!
