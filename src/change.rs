//! Fragment-level change records, and what applying one does to a fragment.

use crate::fragment::Fragment;
use crate::piece_table::{
    all_fit, all_nonempty, contiguous_from, cut, entries_text, fragment_text, lemma_contiguous_keys,
    lemma_text_single, spliced, store_of, total_length,
};
use vstd::prelude::*;

verus! {

/// One structural edit to a single fragment.
#[derive(Debug, Clone, Copy, PartialEq, Eq, Structural)]
pub enum FragmentOperation {
    /// Stitch a fragment in at this byte offset from the fragment's start.
    Insert(usize, Fragment),
    /// Drop the document bytes `[stop, resume)` from inside the fragment.
    Split(usize, usize),
    /// Drop bytes from the fragment's start and end.
    Trim(usize, usize),
    /// Remove the fragment; it held this many bytes.
    Delete(usize),
    /// Keep the fragment's bytes.
    Keep,
}

/// A planned change: the fragment filed under `key` is edited by `operation`
/// and filed under `move_to` afterwards.
#[derive(Debug, Clone, Copy, PartialEq, Eq, Structural)]
pub struct FragmentUpdate {
    pub operation: FragmentOperation,
    pub move_to: usize,
    pub key: usize,
}

/// The operation that deleting document bytes `[ds, de)` asks of the fragment
/// spanning `[fs, fe)`.
pub open spec fn deletion_operation(fs: int, fe: int, ds: int, de: int) -> FragmentOperation {
    if ds <= fs && de >= fe {
        FragmentOperation::Delete((fe - fs) as usize)
    } else if ds > fs && de < fe {
        FragmentOperation::Split(ds as usize, de as usize)
    } else {
        let trim_end = if ds > fs && ds < fe {
            fe - ds
        } else {
            0
        };
        let trim_start = if de < fe && de > fs {
            de - fs
        } else {
            0
        };
        if trim_start == 0 && trim_end == 0 {
            FragmentOperation::Keep
        } else {
            FragmentOperation::Trim(trim_start as usize, trim_end as usize)
        }
    }
}

/// How many bytes an operation removes from the document.
pub open spec fn deleted_count(op: FragmentOperation) -> int {
    match op {
        FragmentOperation::Split(start, end) => end - start,
        FragmentOperation::Trim(start, end) => start + end,
        FragmentOperation::Delete(bytes) => bytes as int,
        _ => 0,
    }
}

/// The arithmetic that applying `u` to `f` performs stays within `usize`.
pub open spec fn update_applies(u: FragmentUpdate, f: Fragment) -> bool {
    &&& f.byte_offset + f.byte_length <= usize::MAX
    &&& u.key + f.byte_length <= usize::MAX
    &&& match u.operation {
        FragmentOperation::Trim(start, end) => start + end <= f.byte_length,
        FragmentOperation::Split(stop, resume) => {
            &&& u.key <= stop <= resume <= u.key + f.byte_length
            &&& u.move_to + (stop - u.key) <= usize::MAX
        },
        FragmentOperation::Insert(offset, g) => u.key + offset + g.byte_length <= usize::MAX,
        _ => true,
    }
}

/// The entries that take the place of `(u.key, f)` once `u` is applied.
pub open spec fn pieces(u: FragmentUpdate, f: Fragment) -> Seq<(usize, Fragment)> {
    match u.operation {
        FragmentOperation::Keep => seq![(u.move_to, f)],
        FragmentOperation::Delete(_) => Seq::empty(),
        FragmentOperation::Trim(start, end) => seq![
            (
                u.move_to,
                Fragment {
                    byte_offset: (f.byte_offset + start) as usize,
                    byte_length: (f.byte_length - start - end) as usize,
                    source: f.source,
                },
            ),
        ],
        FragmentOperation::Split(stop, resume) => seq![
            (
                u.move_to,
                Fragment {
                    byte_offset: f.byte_offset,
                    byte_length: (stop - u.key) as usize,
                    source: f.source,
                },
            ),
            (
                (u.move_to + (stop - u.key)) as usize,
                Fragment {
                    byte_offset: (f.byte_offset + (resume - u.key)) as usize,
                    byte_length: (f.byte_length - (resume - u.key)) as usize,
                    source: f.source,
                },
            ),
        ],
        FragmentOperation::Insert(offset, g) => {
            let at = u.key + offset;
            if at >= u.key + f.byte_length {
                if at == u.key {
                    seq![(at as usize, g)]
                } else {
                    seq![(u.key, f), (at as usize, g)]
                }
            } else if at == u.key {
                seq![(at as usize, g), ((at + g.byte_length) as usize, f)]
            } else {
                seq![
                    (
                        u.key,
                        Fragment {
                            byte_offset: f.byte_offset,
                            byte_length: offset,
                            source: f.source,
                        },
                    ),
                    (at as usize, g),
                    (
                        (at + g.byte_length) as usize,
                        Fragment {
                            byte_offset: (f.byte_offset + offset) as usize,
                            byte_length: (f.byte_length - offset) as usize,
                            source: f.source,
                        },
                    ),
                ]
            }
        },
    }
}

/// The update that deleting `[a, b)` plans for the fragment `(k, f)`, to be
/// filed at `m` afterwards.
pub open spec fn deletion_update(k: usize, f: Fragment, a: usize, b: usize, m: usize) -> FragmentUpdate {
    FragmentUpdate {
        operation: deletion_operation(k as int, k + f.byte_length, a as int, b as int),
        move_to: m,
        key: k,
    }
}

/// Deleting from a fragment never removes more bytes than it holds.
pub proof fn lemma_deletion_count(fs: int, fe: int, ds: int, de: int)
    requires
        0 <= fs <= fe <= usize::MAX,
        0 <= ds <= de <= usize::MAX,
    ensures
        0 <= deleted_count(deletion_operation(fs, fe, ds, de)) <= fe - fs,
        match deletion_operation(fs, fe, ds, de) {
            FragmentOperation::Split(start, end) => start <= end,
            FragmentOperation::Trim(start, end) => start + end <= fe - fs,
            _ => true,
        },
{
}

/// The update that inserting `g` at offset `o` plans for the covering fragment
/// filed under `k`.
pub open spec fn insertion_update(k: usize, o: usize, g: Fragment) -> FragmentUpdate {
    FragmentUpdate { operation: FragmentOperation::Insert(o, g), move_to: k, key: k }
}

/// Concatenated runs stay contiguous when the second starts where the first ends.
pub proof fn lemma_contiguous_concat(x: Seq<(usize, Fragment)>, y: Seq<(usize, Fragment)>, start: int)
    requires
        contiguous_from(x, start),
        contiguous_from(y, start + total_length(x)),
    ensures
        contiguous_from(x + y, start),
        total_length(x + y) == total_length(x) + total_length(y),
{
    lemma_total_concat(x, y);
    lemma_contiguous_keys(x, start);
    let xy = x + y;
    assert forall|i: int| 0 < i < xy.len() implies #[trigger] xy[i].0 == xy[i - 1].0 + xy[i
        - 1].1.byte_length by {
        if i < x.len() {
            assert(xy[i] == x[i] && xy[i - 1] == x[i - 1]);
        } else if i == x.len() {
            assert(xy[i] == y[0] && xy[i - 1] == x.last());
        } else {
            assert(xy[i] == y[i - x.len()] && xy[i - 1] == y[i - 1 - x.len()]);
        }
    }
    if x.len() == 0 {
        assert(xy =~= y);
    } else {
        assert(xy[0] == x[0]);
    }
}

pub proof fn lemma_total_concat(x: Seq<(usize, Fragment)>, y: Seq<(usize, Fragment)>)
    ensures
        total_length(x + y) == total_length(x) + total_length(y),
    decreases y.len(),
{
    if y.len() == 0 {
        assert(x + y =~= x);
    } else {
        lemma_total_concat(x, y.drop_last());
        assert((x + y).drop_last() =~= x + y.drop_last());
        assert((x + y).last() == y.last());
    }
}

/// What deleting `[a, b)` does to one fragment `(k, f)` filed at position `m`
/// afterwards: the surviving pieces are contiguous from `m`, hold the
/// fragment's bytes outside the range, and lose exactly `deleted_count` bytes.
#[verifier::rlimit(60)]
pub proof fn lemma_deletion_pieces(
    k: usize,
    f: Fragment,
    a: usize,
    b: usize,
    m: usize,
    original: Seq<u8>,
    insertions: Seq<u8>,
)
    requires
        a <= b,
        f.byte_length > 0 || a == k,
        m <= k,
        k + f.byte_length <= usize::MAX,
        f.byte_offset + f.byte_length <= usize::MAX,
        f.fits(store_of(f.source, original, insertions).len()),
    ensures
        update_applies(deletion_update(k, f, a, b, m), f),
        0 <= deleted_count(deletion_update(k, f, a, b, m).operation) <= f.byte_length,
        contiguous_from(pieces(deletion_update(k, f, a, b, m), f), m as int),
        all_nonempty(pieces(deletion_update(k, f, a, b, m), f)),
        all_fit(pieces(deletion_update(k, f, a, b, m), f), original, insertions),
        total_length(pieces(deletion_update(k, f, a, b, m), f)) == f.byte_length - deleted_count(
            deletion_update(k, f, a, b, m).operation,
        ),
        entries_text(pieces(deletion_update(k, f, a, b, m), f), original, insertions) == cut(
            fragment_text(f, original, insertions),
            a - k,
            b - k,
        ),
{
    let op = deletion_operation(k as int, k + f.byte_length, a as int, b as int);
    let u = FragmentUpdate { operation: op, move_to: m, key: k };
    let ps = pieces(u, f);
    let x = fragment_text(f, original, insertions);
    let l = f.byte_length as int;
    assert(x.len() == l);
    match op {
        FragmentOperation::Delete(n) => {
            assert(ps =~= Seq::<(usize, Fragment)>::empty());
            assert(n == l);
            assert(total_length(ps) == 0);
            assert(entries_text(ps, original, insertions) =~= Seq::<u8>::empty());
            assert(cut(x, a - k, b - k) =~= Seq::<u8>::empty());
        },
        FragmentOperation::Split(stop, resume) => {
            let left = ps[0].1;
            let right = ps[1].1;
            assert(ps.drop_last() =~= seq![ps[0]]);
            lemma_text_single(ps[0], original, insertions);
            assert(entries_text(ps, original, insertions) == fragment_text(left, original, insertions)
                + fragment_text(right, original, insertions));
            assert(fragment_text(left, original, insertions) =~= x.subrange(0, a - k));
            assert(stop == a && resume == b);
            assert(right.byte_offset == f.byte_offset + (b - k));
            assert(right.byte_length == l - (b - k));
            assert(fragment_text(right, original, insertions) =~= x.subrange(b - k, l));
            assert(cut(x, a - k, b - k) =~= x.subrange(0, a - k) + x.subrange(b - k, l));
            assert(ps.drop_last().drop_last() =~= Seq::<(usize, Fragment)>::empty());
            assert(ps.drop_last().last() == ps[0]);
            assert(total_length(ps.drop_last().drop_last()) == 0);
            assert(total_length(ps.drop_last()) == a - k);
            assert(total_length(ps) == (a - k) + (l - (b - k)));
            assert(ps[1].0 == ps[0].0 + ps[0].1.byte_length);
        },
        FragmentOperation::Trim(ts, te) => {
            let g = ps[0].1;
            lemma_text_single(ps[0], original, insertions);
            assert(ps =~= seq![ps[0]]);
            if te > 0 {
                assert(fragment_text(g, original, insertions) =~= x.subrange(0, a - k));
                assert(cut(x, a - k, b - k) =~= x.subrange(0, a - k));
            } else {
                assert(fragment_text(g, original, insertions) =~= x.subrange(b - k, l));
                assert(cut(x, a - k, b - k) =~= x.subrange(b - k, l));
            }
            assert(ps.drop_last() =~= Seq::<(usize, Fragment)>::empty());
            assert(ps.last() == ps[0]);
            assert(total_length(ps.drop_last()) == 0);
            assert(total_length(ps) == ps[0].1.byte_length);
        },
        FragmentOperation::Keep => {
            lemma_text_single(ps[0], original, insertions);
            assert(ps =~= seq![ps[0]]);
            assert(cut(x, a - k, b - k) =~= x);
            assert(ps.drop_last() =~= Seq::<(usize, Fragment)>::empty());
            assert(ps.last() == ps[0]);
            assert(total_length(ps.drop_last()) == 0);
            assert(total_length(ps) == ps[0].1.byte_length);
        },
        FragmentOperation::Insert(_, _) => {},
    }
}

/// What stitching `g` into the fragment `(k, f)` at offset `o` does: the pieces
/// run contiguously from `k`, hold `f`'s bytes with `g`'s spliced in at `o`,
/// and add exactly `g`'s length.
pub proof fn lemma_insertion_pieces(
    k: usize,
    f: Fragment,
    o: usize,
    g: Fragment,
    original: Seq<u8>,
    insertions: Seq<u8>,
)
    requires
        o <= f.byte_length,
        g.byte_length > 0,
        f.byte_length > 0 || o == 0,
        k + o + g.byte_length <= usize::MAX,
        k + f.byte_length <= usize::MAX,
        f.byte_offset + f.byte_length <= usize::MAX,
        f.fits(store_of(f.source, original, insertions).len()),
        g.fits(store_of(g.source, original, insertions).len()),
    ensures
        update_applies(insertion_update(k, o, g), f),
        contiguous_from(pieces(insertion_update(k, o, g), f), k as int),
        all_nonempty(pieces(insertion_update(k, o, g), f)),
        all_fit(pieces(insertion_update(k, o, g), f), original, insertions),
        total_length(pieces(insertion_update(k, o, g), f)) == f.byte_length + g.byte_length,
        entries_text(pieces(insertion_update(k, o, g), f), original, insertions) == spliced(
            fragment_text(f, original, insertions),
            o as int,
            fragment_text(g, original, insertions),
        ),
{
    let u = insertion_update(k, o, g);
    let ps = pieces(u, f);
    let x = fragment_text(f, original, insertions);
    let t = fragment_text(g, original, insertions);
    let l = f.byte_length as int;
    assert(x.len() == l);
    if o >= l && o == 0 {
        assert(ps =~= seq![(k, g)]);
        lemma_text_single(ps[0], original, insertions);
        assert(ps.drop_last() =~= Seq::<(usize, Fragment)>::empty());
        assert(total_length(ps.drop_last()) == 0);
        assert(spliced(x, 0, t) =~= t);
    } else if o >= l {
        assert(ps.drop_last() =~= seq![ps[0]]);
        lemma_text_single(ps[0], original, insertions);
        assert(ps.drop_last().drop_last() =~= Seq::<(usize, Fragment)>::empty());
        assert(ps.drop_last().last() == ps[0]);
        assert(total_length(ps.drop_last().drop_last()) == 0);
        assert(total_length(ps.drop_last()) == l);
        assert(x.subrange(0, l) =~= x);
        assert(spliced(x, o as int, t) =~= x + t);
    } else if o == 0 {
        assert(ps.drop_last() =~= seq![ps[0]]);
        lemma_text_single(ps[0], original, insertions);
        assert(ps.drop_last().drop_last() =~= Seq::<(usize, Fragment)>::empty());
        assert(ps.drop_last().last() == ps[0]);
        assert(total_length(ps.drop_last().drop_last()) == 0);
        assert(total_length(ps.drop_last()) == g.byte_length);
        assert(spliced(x, 0, t) =~= t + x);
    } else {
        let left = ps[0].1;
        let right = ps[2].1;
        let two = ps.drop_last();
        assert(two.drop_last() =~= seq![ps[0]]);
        lemma_text_single(ps[0], original, insertions);
        assert(two.drop_last().drop_last() =~= Seq::<(usize, Fragment)>::empty());
        assert(two.drop_last().last() == ps[0]);
        assert(two.last() == ps[1]);
        assert(total_length(two.drop_last().drop_last()) == 0);
        assert(total_length(two.drop_last()) == o);
        assert(total_length(two) == o + g.byte_length);
        assert(fragment_text(left, original, insertions) =~= x.subrange(0, o as int));
        assert(right.byte_offset == f.byte_offset + o);
        assert(fragment_text(right, original, insertions) =~= x.subrange(o as int, l));
        assert(entries_text(two.drop_last(), original, insertions) == fragment_text(left, original, insertions));
        assert(entries_text(two, original, insertions) == fragment_text(left, original, insertions) + t);
        assert(ps.last() == ps[2]);
        assert(entries_text(ps, original, insertions) =~= x.subrange(0, o as int) + t + x.subrange(
            o as int,
            l,
        ));
    }
}

} // verus!
