//! The document: two append-only stores and the ordered fragment index that
//! composes the visible text out of windows over them.

use crate::change::{
    deleted_count, deletion_operation, insertion_update, lemma_contiguous_concat,
    lemma_deletion_count, lemma_deletion_pieces, pieces, update_applies, FragmentOperation,
    FragmentUpdate,
};
use crate::fragment::{string_from_bytes, Fragment, Source};
use crate::indexed_string::{linebreaks_exact, IndexedString};
use crate::piece_table::{
    all_fit, all_nonempty, contiguous_from, cut, entries_text, fragment_text, lemma_contiguous_end,
    lemma_contiguous_keys, lemma_keys_ordered, lemma_subrange_props, lemma_text_concat, lemma_text_len,
    removed, shift_keys, spliced, store_of, total_length,
};
use std::ops::Range;
use vstd::prelude::*;
use vstd::string::StringSliceAdditionalSpecFns;
use vstd::utf8::{encode_utf8, valid_utf8};

verus! {

/// The byte range of a fragment and the byte range being deleted, both in
/// document coordinates.
pub struct DeletionRange {
    pub fragment: Range<usize>,
    pub deletion: Range<usize>,
}

/// The index of the last entry whose key is at most `s` (0 when there is none).
pub open spec fn cover_index(entries: Seq<(usize, Fragment)>, s: int) -> int
    decreases entries.len(),
{
    if entries.len() <= 1 {
        0
    } else if entries.last().0 <= s {
        entries.len() - 1
    } else {
        cover_index(entries.drop_last(), s)
    }
}

/// The fragment covering byte `s` and every fragment after it.
pub open spec fn affected(entries: Seq<(usize, Fragment)>, s: int) -> Seq<(usize, Fragment)> {
    entries.subrange(cover_index(entries, s), entries.len() as int)
}

pub proof fn lemma_cover_index(entries: Seq<(usize, Fragment)>, s: int, j: int)
    requires
        0 <= j < entries.len(),
        entries[j].0 <= s,
        forall|q: int| j < q < entries.len() ==> s < #[trigger] entries[q].0,
    ensures
        cover_index(entries, s) == j,
    decreases entries.len(),
{
    if entries.len() > 1 && j < entries.len() - 1 {
        let init = entries.drop_last();
        assert(entries.last() == entries[entries.len() - 1]);
        assert forall|q: int| j < q < init.len() implies s < #[trigger] init[q].0 by {
            assert(init[q] == entries[q]);
        }
        lemma_cover_index(init, s, j);
    }
}

/// Where the fragment covering `s` sits, given that the first key is at most `s`.
pub proof fn lemma_cover_facts(entries: Seq<(usize, Fragment)>, s: int)
    requires
        entries.len() > 0,
        entries[0].0 <= s,
    ensures
        0 <= cover_index(entries, s) < entries.len(),
        entries[cover_index(entries, s)].0 <= s,
        forall|q: int| cover_index(entries, s) < q < entries.len() ==> s < #[trigger] entries[q].0,
    decreases entries.len(),
{
    if entries.len() > 1 && entries.last().0 > s {
        let init = entries.drop_last();
        assert(init[0] == entries[0]);
        lemma_cover_facts(init, s);
        let j = cover_index(entries, s);
        assert(entries[j] == init[j]);
        assert forall|q: int| j < q < entries.len() implies s < #[trigger] entries[q].0 by {
            if q < entries.len() - 1 {
                assert(init[q] == entries[q]);
            }
        }
    }
}

/// The bytes removed by the planned updates before position `i`.
pub open spec fn deleted_before(aff: Seq<(usize, Fragment)>, a: int, b: int, i: int) -> int
    decreases i,
{
    if i <= 0 {
        0
    } else {
        deleted_before(aff, a, b, i - 1) + deleted_count(
            deletion_operation(
                aff[i - 1].0 as int,
                aff[i - 1].0 + aff[i - 1].1.byte_length,
                a,
                b,
            ),
        )
    }
}

/// The plan for deleting `[a, b)`: one update per affected fragment, each
/// filed after it at its key less the bytes removed before it.
pub open spec fn deletion_plan(aff: Seq<(usize, Fragment)>, a: int, b: int) -> Seq<FragmentUpdate> {
    Seq::new(
        aff.len(),
        |i: int|
            FragmentUpdate {
                operation: deletion_operation(
                    aff[i].0 as int,
                    aff[i].0 + aff[i].1.byte_length,
                    a,
                    b,
                ),
                move_to: (aff[i].0 - deleted_before(aff, a, b, i)) as usize,
                key: aff[i].0,
            },
    )
}

/// The plan for inserting `ins` at byte `s`: stitch it into the covering
/// fragment, and move every later fragment right by its length.
pub open spec fn insertion_plan(aff: Seq<(usize, Fragment)>, s: int, ins: Fragment) -> Seq<
    FragmentUpdate,
> {
    Seq::new(
        aff.len(),
        |i: int|
            if i == 0 {
                FragmentUpdate {
                    operation: FragmentOperation::Insert((s - aff[0].0) as usize, ins),
                    move_to: aff[0].0,
                    key: aff[0].0,
                }
            } else {
                FragmentUpdate {
                    operation: FragmentOperation::Keep,
                    move_to: (aff[i].0 + ins.byte_length) as usize,
                    key: aff[i].0,
                }
            },
    )
}

/// The entries that the first `i` updates of `plan` leave in place of the
/// first `i` fragments of `aff`.
pub open spec fn applied_pieces(plan: Seq<FragmentUpdate>, aff: Seq<(usize, Fragment)>, i: int) -> Seq<
    (usize, Fragment),
>
    decreases i,
{
    if i <= 0 {
        Seq::empty()
    } else {
        applied_pieces(plan, aff, i - 1) + pieces(plan[i - 1], aff[i - 1].1)
    }
}

/// What holds of the fragments a deletion affects.
#[verifier::opaque]
pub open spec fn deletion_context(
    aff: Seq<(usize, Fragment)>,
    a: int,
    b: int,
    original: Seq<u8>,
    insertions: Seq<u8>,
) -> bool {
    &&& aff.len() > 0
    &&& a <= b <= usize::MAX
    &&& aff[0].0 <= a
    &&& contiguous_from(aff, aff[0].0 as int)
    &&& all_fit(aff, original, insertions)
    &&& all_nonempty(aff) || (aff.len() == 1 && a == aff[0].0)
    &&& aff[0].0 + total_length(aff) <= usize::MAX
    &&& original.len() <= usize::MAX
    &&& insertions.len() <= usize::MAX
}

/// The surviving pieces `done` of the fragments `pre`, which lost `d` bytes to
/// the deletion of `[a, b)`, run on from `k0` and hold `pre`'s text with the
/// range removed.
#[verifier::opaque]
pub open spec fn deletion_facts(
    done: Seq<(usize, Fragment)>,
    pre: Seq<(usize, Fragment)>,
    d: int,
    k0: int,
    a: int,
    b: int,
    original: Seq<u8>,
    insertions: Seq<u8>,
) -> bool {
    &&& contiguous_from(done, k0)
    &&& all_nonempty(done)
    &&& all_fit(done, original, insertions)
    &&& 0 <= d <= total_length(pre)
    &&& total_length(done) == total_length(pre) - d
    &&& entries_text(done, original, insertions) == cut(
        entries_text(pre, original, insertions),
        a - k0,
        b - k0,
    )
}

/// After the first `i` deletion updates.
pub open spec fn deletion_progress(
    aff: Seq<(usize, Fragment)>,
    a: int,
    b: int,
    i: int,
    original: Seq<u8>,
    insertions: Seq<u8>,
) -> bool {
    deletion_facts(
        applied_pieces(deletion_plan(aff, a, b), aff, i),
        aff.subrange(0, i),
        deleted_before(aff, a, b, i),
        aff[0].0 as int,
        a,
        b,
        original,
        insertions,
    )
}

/// The bytes lost so far are at most what the fragments held.
pub proof fn lemma_deletion_facts_bound(
    done: Seq<(usize, Fragment)>,
    pre: Seq<(usize, Fragment)>,
    d: int,
    k0: int,
    a: int,
    b: int,
    original: Seq<u8>,
    insertions: Seq<u8>,
)
    requires
        deletion_facts(done, pre, d, k0, a, b, original, insertions),
    ensures
        0 <= d <= total_length(pre),
{
    reveal(deletion_facts);
}

/// Adding the pieces of one more fragment keeps the deletion facts.
pub proof fn lemma_deletion_facts_extend(
    done: Seq<(usize, Fragment)>,
    pre: Seq<(usize, Fragment)>,
    d: int,
    k0: int,
    a: int,
    b: int,
    e: (usize, Fragment),
    ps: Seq<(usize, Fragment)>,
    del: int,
    original: Seq<u8>,
    insertions: Seq<u8>,
)
    requires
        a <= b,
        deletion_facts(done, pre, d, k0, a, b, original, insertions),
        all_fit(pre, original, insertions),
        e.0 == k0 + total_length(pre),
        e.1.fits(store_of(e.1.source, original, insertions).len()),
        contiguous_from(ps, e.0 - d),
        all_nonempty(ps),
        all_fit(ps, original, insertions),
        0 <= del <= e.1.byte_length,
        total_length(ps) == e.1.byte_length - del,
        entries_text(ps, original, insertions) == cut(
            fragment_text(e.1, original, insertions),
            a - e.0,
            b - e.0,
        ),
    ensures
        deletion_facts(done + ps, pre.push(e), d + del, k0, a, b, original, insertions),
        forall|q: int| 0 <= q < done.len() ==> #[trigger] done[q].0 < e.0,
{
    reveal(deletion_facts);
    lemma_keys_below_end(done, k0);
    lemma_contiguous_concat(done, ps, k0);
    crate::piece_table::lemma_concat_props(done, ps, original, insertions);
    assert(pre.push(e).drop_last() =~= pre);
    assert(pre.push(e).last() == e);
    lemma_text_len(pre, original, insertions);
    crate::piece_table::lemma_cut_concat(
        entries_text(pre, original, insertions),
        fragment_text(e.1, original, insertions),
        a - k0,
        b - k0,
    );
    lemma_text_concat(done, ps, original, insertions);
}

/// Every key of a contiguous run of nonempty pieces lies below its end.
pub proof fn lemma_keys_below_end(done: Seq<(usize, Fragment)>, k0: int)
    requires
        contiguous_from(done, k0),
        all_nonempty(done),
    ensures
        forall|q: int| 0 <= q < done.len() ==> #[trigger] done[q].0 < k0 + total_length(done),
{
    if done.len() > 0 {
        lemma_contiguous_end(done, k0);
        assert forall|q: int| 0 <= q < done.len() implies #[trigger] done[q].0 < k0 + total_length(
            done,
        ) by {
            assert(done[q].1.byte_length > 0);
        }
    }
}

/// One deletion update keeps the progress facts, applies within `usize`, and
/// finds every earlier surviving key below its own.
pub proof fn lemma_delete_step(
    aff: Seq<(usize, Fragment)>,
    a: int,
    b: int,
    i: int,
    original: Seq<u8>,
    insertions: Seq<u8>,
)
    requires
        deletion_context(aff, a, b, original, insertions),
        0 <= i < aff.len(),
        deletion_progress(aff, a, b, i, original, insertions),
    ensures
        deletion_progress(aff, a, b, i + 1, original, insertions),
        update_applies(deletion_plan(aff, a, b)[i], aff[i].1),
        deletion_plan(aff, a, b)[i].key == aff[i].0,
        aff[0].0 <= aff[i].0,
        forall|r: int| i < r < aff.len() ==> #[trigger] aff[r].0 > aff[i].0,
        !(deletion_plan(aff, a, b)[i].operation is Insert),
        forall|q: int|
            0 <= q < applied_pieces(deletion_plan(aff, a, b), aff, i).len() ==> #[trigger] applied_pieces(
                deletion_plan(aff, a, b),
                aff,
                i,
            )[q].0 < aff[i].0,
{
    let plan = deletion_plan(aff, a, b);
    let done = applied_pieces(plan, aff, i);
    let pre = aff.subrange(0, i);
    let k0 = aff[0].0 as int;
    let ki = aff[i].0;
    let f = aff[i].1;
    let d = deleted_before(aff, a, b, i);
    reveal(deletion_context);
    lemma_deletion_facts_bound(done, pre, d, k0, a, b, original, insertions);
    lemma_contiguous_keys(aff, k0);
    lemma_contiguous_end(aff, k0);
    lemma_keys_ordered(aff, k0, 0, i);
    assert forall|r: int| i < r < aff.len() implies #[trigger] aff[r].0 > aff[i].0 by {
        lemma_keys_ordered(aff, k0, i, r);
    }
    let m = plan[i].move_to;
    assert(ki == k0 + total_length(pre));
    assert(m == ki - d);
    assert(f.fits(store_of(f.source, original, insertions).len()));
    if !all_nonempty(aff) {
        assert(i == 0);
    } else {
        assert(f.byte_length > 0);
    }
    lemma_deletion_pieces(ki, f, a as usize, b as usize, m, original, insertions);
    let u = plan[i];
    assert(u == crate::change::deletion_update(ki, f, a as usize, b as usize, m));
    let ps = pieces(u, f);
    assert(applied_pieces(plan, aff, i + 1) == done + ps);
    assert(aff.subrange(0, i + 1) =~= pre.push(aff[i]));
    assert(deleted_before(aff, a, b, i + 1) == d + deleted_count(u.operation));
    lemma_subrange_props(aff, k0, 0, i, original, insertions);
    lemma_deletion_facts_extend(
        done,
        pre,
        d,
        k0,
        a,
        b,
        aff[i],
        ps,
        deleted_count(u.operation),
        original,
        insertions,
    );
}

/// The shape of a well-formed fragment index over the two stores.
#[verifier::opaque]
pub open spec fn index_ok(es: Seq<(usize, Fragment)>, original: Seq<u8>, insertions: Seq<u8>) -> bool {
    &&& es.len() > 0
    &&& contiguous_from(es, 0)
    &&& all_fit(es, original, insertions)
    &&& es.len() == 1 || all_nonempty(es)
    &&& total_length(es) <= usize::MAX
    &&& original.len() <= usize::MAX
    &&& insertions.len() <= usize::MAX
}

/// Before a deletion of `[a, b)` with `a` inside the text: the affected
/// fragments meet the deletion context, nothing has been applied yet, and
/// every key before them is smaller than theirs.
#[verifier::spinoff_prover]
#[verifier::rlimit(100)]
pub proof fn lemma_deletion_setup(
    es: Seq<(usize, Fragment)>,
    a: int,
    b: int,
    original: Seq<u8>,
    insertions: Seq<u8>,
)
    requires
        index_ok(es, original, insertions),
        0 <= a <= b <= usize::MAX,
        a <= total_length(es),
    ensures
        0 <= cover_index(es, a) < es.len(),
        deletion_context(affected(es, a), a, b, original, insertions),
        deletion_progress(affected(es, a), a, b, 0, original, insertions),
        forall|q: int|
            0 <= q < cover_index(es, a) ==> #[trigger] es[q].0 < es[cover_index(es, a)].0,
        es == es.subrange(0, cover_index(es, a)) + affected(es, a),
        total_length(es) == es[cover_index(es, a)].0 + total_length(affected(es, a)),
{
    reveal(index_ok);
    reveal(deletion_context);
    reveal(deletion_facts);
    let j = cover_index(es, a);
    let aff = affected(es, a);
    lemma_cover_facts(es, a);
    lemma_contiguous_keys(es, 0);
    lemma_subrange_props(es, 0, j, es.len() as int, original, insertions);
    lemma_subrange_props(es, 0, 0, j, original, insertions);
    assert(es =~= es.subrange(0, j) + aff);
    crate::change::lemma_total_concat(es.subrange(0, j), aff);
    assert(aff[0] == es[j]);
    if !all_nonempty(aff) {
        assert(es.len() == 1);
        assert(aff[0].1.byte_length == 0) by {
            if aff[0].1.byte_length > 0 {
                assert forall|q: int| 0 <= q < aff.len() implies #[trigger] aff[q].1.byte_length > 0 by {
                    assert(q == 0);
                }
            }
        }
        assert(es.last() == es[0]);
    }
    assert forall|q: int| 0 <= q < j implies #[trigger] es[q].0 < es[j].0 by {
        lemma_keys_ordered(es, 0, q, j);
    }
    let done = applied_pieces(deletion_plan(aff, a, b), aff, 0);
    assert(aff.subrange(0, 0) =~= Seq::<(usize, Fragment)>::empty());
    assert(cut(Seq::<u8>::empty(), a - aff[0].0, b - aff[0].0) =~= Seq::<u8>::empty());
}

/// After all deletion updates the index is the fragments before the affected
/// ones followed by the surviving pieces: a contiguous run of nonempty,
/// fitting fragments no longer than before.
#[verifier::spinoff_prover]
pub proof fn lemma_deletion_result_shape(
    es: Seq<(usize, Fragment)>,
    a: int,
    b: int,
    original: Seq<u8>,
    insertions: Seq<u8>,
)
    requires
        index_ok(es, original, insertions),
        0 <= cover_index(es, a) < es.len(),
        es == es.subrange(0, cover_index(es, a)) + affected(es, a),
        total_length(es) == es[cover_index(es, a)].0 + total_length(affected(es, a)),
        deletion_progress(
            affected(es, a),
            a,
            b,
            affected(es, a).len() as int,
            original,
            insertions,
        ),
    ensures
        ({
            let aff = affected(es, a);
            let res = es.subrange(0, cover_index(es, a)) + applied_pieces(
                deletion_plan(aff, a, b),
                aff,
                aff.len() as int,
            );
            &&& contiguous_from(res, 0)
            &&& all_fit(res, original, insertions)
            &&& all_nonempty(res)
            &&& total_length(res) <= total_length(es)
        }),
{
    reveal(index_ok);
    reveal(deletion_facts);
    let j = cover_index(es, a);
    let aff = affected(es, a);
    let head = es.subrange(0, j);
    let done = applied_pieces(deletion_plan(aff, a, b), aff, aff.len() as int);
    assert(aff.subrange(0, aff.len() as int) =~= aff);
    lemma_contiguous_keys(es, 0);
    lemma_subrange_props(es, 0, 0, j, original, insertions);
    crate::change::lemma_total_concat(head, aff);
    lemma_contiguous_concat(head, done, 0);
    crate::piece_table::lemma_concat_props(head, done, original, insertions);
    if j == 0 {
        assert(head =~= Seq::<(usize, Fragment)>::empty());
    }
}

/// After all deletion updates the text is the old text with `[a, b)` removed.
#[verifier::spinoff_prover]
pub proof fn lemma_deletion_result_text(
    es: Seq<(usize, Fragment)>,
    a: int,
    b: int,
    original: Seq<u8>,
    insertions: Seq<u8>,
)
    requires
        index_ok(es, original, insertions),
        0 <= a <= b,
        0 <= cover_index(es, a) < es.len(),
        es[cover_index(es, a)].0 <= a,
        es == es.subrange(0, cover_index(es, a)) + affected(es, a),
        deletion_progress(
            affected(es, a),
            a,
            b,
            affected(es, a).len() as int,
            original,
            insertions,
        ),
    ensures
        entries_text(
            es.subrange(0, cover_index(es, a)) + applied_pieces(
                deletion_plan(affected(es, a), a, b),
                affected(es, a),
                affected(es, a).len() as int,
            ),
            original,
            insertions,
        ) == cut(entries_text(es, original, insertions), a, b),
{
    reveal(index_ok);
    reveal(deletion_facts);
    let j = cover_index(es, a);
    let aff = affected(es, a);
    let head = es.subrange(0, j);
    let done = applied_pieces(deletion_plan(aff, a, b), aff, aff.len() as int);
    assert(aff.subrange(0, aff.len() as int) =~= aff);
    lemma_contiguous_keys(es, 0);
    lemma_subrange_props(es, 0, 0, j, original, insertions);
    lemma_text_len(head, original, insertions);
    lemma_text_concat(head, done, original, insertions);
    lemma_text_concat(head, aff, original, insertions);
    crate::piece_table::lemma_cut_concat(
        entries_text(head, original, insertions),
        entries_text(aff, original, insertions),
        a,
        b,
    );
    crate::piece_table::lemma_cut_past_end(entries_text(head, original, insertions), a, b);
}

/// In a well-formed index of more than one fragment, keys strictly increase.
pub proof fn lemma_key_below(es: Seq<(usize, Fragment)>, q: int, r: int, original: Seq<u8>, insertions: Seq<u8>)
    requires
        index_ok(es, original, insertions),
        es.len() > 1,
        0 <= q < r < es.len(),
    ensures
        es[q].0 < es[r].0,
{
    reveal(index_ok);
    lemma_keys_ordered(es, 0, q, r);
}

/// A sequence is its part before `j`, its entry at `j`, and its part after.
pub proof fn lemma_decompose(es: Seq<(usize, Fragment)>, j: int)
    requires
        0 <= j < es.len(),
    ensures
        es == es.subrange(0, j) + seq![es[j]] + es.subrange(j + 1, es.len() as int),
{
    assert(es =~= es.subrange(0, j) + seq![es[j]] + es.subrange(j + 1, es.len() as int));
}

/// Where an insertion at byte `s` lands: the covering fragment `(k, f)` at
/// position `j`, with `s` inside or at the end of it.
#[verifier::spinoff_prover]
pub proof fn lemma_insertion_point(
    es: Seq<(usize, Fragment)>,
    s: int,
    original: Seq<u8>,
    insertions: Seq<u8>,
)
    requires
        index_ok(es, original, insertions),
        0 <= s <= total_length(es),
    ensures
        0 <= cover_index(es, s) < es.len(),
        es[cover_index(es, s)].0 <= s <= es[cover_index(es, s)].0 + es[cover_index(
            es,
            s,
        )].1.byte_length,
        es[cover_index(es, s)].1.byte_length > 0 || s == es[cover_index(es, s)].0,
        forall|q: int| 0 <= q < cover_index(es, s) ==> #[trigger] es[q].0 < es[cover_index(es, s)].0,
{
    reveal(index_ok);
    let j = cover_index(es, s);
    let n = es.len() as int;
    lemma_cover_facts(es, s);
    lemma_contiguous_keys(es, 0);
    if j + 1 < n {
        assert(es[j + 1].0 == es[j].0 + es[j].1.byte_length);
    } else {
        assert(es.last() == es[j]);
    }
    if n > 1 {
        assert(es[j].1.byte_length > 0);
    }
    assert forall|q: int| 0 <= q < j implies #[trigger] es[q].0 < es[j].0 by {
        lemma_keys_ordered(es, 0, q, j);
    }
}

/// A key of a well-formed index plus its length stays within the total.
pub proof fn lemma_contiguous_keys_bound(es: Seq<(usize, Fragment)>, j: int, original: Seq<u8>, insertions: Seq<u8>)
    requires
        index_ok(es, original, insertions),
        0 <= j < es.len(),
    ensures
        es[j].0 + es[j].1.byte_length <= total_length(es),
{
    reveal(index_ok);
    lemma_contiguous_end(es, 0);
}

/// Before the last update of an insertion: the covering fragment is the first
/// entry under its key, and stitching into it stays within `usize`.
#[verifier::spinoff_prover]
pub proof fn lemma_insertion_ready(
    es: Seq<(usize, Fragment)>,
    s: int,
    frag: Fragment,
    original: Seq<u8>,
    insertions: Seq<u8>,
    cur: Seq<(usize, Fragment)>,
)
    requires
        index_ok(es, original, insertions),
        0 <= s <= total_length(es),
        total_length(es) + frag.byte_length <= usize::MAX,
        frag.byte_length > 0,
        frag.fits(store_of(frag.source, original, insertions).len()),
        cur == es.subrange(0, cover_index(es, s) + 1) + shift_keys(
            es.subrange(cover_index(es, s) + 1, es.len() as int),
            frag.byte_length as int,
        ),
    ensures
        0 <= cover_index(es, s) < cur.len(),
        affected(es, s)[0] == es[cover_index(es, s)],
        cur[cover_index(es, s)] == es[cover_index(es, s)],
        forall|q: int|
            0 <= q < cover_index(es, s) ==> #[trigger] cur[q].0 < es[cover_index(es, s)].0,
        forall|q: int|
            cover_index(es, s) < q < cur.len() ==> #[trigger] cur[q].0 > es[cover_index(es, s)].0,
        update_applies(
            insertion_update(
                es[cover_index(es, s)].0,
                (s - es[cover_index(es, s)].0) as usize,
                frag,
            ),
            es[cover_index(es, s)].1,
        ),
{
    let j = cover_index(es, s);
    lemma_insertion_point(es, s, original, insertions);
    lemma_entry_fits(es, j, original, insertions);
    crate::change::lemma_insertion_pieces(
        es[j].0,
        es[j].1,
        (s - es[j].0) as usize,
        frag,
        original,
        insertions,
    );
    assert(cur[j] == es[j]);
    assert forall|q: int| 0 <= q < j implies #[trigger] cur[q].0 < es[j].0 by {
        assert(cur[q] == es[q]);
    }
    assert forall|q: int| j < q < cur.len() implies #[trigger] cur[q].0 > es[j].0 by {
        lemma_key_below(es, j, q, original, insertions);
        lemma_contiguous_keys_bound(es, q, original, insertions);
        assert(cur[q].0 == es[q].0 + frag.byte_length);
    }
}

/// The covering fragment lies inside its store, and its end fits `usize`.
pub proof fn lemma_entry_fits(es: Seq<(usize, Fragment)>, j: int, original: Seq<u8>, insertions: Seq<u8>)
    requires
        index_ok(es, original, insertions),
        0 <= j < es.len(),
    ensures
        es[j].1.fits(store_of(es[j].1.source, original, insertions).len()),
        es[j].1.byte_offset + es[j].1.byte_length <= usize::MAX,
        es[j].0 + es[j].1.byte_length <= total_length(es),
        es.len() == 1 || all_nonempty(es),
        original.len() <= usize::MAX,
        insertions.len() <= usize::MAX,
{
    reveal(index_ok);
    lemma_contiguous_end(es, 0);
    assert(es[j].1.fits(store_of(es[j].1.source, original, insertions).len()));
}

/// The parts around position `j`: what comes before runs from 0 to its key,
/// what comes after runs on from its end.
#[verifier::spinoff_prover]
pub proof fn lemma_insertion_parts(
    es: Seq<(usize, Fragment)>,
    j: int,
    l: int,
    original: Seq<u8>,
    insertions: Seq<u8>,
)
    requires
        index_ok(es, original, insertions),
        0 <= j < es.len(),
        0 <= l,
        total_length(es) + l <= usize::MAX,
    ensures
        contiguous_from(es.subrange(0, j), 0),
        total_length(es.subrange(0, j)) == es[j].0,
        all_fit(es.subrange(0, j), original, insertions),
        all_nonempty(es.subrange(0, j)),
        contiguous_from(es.subrange(j + 1, es.len() as int), es[j].0 + es[j].1.byte_length),
        all_fit(es.subrange(j + 1, es.len() as int), original, insertions),
        all_nonempty(es.subrange(j + 1, es.len() as int)),
        forall|i: int|
            0 <= i < es.len() - j - 1 ==> 0 <= #[trigger] es.subrange(j + 1, es.len() as int)[i].0 + l
                <= usize::MAX,
        total_length(es) == es[j].0 + es[j].1.byte_length + total_length(
            es.subrange(j + 1, es.len() as int),
        ),
{
    reveal(index_ok);
    let n = es.len() as int;
    let tail = es.subrange(j + 1, n);
    lemma_contiguous_keys(es, 0);
    lemma_contiguous_end(es, 0);
    lemma_subrange_props(es, 0, 0, j, original, insertions);
    lemma_subrange_props(es, 0, j + 1, n, original, insertions);
    if j + 1 < n {
        assert(tail[0] == es[j + 1]);
        assert(es[j + 1].0 == es[j].0 + es[j].1.byte_length);
        lemma_contiguous_keys(tail, es[j].0 + es[j].1.byte_length);
        assert(tail.last() == es.last());
    } else {
        assert(es.last() == es[j]);
        assert(tail =~= Seq::<(usize, Fragment)>::empty());
    }
    if n == 1 {
        assert(es.subrange(0, j) =~= Seq::<(usize, Fragment)>::empty());
    }
    assert forall|i: int| 0 <= i < n - j - 1 implies 0 <= #[trigger] tail[i].0 + l <= usize::MAX by {
        assert(tail[i] == es[j + 1 + i]);
    }
}

/// The index after an insertion is well formed and `l` bytes longer.
#[verifier::spinoff_prover]
pub proof fn lemma_insertion_shape(
    head: Seq<(usize, Fragment)>,
    ps: Seq<(usize, Fragment)>,
    tail: Seq<(usize, Fragment)>,
    k: int,
    fl: int,
    l: int,
    original: Seq<u8>,
    insertions: Seq<u8>,
)
    requires
        contiguous_from(head, 0),
        total_length(head) == k,
        all_fit(head, original, insertions),
        all_nonempty(head),
        contiguous_from(ps, k),
        total_length(ps) == fl + l,
        all_fit(ps, original, insertions),
        all_nonempty(ps),
        ps.len() > 0,
        contiguous_from(tail, k + fl),
        all_fit(tail, original, insertions),
        all_nonempty(tail),
        forall|i: int| 0 <= i < tail.len() ==> 0 <= #[trigger] tail[i].0 + l <= usize::MAX,
        k + fl + l + total_length(tail) <= usize::MAX,
        original.len() <= usize::MAX,
        insertions.len() <= usize::MAX,
    ensures
        index_ok(head + ps + shift_keys(tail, l), original, insertions),
        total_length(head + ps + shift_keys(tail, l)) == k + fl + l + total_length(tail),
{
    reveal(index_ok);
    let moved = shift_keys(tail, l);
    crate::piece_table::lemma_shift_props(tail, k + fl, l, original, insertions);
    lemma_contiguous_concat(head, ps, 0);
    if tail.len() > 0 {
        lemma_contiguous_concat(head + ps, moved, 0);
    } else {
        assert(moved =~= Seq::<(usize, Fragment)>::empty());
        assert(head + ps + moved =~= head + ps);
    }
    crate::change::lemma_total_concat(head + ps, moved);
    crate::piece_table::lemma_concat_props(head, ps, original, insertions);
    crate::piece_table::lemma_concat_props(head + ps, moved, original, insertions);
}

/// The text after an insertion is the old text with the new bytes spliced in.
#[verifier::spinoff_prover]
pub proof fn lemma_insertion_text(
    head: Seq<(usize, Fragment)>,
    e: (usize, Fragment),
    ps: Seq<(usize, Fragment)>,
    tail: Seq<(usize, Fragment)>,
    at: int,
    t: Seq<u8>,
    l: int,
    original: Seq<u8>,
    insertions: Seq<u8>,
)
    requires
        all_fit(head, original, insertions),
        0 <= at <= e.1.byte_length,
        e.1.fits(store_of(e.1.source, original, insertions).len()),
        entries_text(ps, original, insertions) == spliced(
            fragment_text(e.1, original, insertions),
            at,
            t,
        ),
    ensures
        entries_text(head + ps + shift_keys(tail, l), original, insertions) == spliced(
            entries_text(head + seq![e] + tail, original, insertions),
            total_length(head) + at,
            t,
        ),
{
    lemma_text_concat(head, ps, original, insertions);
    lemma_text_concat(head + ps, shift_keys(tail, l), original, insertions);
    crate::piece_table::lemma_text_shift(tail, l, original, insertions);
    lemma_text_concat(head, seq![e], original, insertions);
    lemma_text_concat(head + seq![e], tail, original, insertions);
    crate::piece_table::lemma_text_single(e, original, insertions);
    lemma_text_len(head, original, insertions);
    crate::piece_table::lemma_splice_concat(
        entries_text(head, original, insertions),
        fragment_text(e.1, original, insertions),
        entries_text(tail, original, insertions),
        at,
        t,
    );
}

/// The index a deletion of `[a, b)` leaves before an emptied index is refilled:
/// the fragments before the affected ones, then the pieces the plan keeps.
pub open spec fn deletion_result(es: Seq<(usize, Fragment)>, a: int, b: int) -> Seq<(usize, Fragment)> {
    es.subrange(0, cover_index(es, a)) + applied_pieces(
        deletion_plan(affected(es, a), a, b),
        affected(es, a),
        affected(es, a).len() as int,
    )
}

/// The index an insertion of `len` bytes at `s` leaves, the bytes sitting at
/// `offset` in the insertions store: the fragments before the covering one,
/// the covering one with the new fragment stitched in, and the later ones
/// moved right by `len`.
pub open spec fn insertion_result(es: Seq<(usize, Fragment)>, s: int, offset: int, len: int) -> Seq<
    (usize, Fragment),
> {
    let j = cover_index(es, s);
    es.subrange(0, j) + pieces(
        insertion_update(
            es[j].0,
            (s - es[j].0) as usize,
            Fragment { byte_offset: offset as usize, byte_length: len as usize, source: Source::Insertion },
        ),
        es[j].1,
    ) + shift_keys(es.subrange(j + 1, es.len() as int), len)
}

/// A piece-table document.
pub struct Document {
    fragments: Vec<(usize, Fragment)>,
    insertions: IndexedString,
    original: IndexedString,
}

impl View for Document {
    type V = Seq<u8>;

    /// The document's text: its fragments' bytes in ascending key order.
    open spec fn view(&self) -> Seq<u8> {
        entries_text(self.entries(), self.original_store()@, self.insertion_store()@)
    }
}

impl Document {
    /// The fragment index, as `(key, fragment)` pairs in ascending key order.
    pub closed spec fn entries(&self) -> Seq<(usize, Fragment)> {
        self.fragments@
    }

    /// The store of the text the document was created with.
    pub closed spec fn original_store(&self) -> IndexedString {
        self.original
    }

    /// The store of every text ever inserted.
    pub closed spec fn insertion_store(&self) -> IndexedString {
        self.insertions
    }

    /// The document's invariant: a non-empty index whose keys partition the
    /// text from 0, fragments inside their stores, no empty fragment beside
    /// another one, lengths that fit `usize`, and both stores with exact
    /// line-break indexes.
    pub open spec fn wf(&self) -> bool {
        let es = self.entries();
        &&& es.len() > 0
        &&& contiguous_from(es, 0)
        &&& all_fit(es, self.original_store()@, self.insertion_store()@)
        &&& es.len() == 1 || all_nonempty(es)
        &&& es.last().0 + es.last().1.byte_length <= usize::MAX
        &&& self.original_store()@.len() <= usize::MAX
        &&& self.insertion_store()@.len() <= usize::MAX
        &&& self.original_store().wf()
        &&& self.insertion_store().wf()
    }

    /// The key just past the last fragment.
    pub open spec fn end_key(&self) -> int {
        self.entries().last().0 + self.entries().last().1.byte_length
    }

    /// Under the invariant, the text is as long as the key just past the last
    /// fragment and as the sum of the fragments' lengths.
    pub proof fn lemma_length(&self)
        requires
            self.wf(),
        ensures
            self@.len() == self.end_key(),
            self@.len() == total_length(self.entries()),
            self@.len() <= usize::MAX,
    {
        lemma_contiguous_keys(self.entries(), 0);
        lemma_text_len(self.entries(), self.original_store()@, self.insertion_store()@);
    }

    fn create_fragment_map(source: &IndexedString) -> (r: Vec<(usize, Fragment)>)
        ensures
            r@.len() == 1,
            r@[0].0 == 0,
            r@[0].1.byte_offset == 0,
            r@[0].1.byte_length == source@.len(),
            r@[0].1.source == Source::Original,
    {
        let mut fragments: Vec<(usize, Fragment)> = Vec::new();
        let initial_fragment = Fragment::from_string(source);
        fragments.push((0, initial_fragment));
        fragments
    }

    /// A document whose text is `text`, held in one fragment over the original store.
    pub fn from(text: &str) -> (r: Self)
        ensures
            r.wf(),
            r@ == text.spec_bytes(),
            r.original_store()@ == text.spec_bytes(),
            r.insertion_store()@ == Seq::<u8>::empty(),
            r.entries().len() == 1,
            r.entries()[0].0 == 0,
            r.entries()[0].1 == (Fragment {
                byte_offset: 0,
                byte_length: text.spec_bytes().len() as usize,
                source: Source::Original,
            }),
    {
        let original = IndexedString::from(text);
        // Its length fits `usize`, as the invariant asks of both stores.
        let original_len = original.len();
        assert(original_len == original@.len());
        let fragments = Document::create_fragment_map(&original);
        let r = Document { fragments, insertions: IndexedString::new(), original };
        proof {
            let es = r.entries();
            crate::piece_table::lemma_text_single(es[0], r.original_store()@, r.insertion_store()@);
            assert(es.last() == es[0]);
            assert(es =~= seq![es[0]]);
            assert(r.original_store()@.subrange(0, r.original_store()@.len() as int) =~= r.original_store()@);
        }
        r
    }

    /// An empty document: one zero-length fragment at key 0.
    pub fn new() -> (r: Self)
        ensures
            r.wf(),
            r@ == Seq::<u8>::empty(),
            r.original_store()@ == Seq::<u8>::empty(),
            r.insertion_store()@ == Seq::<u8>::empty(),
            r.entries().len() == 1,
            r.entries()[0] == (0usize, Fragment { byte_offset: 0, byte_length: 0, source: Source::Original }),
    {
        let r = Document::from("");
        proof {
            reveal_strlit("");
        }
        r
    }

    /// The length of the text, read off the last fragment.
    pub fn len(&self) -> (r: usize)
        requires
            self.wf(),
        ensures
            r == self@.len(),
    {
        proof {
            self.lemma_length();
        }
        let (last_offset, last_fragment) = self.fragments[self.fragments.len() - 1];
        last_offset + last_fragment.byte_length
    }

    /// The store that backs `fragment`.
    fn get_fragment_source(&self, fragment: &Fragment) -> (r: &IndexedString)
        ensures
            r@ == store_of(fragment.source, self.original_store()@, self.insertion_store()@),
    {
        match fragment.source {
            Source::Insertion => &self.insertions,
            Source::Original => &self.original,
        }
    }

    /// The text as bytes: each fragment's bytes in ascending key order.
    pub fn render_bytes(&self) -> (r: Vec<u8>)
        requires
            self.wf(),
        ensures
            r@ == self@,
    {
        let mut out: Vec<u8> = Vec::new();
        let mut i: usize = 0;
        while i < self.fragments.len()
            invariant
                self.wf(),
                i <= self.entries().len(),
                out@ == entries_text(
                    self.entries().subrange(0, i as int),
                    self.original_store()@,
                    self.insertion_store()@,
                ),
            decreases self.entries().len() - i,
        {
            let fragment = self.fragments[i].1;
            let store = self.get_fragment_source(&fragment);
            let mut bytes = fragment.slice_bytes(store);
            out.append(&mut bytes);
            proof {
                let es = self.entries();
                assert(es.subrange(0, i + 1).drop_last() =~= es.subrange(0, i as int));
                assert(es.subrange(0, i + 1).last() == es[i as int]);
            }
            i = i + 1;
        }
        proof {
            assert(self.entries().subrange(0, i as int) =~= self.entries());
        }
        out
    }

    /// The text; when the bytes are valid UTF-8 it is exactly the text they encode.
    pub fn render(&self) -> (r: String)
        requires
            self.wf(),
        ensures
            valid_utf8(self@) ==> encode_utf8(r@) == self@,
    {
        let bytes = self.render_bytes();
        string_from_bytes(bytes.as_slice())
    }

    /// The position of the fragment that covers byte `start_byte`: the last
    /// one whose key is at most `start_byte`.
    fn cover_position(&self, start_byte: usize) -> (j: usize)
        requires
            self.wf(),
        ensures
            j == cover_index(self.entries(), start_byte as int),
            j < self.entries().len(),
    {
        // Binary search over the ascending keys: the key at `lo` is at most
        // `start_byte`, every key from `hi` on is above it.
        let mut lo: usize = 0;
        let mut hi: usize = self.fragments.len();
        while hi - lo > 1
            invariant
                self.wf(),
                lo < hi <= self.entries().len(),
                self.entries()[lo as int].0 <= start_byte,
                forall|q: int| hi <= q < self.entries().len() ==> start_byte < #[trigger] self.entries()[q].0,
            decreases hi - lo,
        {
            let mid = lo + (hi - lo) / 2;
            if self.fragments[mid].0 <= start_byte {
                lo = mid;
            } else {
                proof {
                    assert forall|q: int| mid <= q < self.entries().len() implies start_byte
                        < #[trigger] self.entries()[q].0 by {
                        lemma_keys_ordered(self.entries(), 0, mid as int, q);
                    }
                }
                hi = mid;
            }
        }
        proof {
            lemma_cover_index(self.entries(), start_byte as int, lo as int);
        }
        lo
    }

    /// The fragment covering byte `start_byte` and every fragment after it, in
    /// ascending key order.
    pub fn find_affected_fragments(&self, start_byte: &usize) -> (r: Vec<(usize, Fragment)>)
        requires
            self.wf(),
        ensures
            r@ == affected(self.entries(), *start_byte as int),
    {
        let start = self.cover_position(*start_byte);
        let mut r: Vec<(usize, Fragment)> = Vec::new();
        let mut i: usize = start;
        while i < self.fragments.len()
            invariant
                start <= i <= self.entries().len(),
                r@ == self.entries().subrange(start as int, i as int),
            decreases self.entries().len() - i,
        {
            r.push(self.fragments[i]);
            i = i + 1;
            assert(r@ =~= self.entries().subrange(start as int, i as int));
        }
        r
    }

    /// Classifies how deleting `ranges.deletion` affects the fragment spanning
    /// `ranges.fragment`.
    pub fn get_operation_for_fragment(&self, ranges: DeletionRange) -> (r: FragmentUpdate)
        requires
            ranges.fragment.start <= ranges.fragment.end,
        ensures
            r == (FragmentUpdate {
                operation: deletion_operation(
                    ranges.fragment.start as int,
                    ranges.fragment.end as int,
                    ranges.deletion.start as int,
                    ranges.deletion.end as int,
                ),
                move_to: ranges.fragment.start,
                key: ranges.fragment.start,
            }),
    {
        let delete_start = ranges.deletion.start;
        let delete_end = ranges.deletion.end;
        let frag_start = ranges.fragment.start;
        let frag_end = ranges.fragment.end;

        // The deletion covers the whole fragment.
        if delete_start <= frag_start && delete_end >= frag_end {
            return FragmentUpdate {
                operation: FragmentOperation::Delete(frag_end - frag_start),
                move_to: frag_start,
                key: frag_start,
            };
        }
        // The deletion lies strictly inside the fragment.
        if delete_start > frag_start && delete_end < frag_end {
            return FragmentUpdate {
                operation: FragmentOperation::Split(delete_start, delete_end),
                move_to: frag_start,
                key: frag_start,
            };
        }
        // The deletion overlaps one end of the fragment, or misses it.
        let mut trim_start: usize = 0;
        let mut trim_end: usize = 0;
        if delete_start > frag_start && delete_start < frag_end {
            trim_end = frag_end - delete_start;
        }
        if delete_end < frag_end && delete_end > frag_start {
            trim_start = delete_end - frag_start;
        }
        let operation = if trim_start == 0 && trim_end == 0 {
            FragmentOperation::Keep
        } else {
            FragmentOperation::Trim(trim_start, trim_end)
        };
        FragmentUpdate { move_to: frag_start, key: frag_start, operation }
    }

    /// The number of bytes `op` removes from the document.
    pub fn calc_deleted_bytes(&self, op: &FragmentOperation) -> (r: usize)
        requires
            match *op {
                FragmentOperation::Split(start, end) => start <= end,
                FragmentOperation::Trim(start, end) => start + end <= usize::MAX,
                _ => true,
            },
        ensures
            r == deleted_count(*op),
    {
        match op {
            FragmentOperation::Split(start, end) => *end - *start,
            FragmentOperation::Trim(start, end) => *start + *end,
            FragmentOperation::Delete(bytes) => *bytes,
            _ => 0,
        }
    }

    /// Plans the deletion of `deletion_range`: one update per affected
    /// fragment, in ascending key order.
    pub fn get_changes_for_deletion(&self, deletion_range: &Range<usize>) -> (r: Vec<FragmentUpdate>)
        requires
            self.wf(),
            deletion_range.start <= deletion_range.end,
        ensures
            r@ == deletion_plan(
                affected(self.entries(), deletion_range.start as int),
                deletion_range.start as int,
                deletion_range.end as int,
            ),
    {
        let a = deletion_range.start;
        let b = deletion_range.end;
        let frags = self.find_affected_fragments(&deletion_range.start);
        let ghost es = self.entries();
        let ghost aff = frags@;
        let ghost j = cover_index(es, a as int);
        proof {
            lemma_cover_facts(es, a as int);
            lemma_contiguous_end(es, 0);
            assert forall|q: int| 0 <= q < aff.len() implies #[trigger] aff[q].0
                + aff[q].1.byte_length <= usize::MAX by {
                assert(aff[q] == es[j + q]);
                lemma_keys_ordered(es, 0, j + q, es.len() - 1);
            }
            assert forall|q: int| 0 < q < aff.len() implies #[trigger] aff[q].0 == aff[q - 1].0
                + aff[q - 1].1.byte_length by {
                assert(aff[q] == es[j + q] && aff[q - 1] == es[j + q - 1]);
            }
        }
        let mut changes: Vec<FragmentUpdate> = Vec::new();
        let mut deleted_bytes: usize = 0;
        let mut i: usize = 0;
        while i < frags.len()
            invariant
                a <= b,
                frags@ == aff,
                aff.len() > 0,
                forall|q: int| 0 < q < aff.len() ==> #[trigger] aff[q].0 == aff[q - 1].0
                    + aff[q - 1].1.byte_length,
                forall|q: int| 0 <= q < aff.len() ==> #[trigger] aff[q].0 + aff[q].1.byte_length
                    <= usize::MAX,
                i <= aff.len(),
                deleted_bytes == deleted_before(aff, a as int, b as int, i as int),
                i < aff.len() ==> deleted_bytes <= aff[i as int].0 - aff[0].0,
                changes@ == deletion_plan(aff, a as int, b as int).subrange(0, i as int),
            decreases aff.len() - i,
        {
            let (start_offset, frag) = frags[i];
            let frag_end_offset = start_offset + frag.byte_length;
            let mut update = self.get_operation_for_fragment(
                DeletionRange { fragment: start_offset..frag_end_offset, deletion: a..b },
            );
            update.move_to = update.key - deleted_bytes;
            proof {
                lemma_deletion_count(
                    start_offset as int,
                    frag_end_offset as int,
                    a as int,
                    b as int,
                );
                if i + 1 < aff.len() {
                    assert(aff[i + 1].0 == aff[i as int].0 + aff[i as int].1.byte_length);
                }
            }
            let removed = self.calc_deleted_bytes(&update.operation);
            deleted_bytes = deleted_bytes + removed;
            changes.push(update);
            i = i + 1;
            proof {
                assert(changes@ =~= deletion_plan(aff, a as int, b as int).subrange(0, i as int));
            }
        }
        proof {
            assert(changes@ =~= deletion_plan(aff, a as int, b as int));
        }
        changes
    }

    /// Appends `ins` to the insertions store and returns the fragment that
    /// designates it there.
    pub fn create_insertion_fragment(&mut self, ins: &str) -> (r: Fragment)
        requires
            old(self).wf(),
            old(self).insertion_store()@.len() + ins.spec_bytes().len() <= usize::MAX,
        ensures
            final(self).wf(),
            final(self)@ == old(self)@,
            final(self).entries() == old(self).entries(),
            final(self).original_store() == old(self).original_store(),
            final(self).insertion_store()@ == old(self).insertion_store()@ + ins.spec_bytes(),
            r == (Fragment {
                byte_offset: old(self).insertion_store()@.len() as usize,
                byte_length: ins.spec_bytes().len() as usize,
                source: Source::Insertion,
            }),
    {
        let offset = self.insertions.len();
        self.insertions.append(ins);
        proof {
            crate::piece_table::lemma_text_after_growth(
                old(self).entries(),
                old(self).original_store()@,
                old(self).insertion_store()@,
                ins.spec_bytes(),
            );
        }
        Fragment::of_insertion(offset, ins.len())
    }

    /// Plans the insertion of `ins` at byte `start_byte`: an `Insert` into the
    /// covering fragment, then a right shift of every later fragment.
    pub fn get_changes_for_insertion(&self, start_byte: usize, ins: Fragment) -> (r: Vec<
        FragmentUpdate,
    >)
        requires
            self.wf(),
            self@.len() + ins.byte_length <= usize::MAX,
        ensures
            r@ == insertion_plan(affected(self.entries(), start_byte as int), start_byte as int, ins),
    {
        let frags = self.find_affected_fragments(&start_byte);
        let ghost es = self.entries();
        let ghost aff = frags@;
        let ghost j = cover_index(es, start_byte as int);
        proof {
            lemma_cover_facts(es, start_byte as int);
            lemma_contiguous_end(es, 0);
            self.lemma_length();
            assert forall|q: int| 0 <= q < aff.len() implies #[trigger] aff[q].0 + ins.byte_length
                <= usize::MAX by {
                assert(aff[q] == es[j + q]);
            }
            assert(aff[0] == es[j]);
        }
        let mut changes: Vec<FragmentUpdate> = Vec::new();
        let mut idx: usize = 0;
        while idx < frags.len()
            invariant
                frags@ == aff,
                aff.len() > 0,
                aff[0].0 <= start_byte,
                forall|q: int| 0 <= q < aff.len() ==> #[trigger] aff[q].0 + ins.byte_length
                    <= usize::MAX,
                idx <= aff.len(),
                changes@ == insertion_plan(aff, start_byte as int, ins).subrange(0, idx as int),
            decreases aff.len() - idx,
        {
            let key = frags[idx].0;
            let update = if idx == 0 {
                let offset_from_start = start_byte - key;
                FragmentUpdate {
                    move_to: key,
                    key,
                    operation: FragmentOperation::Insert(offset_from_start, ins),
                }
            } else {
                FragmentUpdate {
                    move_to: ins.byte_length + key,
                    key,
                    operation: FragmentOperation::Keep,
                }
            };
            changes.push(update);
            idx = idx + 1;
            proof {
                assert(changes@ =~= insertion_plan(aff, start_byte as int, ins).subrange(0, idx as int));
            }
        }
        proof {
            assert(changes@ =~= insertion_plan(aff, start_byte as int, ins));
        }
        changes
    }

    /// The position of the first entry filed under `key`, which is `p`.
    fn index_of_key(&self, key: usize, Ghost(p): Ghost<int>) -> (r: usize)
        requires
            0 <= p < self.entries().len(),
            self.entries()[p].0 == key,
            forall|q: int| 0 <= q < p ==> #[trigger] self.entries()[q].0 < key,
            forall|q: int| p < q < self.entries().len() ==> #[trigger] self.entries()[q].0 > key,
        ensures
            r == p,
    {
        // Binary search over the ascending keys; `p` stays in `[lo, hi)`.
        let mut lo: usize = 0;
        let mut hi: usize = self.fragments.len();
        loop
            invariant
                lo <= p < hi <= self.entries().len(),
                self.entries()[p].0 == key,
                forall|q: int| 0 <= q < p ==> #[trigger] self.entries()[q].0 < key,
                forall|q: int| p < q < self.entries().len() ==> #[trigger] self.entries()[q].0 > key,
            decreases hi - lo,
        {
            let mid = lo + (hi - lo) / 2;
            let mid_key = self.fragments[mid].0;
            if mid_key < key {
                lo = mid + 1;
            } else if mid_key > key {
                hi = mid;
            } else {
                return mid;
            }
        }
    }

    /// The fragment with `start` bytes dropped from its left and `end` from its
    /// right, filed under `change.move_to`.
    fn trim_fragment(change: &FragmentUpdate, fragment: Fragment, start: usize, end: usize) -> (r: (usize, Fragment))
        requires
            change.operation == FragmentOperation::Trim(start, end),
            update_applies(*change, fragment),
        ensures
            seq![r] == pieces(*change, fragment),
    {
        let mut frag = fragment;
        let new_offset = frag.byte_offset + start;
        let new_length = frag.byte_length - start - end;
        frag.resize(new_offset, new_length);
        (change.move_to, frag)
    }

    /// Cuts `left` in two around the document bytes `[stop, resume)`: the left
    /// half stays under `change.move_to`, the right half is filed where it
    /// begins once those bytes are gone.
    fn split_fragment(change: &FragmentUpdate, left: Fragment, stop: usize, resume: usize) -> (r: ((usize, Fragment), (usize, Fragment)))
        requires
            change.operation == FragmentOperation::Split(stop, resume),
            update_applies(*change, left),
        ensures
            seq![r.0, r.1] == pieces(*change, left),
    {
        let mut left = left;
        let frag_offset_diff = resume - change.key;
        let right_frag_byte_offset = left.byte_offset + frag_offset_diff;
        let right_frag_byte_length = left.byte_length - frag_offset_diff;
        let right = Fragment { source: left.source, byte_offset: right_frag_byte_offset, byte_length: right_frag_byte_length };
        left.resize(left.byte_offset, stop - change.key);
        let right_key = change.move_to + (stop - change.key);
        ((change.move_to, left), (right_key, right))
    }

    /// Stitches `insertion` into the fragment at position `pos`, `at_byte`
    /// bytes from its start: after it, before it, or by splitting it.
    fn apply_insert(&mut self, change: &FragmentUpdate, pos: usize, at_byte: usize, insertion: Fragment)
        requires
            pos < old(self).entries().len(),
            old(self).entries()[pos as int].0 == change.key,
            change.operation == FragmentOperation::Insert(at_byte, insertion),
            change.move_to == change.key,
            update_applies(*change, old(self).entries()[pos as int].1),
        ensures
            final(self).entries() == old(self).entries().subrange(0, pos as int) + pieces(
                *change,
                old(self).entries()[pos as int].1,
            ) + old(self).entries().subrange(pos + 1, old(self).entries().len() as int),
            final(self).original_store() == old(self).original_store(),
            final(self).insertion_store() == old(self).insertion_store(),
    {
        let ghost es = self.entries();
        // The index's length bounds the positions used below.
        let count = self.fragments.len();
        assert(pos < count);
        let target = self.fragments[pos].1;
        let offset = change.key + at_byte;
        if offset >= change.key + target.byte_length {
            // Appending: filing under a key that is taken replaces its entry.
            if offset == change.key {
                self.fragments.set(pos, (offset, insertion));
            } else {
                self.fragments.insert(pos + 1, (offset, insertion));
            }
        } else if offset == change.key {
            // Prepending.
            self.fragments.set(pos, (offset + insertion.byte_length, target));
            self.fragments.insert(pos, (offset, insertion));
        } else {
            // Somewhere in the middle: a zero-width split.
            let split_change = FragmentUpdate {
                operation: FragmentOperation::Split(offset, offset),
                move_to: change.key,
                key: change.key,
            };
            let ((left_offset, left), (right_offset, right)) = Document::split_fragment(
                &split_change,
                target,
                offset,
                offset,
            );
            self.fragments.set(pos, (left_offset, left));
            self.fragments.insert(pos + 1, (offset, insertion));
            let grown = self.fragments.len();
            assert(pos + 2 <= grown);
            self.fragments.insert(pos + 2, (right_offset + insertion.byte_length, right));
        }
        proof {
            assert(self.entries() =~= es.subrange(0, pos as int) + pieces(*change, es[pos as int].1)
                + es.subrange(pos + 1, es.len() as int));
        }
    }

    /// Applies one planned update to the entry filed under `change.key`, which
    /// sits at position `p`.
    fn apply_change(&mut self, change: &FragmentUpdate, Ghost(p): Ghost<int>)
        requires
            0 <= p < old(self).entries().len(),
            old(self).entries()[p].0 == change.key,
            forall|q: int| 0 <= q < p ==> #[trigger] old(self).entries()[q].0 < change.key,
            forall|q: int|
                p < q < old(self).entries().len() ==> #[trigger] old(self).entries()[q].0 > change.key,
            update_applies(*change, old(self).entries()[p].1),
            change.operation is Insert ==> change.move_to == change.key,
        ensures
            final(self).entries() == old(self).entries().subrange(0, p) + pieces(
                *change,
                old(self).entries()[p].1,
            ) + old(self).entries().subrange(p + 1, old(self).entries().len() as int),
            final(self).original_store() == old(self).original_store(),
            final(self).insertion_store() == old(self).insertion_store(),
    {
        let ghost es = self.entries();
        // The index's length bounds the positions used below.
        let count = self.fragments.len();
        let pos = self.index_of_key(change.key, Ghost(p));
        assert(pos < count);
        let target = self.fragments[pos].1;
        match change.operation {
            FragmentOperation::Keep => {
                self.fragments.set(pos, (change.move_to, target));
            },
            FragmentOperation::Delete(_) => {
                self.fragments.remove(pos);
            },
            FragmentOperation::Trim(start, end) => {
                let entry = Document::trim_fragment(change, target, start, end);
                self.fragments.set(pos, entry);
            },
            FragmentOperation::Split(stop, resume) => {
                let (left, right) = Document::split_fragment(change, target, stop, resume);
                self.fragments.set(pos, left);
                self.fragments.insert(pos + 1, right);
            },
            FragmentOperation::Insert(at_byte, fragment) => {
                self.apply_insert(change, pos, at_byte, fragment);
            },
        }
        proof {
            assert(self.entries() =~= es.subrange(0, p) + pieces(*change, es[p].1) + es.subrange(
                p + 1,
                es.len() as int,
            ));
        }
    }

    /// The index's shape, read off the invariant.
    proof fn lemma_index_ok(&self)
        requires
            self.wf(),
        ensures
            index_ok(self.entries(), self.original_store()@, self.insertion_store()@),
            total_length(self.entries()) == self@.len(),
            self@.len() <= usize::MAX,
    {
        reveal(index_ok);
        self.lemma_length();
    }

    /// Deletes the bytes `[range.start, range.end)`; an end past the text is
    /// taken as the text's end.
    #[verifier::spinoff_prover]
    #[verifier::rlimit(100)]
    pub fn delete(&mut self, range: &Range<usize>)
        requires
            old(self).wf(),
            range.start <= range.end,
            range.start <= old(self)@.len(),
        ensures
            final(self).wf(),
            final(self)@ == removed(old(self)@, range.start as int, range.end as int),
            final(self)@.len() == old(self)@.len() - (vstd::math::min(
                range.end as int,
                old(self)@.len() as int,
            ) - range.start),
            final(self).original_store() == old(self).original_store(),
            final(self).insertion_store() == old(self).insertion_store(),
            deletion_result(old(self).entries(), range.start as int, range.end as int).len() > 0
                ==> final(self).entries() == deletion_result(
                old(self).entries(),
                range.start as int,
                range.end as int,
            ),
            deletion_result(old(self).entries(), range.start as int, range.end as int).len() == 0
                ==> final(self).entries() == seq![
                (0usize, Fragment { byte_offset: 0, byte_length: 0, source: Source::Original }),
            ],
    {
        let a = range.start;
        let b = range.end;
        let changes = self.get_changes_for_deletion(range);
        let ghost es = self.entries();
        let ghost o = self.original_store()@;
        let ghost ins = self.insertion_store()@;
        let ghost j = cover_index(es, a as int);
        let ghost aff = affected(es, a as int);
        let ghost plan = changes@;
        proof {
            self.lemma_index_ok();
            lemma_deletion_setup(es, a as int, b as int, o, ins);
        }
        let mut i: usize = 0;
        while i < changes.len()
            invariant
                changes@ == plan,
                plan == deletion_plan(aff, a as int, b as int),
                aff.len() == plan.len(),
                0 <= j < es.len(),
                aff == affected(es, a as int),
                deletion_context(aff, a as int, b as int, o, ins),
                forall|q: int| 0 <= q < j ==> #[trigger] es[q].0 < es[j].0,
                es[j] == aff[0],
                i <= aff.len(),
                self.original_store()@ == o,
                self.insertion_store()@ == ins,
                self.original_store() == old(self).original_store(),
                self.insertion_store() == old(self).insertion_store(),
                self.entries() == es.subrange(0, j) + applied_pieces(plan, aff, i as int)
                    + aff.subrange(i as int, aff.len() as int),
                deletion_progress(aff, a as int, b as int, i as int, o, ins),
            decreases aff.len() - i,
        {
            let ghost done = applied_pieces(plan, aff, i as int);
            let ghost p = j + done.len();
            proof {
                lemma_delete_step(aff, a as int, b as int, i as int, o, ins);
                let cur = self.entries();
                assert(cur[p] == aff[i as int]);
                assert forall|q: int| 0 <= q < p implies #[trigger] cur[q].0 < plan[i as int].key by {
                    if q < j {
                        assert(cur[q] == es[q]);
                    } else {
                        assert(cur[q] == done[q - j]);
                    }
                }
                assert forall|q: int| p < q < cur.len() implies #[trigger] cur[q].0 > plan[i as int].key by {
                    assert(cur[q] == aff[i + (q - p)]);
                }
            }
            self.apply_change(&changes[i], Ghost(p));
            proof {
                assert(applied_pieces(plan, aff, i + 1) == done + pieces(plan[i as int], aff[i as int].1));
                assert(self.entries() =~= es.subrange(0, j) + applied_pieces(plan, aff, i + 1)
                    + aff.subrange(i + 1, aff.len() as int));
            }
            i = i + 1;
        }
        proof {
            assert(aff.subrange(aff.len() as int, aff.len() as int) =~= Seq::<(usize, Fragment)>::empty());
            assert(self.entries() =~= es.subrange(0, j) + applied_pieces(plan, aff, aff.len() as int));
            lemma_deletion_result_shape(es, a as int, b as int, o, ins);
            lemma_cover_facts(es, a as int);
            lemma_deletion_result_text(es, a as int, b as int, o, ins);
        }
        if self.fragments.len() == 0 {
            self.fragments.push((0, Fragment::of_original(0, 0)));
            proof {
                let es2 = self.entries();
                crate::piece_table::lemma_text_single(es2[0], o, ins);
                assert(es2 =~= seq![es2[0]]);
                assert(es2.last() == es2[0]);
            }
        }
        proof {
            let es2 = self.entries();
            lemma_contiguous_keys(es2, 0);
            if es2.len() == 1 {
                assert(es2.last() == es2[0]);
            }
            let old_text = entries_text(es, o, ins);
            assert(cut(old_text, a as int, b as int) =~= old_text.subrange(0, a as int) + old_text.subrange(
                vstd::math::min(b as int, old_text.len() as int),
                old_text.len() as int,
            ));
        }
    }

    /// The invariant, from the index's shape and the stores' line-break indexes.
    proof fn lemma_wf_from_index(&self)
        requires
            index_ok(self.entries(), self.original_store()@, self.insertion_store()@),
            self.original_store().wf(),
            self.insertion_store().wf(),
        ensures
            self.wf(),
    {
        reveal(index_ok);
        lemma_contiguous_keys(self.entries(), 0);
    }

    /// Applies the updates of an insertion plan after the first one, last
    /// first: each later fragment moves right by the inserted length.
    #[verifier::spinoff_prover]
    fn apply_shifts(
        &mut self,
        changes: &Vec<FragmentUpdate>,
        frag: Fragment,
        Ghost(s): Ghost<int>,
    )
        requires
            index_ok(old(self).entries(), old(self).original_store()@, old(self).insertion_store()@),
            0 <= s,
            0 <= cover_index(old(self).entries(), s) < old(self).entries().len(),
            changes@ == insertion_plan(affected(old(self).entries(), s), s, frag),
            total_length(old(self).entries()) + frag.byte_length <= usize::MAX,
        ensures
            final(self).entries() == old(self).entries().subrange(
                0,
                cover_index(old(self).entries(), s) + 1,
            ) + shift_keys(
                old(self).entries().subrange(
                    cover_index(old(self).entries(), s) + 1,
                    old(self).entries().len() as int,
                ),
                frag.byte_length as int,
            ),
            final(self).original_store() == old(self).original_store(),
            final(self).insertion_store() == old(self).insertion_store(),
    {
        let ghost es = self.entries();
        let ghost o = self.original_store()@;
        let ghost ins = self.insertion_store()@;
        let ghost n = es.len() as int;
        let ghost j = cover_index(es, s);
        let ghost aff = affected(es, s);
        let ghost plan = changes@;
        let ghost l = frag.byte_length as int;
        let mut i: usize = changes.len();
        proof {
            assert(self.entries() =~= es.subrange(0, j + i) + shift_keys(es.subrange(j + i, n), l));
        }
        while i > 1
            invariant
                changes@ == plan,
                plan == insertion_plan(aff, s, frag),
                aff == es.subrange(j, n),
                n == es.len(),
                0 <= j < n,
                1 <= i <= n - j,
                index_ok(es, o, ins),
                l == frag.byte_length,
                total_length(es) + l <= usize::MAX,
                self.original_store() == old(self).original_store(),
                self.insertion_store() == old(self).insertion_store(),
                o == self.original_store()@,
                ins == self.insertion_store()@,
                self.entries() == es.subrange(0, j + i) + shift_keys(es.subrange(j + i, n), l),
            decreases i,
        {
            i = i - 1;
            let ghost p = j + i;
            proof {
                lemma_entry_fits(es, p, o, ins);
                lemma_contiguous_keys_bound(es, p, o, ins);
                let cur = self.entries();
                assert(cur[p] == es[p]);
                assert(aff[i as int] == es[p]);
                assert forall|q: int| 0 <= q < p implies #[trigger] cur[q].0 < plan[i as int].key by {
                    assert(cur[q] == es[q]);
                    lemma_key_below(es, q, p, o, ins);
                }
                assert forall|q: int| p < q < cur.len() implies #[trigger] cur[q].0 > plan[i as int].key by {
                    lemma_key_below(es, p, q, o, ins);
                    lemma_contiguous_keys_bound(es, q, o, ins);
                    assert(cur[q].0 == es[q].0 + l);
                }
            }
            self.apply_change(&changes[i], Ghost(p));
            proof {
                assert(self.entries() =~= es.subrange(0, j + i) + shift_keys(es.subrange(j + i, n), l));
            }
        }
    }

    /// Inserts the bytes of `text` before byte `byte_offset`.
    #[verifier::spinoff_prover]
    #[verifier::rlimit(100)]
    pub fn insert(&mut self, byte_offset: usize, text: &str)
        requires
            old(self).wf(),
            byte_offset <= old(self)@.len(),
            old(self)@.len() + text.spec_bytes().len() <= usize::MAX,
            old(self).insertion_store()@.len() + text.spec_bytes().len() <= usize::MAX,
        ensures
            final(self).wf(),
            final(self)@ == spliced(old(self)@, byte_offset as int, text.spec_bytes()),
            final(self)@.len() == old(self)@.len() + text.spec_bytes().len(),
            final(self)@.subrange(byte_offset as int, byte_offset + text.spec_bytes().len())
                == text.spec_bytes(),
            final(self).original_store() == old(self).original_store(),
            final(self).insertion_store()@ == old(self).insertion_store()@ + text.spec_bytes(),
            text.spec_bytes().len() == 0 ==> final(self).entries() == old(self).entries(),
            text.spec_bytes().len() > 0 ==> final(self).entries() == insertion_result(
                old(self).entries(),
                byte_offset as int,
                old(self).insertion_store()@.len() as int,
                text.spec_bytes().len() as int,
            ),
    {
        let ghost bytes = text.spec_bytes();
        let frag = self.create_insertion_fragment(text);
        if frag.byte_length == 0 {
            proof {
                assert(bytes =~= Seq::<u8>::empty());
                assert(spliced(old(self)@, byte_offset as int, bytes) =~= old(self)@);
            }
            return;
        }
        proof {
            self.lemma_index_ok();
        }
        let changes = self.get_changes_for_insertion(byte_offset, frag);
        let ghost es = self.entries();
        let ghost o = self.original_store()@;
        let ghost ins = self.insertion_store()@;
        let ghost s = byte_offset as int;
        let ghost j = cover_index(es, s);
        let ghost l = frag.byte_length as int;
        proof {
            lemma_insertion_point(es, s, o, ins);
        }
        self.apply_shifts(&changes, frag, Ghost(s));
        proof {
            lemma_insertion_ready(es, s, frag, o, ins, self.entries());
            assert(changes@[0] == insertion_update(es[j].0, (s - es[j].0) as usize, frag));
        }
        let ghost cur = self.entries();
        self.apply_change(&changes[0], Ghost(j));
        proof {
            let tail = shift_keys(es.subrange(j + 1, es.len() as int), l);
            assert(cur.subrange(0, j) =~= es.subrange(0, j));
            assert(cur.subrange(j + 1, cur.len() as int) =~= tail);
            assert(self.insertion_store()@.subrange(
                frag.byte_offset as int,
                self.insertion_store()@.len() as int,
            ) =~= bytes);
            self.lemma_insertion_done(es, s, frag, old(self)@, bytes);
        }
    }

    /// The index after the last update of an insertion is well formed and
    /// spells the old text with the new bytes spliced in.
    #[verifier::spinoff_prover]
    proof fn lemma_insertion_done(
        &self,
        es: Seq<(usize, Fragment)>,
        s: int,
        frag: Fragment,
        before: Seq<u8>,
        bytes: Seq<u8>,
    )
        requires
            index_ok(es, self.original_store()@, self.insertion_store()@),
            self.original_store().wf(),
            self.insertion_store().wf(),
            before == entries_text(es, self.original_store()@, self.insertion_store()@),
            total_length(es) == before.len(),
            0 <= s <= before.len(),
            before.len() + frag.byte_length <= usize::MAX,
            frag.byte_length > 0,
            frag.source == Source::Insertion,
            frag.byte_offset + frag.byte_length == self.insertion_store()@.len(),
            self.insertion_store()@.subrange(frag.byte_offset as int, self.insertion_store()@.len() as int) == bytes,
            self.entries() == es.subrange(0, cover_index(es, s)) + pieces(
                insertion_update(
                    es[cover_index(es, s)].0,
                    (s - es[cover_index(es, s)].0) as usize,
                    frag,
                ),
                es[cover_index(es, s)].1,
            ) + shift_keys(
                es.subrange(cover_index(es, s) + 1, es.len() as int),
                frag.byte_length as int,
            ),
        ensures
            self.wf(),
            self@ == spliced(before, s, bytes),
            self@.len() == before.len() + bytes.len(),
            self@.subrange(s, s + bytes.len()) == bytes,
    {
        let o = self.original_store()@;
        let ins = self.insertion_store()@;
        let j = cover_index(es, s);
        let n = es.len() as int;
        let l = frag.byte_length as int;
        lemma_insertion_point(es, s, o, ins);
        lemma_entry_fits(es, j, o, ins);
        crate::change::lemma_insertion_pieces(es[j].0, es[j].1, (s - es[j].0) as usize, frag, o, ins);
        let u = insertion_update(es[j].0, (s - es[j].0) as usize, frag);
        let head = es.subrange(0, j);
        let tail = es.subrange(j + 1, n);
        let ps = pieces(u, es[j].1);
        lemma_insertion_parts(es, j, l, o, ins);
        lemma_insertion_shape(head, ps, tail, es[j].0 as int, es[j].1.byte_length as int, l, o, ins);
        lemma_insertion_text(head, es[j], ps, tail, s - es[j].0, fragment_text(frag, o, ins), l, o, ins);
        lemma_decompose(es, j);
        assert(fragment_text(frag, o, ins) =~= bytes);
        self.lemma_wf_from_index();
        self.lemma_length();
        assert(self@.subrange(s, s + bytes.len()) =~= bytes);
    }

    /// The keys partition the text: each key is the sum of the lengths of the
    /// fragments before it, and the text is as long as all of them together.
    pub proof fn lemma_partition(&self)
        requires
            self.wf(),
        ensures
            forall|i: int|
                0 <= i < self.entries().len() ==> #[trigger] self.entries()[i].0 == total_length(
                    self.entries().subrange(0, i),
                ),
            self@.len() == total_length(self.entries()),
            self@.len() == self.end_key(),
    {
        lemma_contiguous_keys(self.entries(), 0);
        self.lemma_length();
    }

    /// Each store's line-break index holds exactly the positions of its line feeds.
    pub proof fn lemma_linebreak_index(&self)
        requires
            self.wf(),
        ensures
            linebreaks_exact(self.original_store()@, self.original_store().linebreak_set()),
            linebreaks_exact(self.insertion_store()@, self.insertion_store().linebreak_set()),
    {
    }

    /// The store of the text the document was created with.
    pub fn original(&self) -> (r: &IndexedString)
        ensures
            *r == self.original_store(),
    {
        &self.original
    }

    /// The store of every text inserted so far.
    pub fn insertions(&self) -> (r: &IndexedString)
        ensures
            *r == self.insertion_store(),
    {
        &self.insertions
    }

    /// The fragment index: `(key, fragment)` pairs in ascending key order.
    pub fn fragments(&self) -> (r: &Vec<(usize, Fragment)>)
        ensures
            r@ == self.entries(),
    {
        &self.fragments
    }
}

} // verus!
