//! What holds of coalescing, whatever the rows.

use crate::coalesce::{
    coalesced, coalesced_repeat, merge_pair, merge_pair_repeat, merge_step, merge_step_repeat,
    mergeable, mergeable_repeat, merged, merged_repeat, pair_mergeable, step_mergeable,
    step_mergeable_repeat, truncated,
};
use crate::hdma::RowView;
use crate::scanlines::{
    flat, lemma_flat_line_count, lemma_line_count_is_length, lemma_scanlines_concat,
    lemma_scanlines_pair, lemma_scanlines_single, line_count, no_empty_run, positive_counts,
    row_scanlines, scanlines,
};
use vstd::prelude::*;

verus! {

/// What a pair of rows becomes stands for the scanlines of the first row,
/// then those of the second.
pub proof fn lemma_merge_pair_keeps_scanlines(last: RowView, row: RowView)
    requires
        pair_mergeable(last, row),
    ensures
        scanlines(merge_pair(last, row)) == row_scanlines(last) + row_scanlines(row),
{
    let both = row_scanlines(last) + row_scanlines(row);
    let out = merge_pair(last, row);
    if out.len() == 1 {
        lemma_scanlines_single(out[0]);
        assert(out =~= seq![out[0]]);
        assert(row_scanlines(out[0]) =~= both);
    } else {
        lemma_scanlines_pair(out[0], out[1]);
        assert(out =~= seq![out[0], out[1]]);
        assert(row_scanlines(out[0]) + row_scanlines(out[1]) =~= both);
    }
}

/// Taking a row in adds its scanlines behind those that are there.
pub proof fn lemma_merge_step_keeps_scanlines(out: Seq<RowView>, row: RowView)
    requires
        step_mergeable(out, row),
    ensures
        scanlines(merge_step(out, row)) == scanlines(out) + row_scanlines(row),
{
    if out.len() == 0 {
        lemma_scanlines_single(row);
        assert(scanlines(out) + row_scanlines(row) =~= row_scanlines(row));
    } else {
        lemma_merge_pair_keeps_scanlines(out.last(), row);
        lemma_scanlines_concat(out.drop_last(), merge_pair(out.last(), row));
        assert(scanlines(merge_step(out, row)) =~= scanlines(out) + row_scanlines(row));
    }
}

/// The merging pass keeps every scanline: the merged rows stand for the
/// payloads that the rows stood for, in the same order.
pub proof fn lemma_merge_keeps_scanlines(rows: Seq<RowView>)
    requires
        mergeable(rows),
    ensures
        scanlines(merged(rows)) == scanlines(rows),
        line_count(merged(rows)) == line_count(rows),
    decreases rows.len(),
{
    if rows.len() > 0 {
        lemma_merge_keeps_scanlines(rows.drop_last());
        lemma_merge_step_keeps_scanlines(merged(rows.drop_last()), rows.last());
    }
    lemma_line_count_is_length(merged(rows));
    lemma_line_count_is_length(rows);
}

/// Whether no merging rule applies to the pair: the rows stay as they are
/// when the second follows the first.
pub open spec fn pair_settled(first: RowView, second: RowView) -> bool {
    match (first, second) {
        (RowView::Repeat { count: a, data: p }, RowView::Repeat { count: b, data: q }) => {
            p != q && !(a == 1 && b == 1)
        },
        (RowView::Repeat { count: a, data: _ }, RowView::Continuous { values: _ }) => a != 1,
        (RowView::Continuous { values: _ }, RowView::Repeat { count: b, data: _ }) => b != 1,
        (RowView::Continuous { values: _ }, RowView::Continuous { values: _ }) => false,
        _ => true,
    }
}

/// Whether no merging rule applies to any two neighbours among the rows.
pub open spec fn settled(rows: Seq<RowView>) -> bool {
    forall|i: int| 0 <= i < rows.len() - 1 ==> pair_settled(#[trigger] rows[i], rows[i + 1])
}

/// A pair stays as it is exactly where no rule applies to it.
pub proof fn lemma_pair_settled_is_fixed(first: RowView, second: RowView)
    ensures
        pair_settled(first, second) <==> merge_pair(first, second) == seq![first, second],
        pair_settled(first, second) ==> pair_mergeable(first, second),
{
    let out = merge_pair(first, second);
    let same = seq![first, second];
    if pair_settled(first, second) {
        assert(out =~= same);
    } else {
        if out.len() == 2 {
            assert(out[1] != same[1]);
        }
    }
}

/// Settled rows are what the merging pass makes of them.
pub proof fn lemma_settled_is_fixed(rows: Seq<RowView>)
    requires
        settled(rows),
    ensures
        mergeable(rows),
        merged(rows) == rows,
    decreases rows.len(),
{
    if rows.len() > 0 {
        let front = rows.drop_last();
        assert forall|i: int| 0 <= i < front.len() - 1 implies pair_settled(
            #[trigger] front[i],
            front[i + 1],
        ) by {
            assert(pair_settled(rows[i], rows[i + 1]));
        }
        lemma_settled_is_fixed(front);
        if front.len() > 0 {
            let n = rows.len() - 2;
            assert(pair_settled(rows[n], rows[n + 1]));
            assert(front.last() == rows[n]);
            lemma_pair_settled_is_fixed(front.last(), rows.last());
            assert(front.drop_last() + seq![front.last(), rows.last()] =~= rows);
        } else {
            assert(seq![rows.last()] =~= rows);
        }
    }
}

/// Taking a row in leaves settled rows settled.
pub proof fn lemma_merge_step_settles(out: Seq<RowView>, row: RowView)
    requires
        settled(out),
        positive_counts(out),
        step_mergeable(out, row),
        row matches RowView::Repeat { count, data: _ } ==> count >= 1,
    ensures
        settled(merge_step(out, row)),
        positive_counts(merge_step(out, row)),
{
    let next = merge_step(out, row);
    if out.len() > 0 {
        let n = out.len() - 1;
        let last = out[n];
        let pair = merge_pair(last, row);
        assert(out.last() == last);
        assert(last matches RowView::Repeat { count, data: _ } ==> count >= 1);
        lemma_pair_settled_is_fixed(last, row);
        assert forall|i: int| 0 <= i < next.len() implies (#[trigger] next[i] matches RowView::Repeat {
            count,
            data: _,
        } ==> count >= 1) by {
            if i < n {
                assert(next[i] == out[i]);
            } else {
                assert(next[i] == pair[i - n]);
            }
        }
        assert forall|i: int| 0 <= i < next.len() - 1 implies pair_settled(
            #[trigger] next[i],
            next[i + 1],
        ) by {
            if i < n - 1 {
                assert(next[i] == out[i]);
                assert(next[i + 1] == out[i + 1]);
                assert(pair_settled(out[i], out[i + 1]));
            } else if i == n - 1 {
                assert(next[i] == out[i]);
                assert(next[i + 1] == pair[0]);
                assert(pair_settled(out[i], out[i + 1]));
            } else {
                assert(next[i] == pair[0]);
                assert(next[i + 1] == pair[1]);
            }
        }
    }
}

/// The merging pass leaves no two neighbours that a rule applies to.
pub proof fn lemma_merged_is_settled(rows: Seq<RowView>)
    requires
        mergeable(rows),
        positive_counts(rows),
    ensures
        settled(merged(rows)),
        positive_counts(merged(rows)),
    decreases rows.len(),
{
    if rows.len() > 0 {
        let front = rows.drop_last();
        assert forall|i: int| 0 <= i < front.len() implies (#[trigger] front[i] matches RowView::Repeat {
            count,
            data: _,
        } ==> count >= 1) by {
            assert(front[i] == rows[i]);
        }
        lemma_merged_is_settled(front);
        assert(rows.last() == rows[rows.len() - 1]);
        lemma_merge_step_settles(merged(front), rows.last());
    }
}

/// Merging what has been merged changes nothing.
pub proof fn lemma_merge_is_idempotent(rows: Seq<RowView>)
    requires
        mergeable(rows),
        positive_counts(rows),
    ensures
        mergeable(merged(rows)),
        merged(merged(rows)) == merged(rows),
{
    lemma_merged_is_settled(rows);
    lemma_settled_is_fixed(merged(rows));
}

/// Whether cutting the last row to one scanline makes it a row that merges
/// with the row before it: the last row is a repeat row of another count than
/// one, behind a continuous row or a repeat row of one scanline.
pub open spec fn cut_joins(out: Seq<RowView>) -> bool {
    &&& out.len() >= 2
    &&& out[out.len() - 1] matches RowView::Repeat { count, data: _ }
    &&& count != 1
    &&& match out[out.len() - 2] {
        RowView::Repeat { count: before, data: _ } => before == 1,
        RowView::Continuous { values: _ } => true,
        RowView::Finish => false,
    }
}

/// Cutting the last row leaves settled rows settled, unless the cut joins it
/// to the row before.
pub proof fn lemma_truncated_is_settled(out: Seq<RowView>)
    requires
        settled(out),
        !cut_joins(out),
    ensures
        settled(truncated(out)),
        truncated(truncated(out)) == truncated(out),
{
    let cut = truncated(out);
    assert(truncated(cut) =~= cut);
    assert forall|i: int| 0 <= i < cut.len() - 1 implies pair_settled(
        #[trigger] cut[i],
        cut[i + 1],
    ) by {
        assert(pair_settled(out[i], out[i + 1]));
    }
}

/// Coalescing what has been coalesced, the end marker taken off, gives the
/// same rows again, unless the cut of the last row joins it to the row before.
pub proof fn lemma_coalesce_is_idempotent(rows: Seq<RowView>)
    requires
        mergeable(rows),
        positive_counts(rows),
        !cut_joins(merged(rows)),
    ensures
        mergeable(coalesced(rows).drop_last()),
        coalesced(coalesced(rows).drop_last()) == coalesced(rows),
{
    let cut = truncated(merged(rows));
    assert(coalesced(rows).drop_last() =~= cut);
    lemma_merged_is_settled(rows);
    lemma_truncated_is_settled(merged(rows));
    lemma_settled_is_fixed(cut);
}

/// Where the cut of the last row joins it to the row before, coalescing the
/// coalesced rows again gives other rows.
pub proof fn lemma_cut_that_joins_is_not_kept(rows: Seq<RowView>)
    requires
        mergeable(rows),
        positive_counts(rows),
        cut_joins(merged(rows)),
        mergeable(coalesced(rows).drop_last()),
    ensures
        coalesced(coalesced(rows).drop_last()) != coalesced(rows),
{
    let out = merged(rows);
    let cut = truncated(out);
    let n = out.len() - 1;
    assert(coalesced(rows).drop_last() =~= cut);
    lemma_merged_is_settled(rows);
    let front = cut.drop_last();
    assert(front =~= out.drop_last());
    assert forall|i: int| 0 <= i < front.len() - 1 implies pair_settled(
        #[trigger] front[i],
        front[i + 1],
    ) by {
        assert(pair_settled(out[i], out[i + 1]));
    }
    lemma_settled_is_fixed(front);
    assert(front.last() == out[n - 1]);
    assert(cut.last() == cut[n]);
    let pair = merge_pair(front.last(), cut.last());
    let again = merged(cut);
    assert(again == front.drop_last() + pair);
    if pair.len() == 1 {
        assert(truncated(again).len() == n);
        assert(coalesced(cut).len() == n + 1);
        assert(coalesced(rows).len() == n + 2);
    } else {
        assert(again[n - 1] == pair[0]);
        assert(truncated(again)[n - 1] == pair[0]);
        assert(coalesced(cut)[n - 1] == pair[0]);
        assert(coalesced(rows)[n - 1] == out[n - 1]);
        assert(pair[0] != out[n - 1]) by {
            match out[n - 1] {
                RowView::Continuous { values } => {
                    assert(values.len() > 0);
                    assert(values.drop_last().len() != values.len());
                },
                _ => {},
            }
        }
    }
}

/// The repeat-only pass keeps every scanline.
pub proof fn lemma_merge_repeat_keeps_scanlines(rows: Seq<RowView>)
    ensures
        scanlines(merged_repeat(rows)) == scanlines(rows),
        line_count(merged_repeat(rows)) == line_count(rows),
    decreases rows.len(),
{
    if rows.len() > 0 {
        let front = rows.drop_last();
        let row = rows.last();
        let out = merged_repeat(front);
        lemma_merge_repeat_keeps_scanlines(front);
        if out.len() == 0 {
            lemma_scanlines_single(row);
            assert(scanlines(out) + row_scanlines(row) =~= row_scanlines(row));
        } else {
            let last = out.last();
            let pair = merge_pair_repeat(last, row);
            let both = row_scanlines(last) + row_scanlines(row);
            if pair.len() == 1 {
                lemma_scanlines_single(pair[0]);
                assert(pair =~= seq![pair[0]]);
                assert(row_scanlines(pair[0]) =~= both);
            } else {
                lemma_scanlines_pair(last, row);
                assert(pair =~= seq![last, row]);
            }
            lemma_scanlines_concat(out.drop_last(), pair);
            assert(scanlines(merge_step_repeat(out, row)) =~= scanlines(out) + row_scanlines(row));
        }
    }
    lemma_line_count_is_length(merged_repeat(rows));
    lemma_line_count_is_length(rows);
}

/// Whether the last row, if it is a continuous row, holds a value.
pub open spec fn last_run_holds_value(out: Seq<RowView>) -> bool {
    out.len() > 0 ==> (out.last() matches RowView::Continuous { values } ==> values.len() > 0)
}

/// Rows can be coalesced, by either pass, where no continuous row among them
/// is empty and the scanlines that they stand for can be counted in a machine
/// word.
pub proof fn lemma_mergeable(rows: Seq<RowView>)
    requires
        no_empty_run(rows),
        line_count(rows) <= usize::MAX,
    ensures
        mergeable(rows),
        mergeable_repeat(rows),
        last_run_holds_value(merged(rows)),
    decreases rows.len(),
{
    if rows.len() > 0 {
        let front = rows.drop_last();
        let row = rows.last();
        assert(row == rows[rows.len() - 1]);
        assert forall|i: int| 0 <= i < front.len() implies (#[trigger] front[i] matches RowView::Continuous {
            values,
        } ==> values.len() > 0) by {
            assert(front[i] == rows[i]);
        }
        lemma_mergeable(front);
        lemma_merge_keeps_scanlines(front);
        lemma_merge_repeat_keeps_scanlines(front);
        let out = merged(front);
        if out.len() > 0 {
            crate::scanlines::lemma_row_line_count_bound(out, out.len() - 1);
            assert(out.last() == out[out.len() - 1]);
        }
        let out_repeat = merged_repeat(front);
        if out_repeat.len() > 0 {
            crate::scanlines::lemma_row_line_count_bound(out_repeat, out_repeat.len() - 1);
            assert(out_repeat.last() == out_repeat[out_repeat.len() - 1]);
        }
        assert(step_mergeable(out, row));
        assert(step_mergeable_repeat(out_repeat, row));
        let next = merge_step(out, row);
        if out.len() > 0 {
            let pair = merge_pair(out.last(), row);
            assert(next.last() == pair.last());
        }
    }
}

/// Rows of one scanline each can be coalesced, by either pass.
pub proof fn lemma_flat_rows_mergeable(rows: Seq<RowView>)
    requires
        flat(rows),
        rows.len() <= usize::MAX,
    ensures
        mergeable(rows),
        mergeable_repeat(rows),
{
    lemma_flat_line_count(rows);
    lemma_mergeable(rows);
}

/// How many scanlines the cut of the last row takes away: all but one of a
/// last repeat row, none of any other.
pub open spec fn cut_lines(out: Seq<RowView>) -> int {
    if out.len() > 0 {
        match out.last() {
            RowView::Repeat { count, data: _ } => count - 1,
            _ => 0,
        }
    } else {
        0
    }
}

/// The cut takes scanlines from the end only.
pub proof fn lemma_truncated_scanlines(out: Seq<RowView>)
    ensures
        line_count(truncated(out)) == line_count(out) - cut_lines(out),
        cut_lines(out) >= 0 ==> scanlines(truncated(out)) == scanlines(out).take(
            line_count(out) - cut_lines(out),
        ),
{
    let cut = truncated(out);
    lemma_line_count_is_length(out);
    if out.len() > 0 {
        assert(cut.drop_last() =~= out.drop_last());
        lemma_line_count_is_length(out.drop_last());
        if cut_lines(out) >= 0 {
            assert(scanlines(cut) =~= scanlines(out).take(line_count(out) - cut_lines(out)));
        }
    } else {
        assert(scanlines(cut) =~= scanlines(out).take(0));
    }
}

/// Full coalescing keeps the scanlines but for those that the cut of the last
/// row takes away: the counts of the coalesced rows add up to the number of
/// scanlines that the rows stood for, less the cut.
pub proof fn lemma_coalesce_keeps_line_count(rows: Seq<RowView>)
    requires
        mergeable(rows),
    ensures
        line_count(merged(rows)) == line_count(rows),
        line_count(coalesced(rows)) == line_count(rows) - cut_lines(merged(rows)),
        cut_lines(merged(rows)) >= 0 ==> scanlines(coalesced(rows)) == scanlines(rows).take(
            line_count(rows) - cut_lines(merged(rows)),
        ),
        flat(rows) ==> line_count(coalesced(rows)) == rows.len() - cut_lines(merged(rows)),
{
    lemma_merge_keeps_scanlines(rows);
    lemma_truncated_scanlines(merged(rows));
    let cut = truncated(merged(rows));
    assert(coalesced(rows).drop_last() =~= cut);
    assert(scanlines(coalesced(rows)) =~= scanlines(cut));
    if flat(rows) {
        lemma_flat_line_count(rows);
    }
}

/// Repeat-only coalescing keeps every scanline.
pub proof fn lemma_coalesce_repeat_keeps_scanlines(rows: Seq<RowView>)
    ensures
        scanlines(coalesced_repeat(rows)) == scanlines(rows),
        line_count(coalesced_repeat(rows)) == line_count(rows),
        flat(rows) ==> line_count(coalesced_repeat(rows)) == rows.len(),
{
    lemma_merge_repeat_keeps_scanlines(rows);
    assert(coalesced_repeat(rows).drop_last() =~= merged_repeat(rows));
    assert(scanlines(coalesced_repeat(rows)) =~= scanlines(merged_repeat(rows)));
    if flat(rows) {
        lemma_flat_line_count(rows);
    }
}

/// Whether rows `i` and `i + 1` are repeat rows with the same payload.
pub open spec fn equal_repeat_neighbours(rows: Seq<RowView>, i: int) -> bool {
    &&& rows[i] matches RowView::Repeat { count: _, data: p }
    &&& rows[i + 1] matches RowView::Repeat { count: _, data: q }
    &&& p == q
}

/// Full coalescing leaves no two neighbouring repeat rows with the same payload.
pub proof fn lemma_no_equal_repeat_neighbours(rows: Seq<RowView>)
    requires
        mergeable(rows),
        positive_counts(rows),
    ensures
        forall|i: int|
            0 <= i < coalesced(rows).len() - 1 ==> !#[trigger] equal_repeat_neighbours(
                coalesced(rows),
                i,
            ),
{
    lemma_merged_is_settled(rows);
    let out = merged(rows);
    let done = coalesced(rows);
    assert forall|i: int| 0 <= i < done.len() - 1 implies !#[trigger] equal_repeat_neighbours(
        done,
        i,
    ) by {
        if i < out.len() - 1 {
            assert(pair_settled(out[i], out[i + 1]));
        }
    }
}

/// Full coalescing leaves no two continuous rows side by side: what one
/// continuous row can hold is not spread over several.
pub proof fn lemma_no_continuous_neighbours(rows: Seq<RowView>)
    requires
        mergeable(rows),
        positive_counts(rows),
    ensures
        forall|i: int|
            0 <= i < coalesced(rows).len() - 1 ==> !(#[trigger] coalesced(rows)[i] is Continuous
                && coalesced(rows)[i + 1] is Continuous),
{
    lemma_merged_is_settled(rows);
    let out = merged(rows);
    let done = coalesced(rows);
    assert forall|i: int| 0 <= i < done.len() - 1 implies !(#[trigger] done[i] is Continuous
        && done[i + 1] is Continuous) by {
        if i < out.len() - 1 {
            assert(pair_settled(out[i], out[i + 1]));
        }
    }
}

/// Repeat-only coalescing leaves no two neighbouring repeat rows with the same payload.
pub proof fn lemma_no_equal_repeat_neighbours_repeat(rows: Seq<RowView>)
    ensures
        forall|i: int|
            0 <= i < merged_repeat(rows).len() - 1 ==> !#[trigger] equal_repeat_neighbours(
                merged_repeat(rows),
                i,
            ),
        forall|i: int|
            0 <= i < coalesced_repeat(rows).len() - 1 ==> !#[trigger] equal_repeat_neighbours(
                coalesced_repeat(rows),
                i,
            ),
    decreases rows.len(),
{
    let next = merged_repeat(rows);
    if rows.len() > 0 {
        let out = merged_repeat(rows.drop_last());
        lemma_no_equal_repeat_neighbours_repeat(rows.drop_last());
        if out.len() > 0 {
            let n = out.len() - 1;
            let pair = merge_pair_repeat(out.last(), rows.last());
            assert forall|i: int| 0 <= i < next.len() - 1 implies !#[trigger] equal_repeat_neighbours(
                next,
                i,
            ) by {
                if i < n - 1 {
                    assert(!equal_repeat_neighbours(out, i));
                } else if i == n - 1 {
                    assert(!equal_repeat_neighbours(out, i));
                    assert(next[i + 1] == pair[0]);
                } else {
                    assert(next[i] == pair[0]);
                    assert(next[i + 1] == pair[1]);
                }
            }
        }
    }
    let done = coalesced_repeat(rows);
    assert forall|i: int| 0 <= i < done.len() - 1 implies !#[trigger] equal_repeat_neighbours(
        done,
        i,
    ) by {
        if i < next.len() - 1 {
            assert(!equal_repeat_neighbours(next, i));
        }
    }
}

/// The payload of the first scanline of a row.
pub open spec fn first_payload(row: RowView) -> Seq<u8> {
    match row {
        RowView::Repeat { count: _, data } => data,
        RowView::Continuous { values } => values.first(),
        RowView::Finish => Seq::empty(),
    }
}

/// The payload of the last scanline of a row.
pub open spec fn last_payload(row: RowView) -> Seq<u8> {
    match row {
        RowView::Repeat { count: _, data } => data,
        RowView::Continuous { values } => values.last(),
        RowView::Finish => Seq::empty(),
    }
}

/// Whether each value differs from the one before it.
pub open spec fn changes_each_step(values: Seq<Seq<u8>>) -> bool {
    forall|j: int| 0 <= j < values.len() - 1 ==> #[trigger] values[j] != values[j + 1]
}

/// Whether the row stands for a scanline at least, and, if it is a continuous
/// row, for a payload that changes with each scanline.
pub open spec fn row_tight(row: RowView) -> bool {
    match row {
        RowView::Repeat { count, data: _ } => count >= 1,
        RowView::Continuous { values } => values.len() >= 1 && changes_each_step(values),
        RowView::Finish => false,
    }
}

/// Whether two scanlines with the same payload, one behind the other, are
/// found inside one repeat row only: each row is tight, and the payload
/// changes from each row to the next.
pub open spec fn tight(out: Seq<RowView>) -> bool {
    &&& forall|i: int| 0 <= i < out.len() ==> row_tight(#[trigger] out[i])
    &&& forall|i: int|
        0 <= i < out.len() - 1 ==> last_payload(#[trigger] out[i]) != first_payload(out[i + 1])
}

/// Whether the last row, if it is a continuous row, holds two values at least.
pub open spec fn last_run_is_open(out: Seq<RowView>) -> bool {
    out.len() > 0 ==> (out.last() matches RowView::Continuous { values } ==> values.len() >= 2)
}

/// Taking in a row of one scanline leaves tight rows tight.
pub proof fn lemma_merge_step_tight(out: Seq<RowView>, data: Seq<u8>)
    requires
        tight(out),
        last_run_is_open(out),
    ensures
        tight(merge_step(out, RowView::Repeat { count: 1, data })),
        last_run_is_open(merge_step(out, RowView::Repeat { count: 1, data })),
{
    let row = RowView::Repeat { count: 1, data };
    let next = merge_step(out, row);
    if out.len() > 0 {
        let n = out.len() - 1;
        let last = out[n];
        let pair = merge_pair(last, row);
        assert(out.last() == last);
        assert(row_tight(last));
        assert(next.last() == pair.last());
        assert(row_tight(pair[0]) && first_payload(pair[0]) == first_payload(last)) by {
            match last {
                RowView::Continuous { values } => {
                    if values.last() == data {
                        let kept = values.drop_last();
                        assert forall|j: int| 0 <= j < kept.len() - 1 implies #[trigger] kept[j]
                            != kept[j + 1] by {
                            assert(values[j] != values[j + 1]);
                        }
                    } else {
                        let more = values.push(data);
                        assert forall|j: int| 0 <= j < more.len() - 1 implies #[trigger] more[j]
                            != more[j + 1] by {
                            if j < values.len() - 1 {
                                assert(values[j] != values[j + 1]);
                            }
                        }
                    }
                },
                _ => {},
            }
        }
        assert(pair.len() == 2 ==> row_tight(pair[1]) && last_payload(pair[0]) != first_payload(
            pair[1],
        )) by {
            match last {
                RowView::Continuous { values } => {
                    if values.last() == data {
                        let k = values.len() - 2;
                        assert(values[k] != values[k + 1]);
                    }
                },
                _ => {},
            }
        }
        assert forall|i: int| 0 <= i < next.len() implies row_tight(#[trigger] next[i]) by {
            if i < n {
                assert(next[i] == out[i]);
            } else {
                assert(next[i] == pair[i - n]);
            }
        }
        assert forall|i: int| 0 <= i < next.len() - 1 implies last_payload(#[trigger] next[i])
            != first_payload(next[i + 1]) by {
            if i < n - 1 {
                assert(next[i] == out[i]);
                assert(next[i + 1] == out[i + 1]);
            } else if i == n - 1 {
                assert(next[i] == out[i]);
                assert(next[i + 1] == pair[0]);
                assert(last_payload(out[i]) != first_payload(out[i + 1]));
            } else {
                assert(next[i] == pair[0]);
                assert(next[i + 1] == pair[1]);
            }
        }
    }
}

/// What the merging pass makes of rows of one scanline each is tight: where
/// two scanlines, one behind the other, have the same payload, one repeat row
/// holds both. The cut of the last row leaves the rows tight.
pub proof fn lemma_flat_rows_merge_tight(rows: Seq<RowView>)
    requires
        flat(rows),
    ensures
        tight(merged(rows)),
        tight(truncated(merged(rows))),
        coalesced(rows).drop_last() == truncated(merged(rows)),
        last_run_is_open(merged(rows)),
    decreases rows.len(),
{
    assert(coalesced(rows).drop_last() =~= truncated(merged(rows)));
    if rows.len() > 0 {
        let front = rows.drop_last();
        assert forall|i: int| 0 <= i < front.len() implies (#[trigger] front[i] matches RowView::Repeat {
            count,
            data: _,
        } && count == 1) by {
            assert(front[i] == rows[i]);
        }
        lemma_flat_rows_merge_tight(front);
        assert(rows.last() == rows[rows.len() - 1]);
        lemma_merge_step_tight(merged(front), first_payload(rows.last()));
    }
    let out = merged(rows);
    let cut = truncated(out);
    assert forall|i: int| 0 <= i < cut.len() implies row_tight(#[trigger] cut[i]) by {
        assert(row_tight(out[i]));
    }
    assert forall|i: int| 0 <= i < cut.len() - 1 implies last_payload(#[trigger] cut[i])
        != first_payload(cut[i + 1]) by {
        assert(last_payload(out[i]) != first_payload(out[i + 1]));
    }
}

/// Rows of one scanline each that all hold the same payload become one repeat row.
pub proof fn lemma_equal_run_is_one_repeat_row(rows: Seq<RowView>, data: Seq<u8>)
    requires
        rows.len() >= 1,
        forall|i: int| 0 <= i < rows.len() ==> #[trigger] rows[i] == (RowView::Repeat { count: 1, data }),
    ensures
        merged(rows) == seq![RowView::Repeat { count: rows.len(), data }],
        coalesced(rows) == seq![RowView::Repeat { count: 1, data }, RowView::Finish],
    decreases rows.len(),
{
    let front = rows.drop_last();
    assert(rows.last() == rows[rows.len() - 1]);
    if front.len() == 0 {
        assert(merged(front) =~= Seq::<RowView>::empty());
        assert(merged(rows) =~= seq![RowView::Repeat { count: rows.len(), data }]);
    } else {
        assert forall|i: int| 0 <= i < front.len() implies #[trigger] front[i] == (RowView::Repeat {
            count: 1,
            data,
        }) by {
            assert(front[i] == rows[i]);
        }
        lemma_equal_run_is_one_repeat_row(front, data);
        assert(merged(rows) =~= seq![RowView::Repeat { count: rows.len(), data }]);
    }
    assert(coalesced(rows) =~= seq![RowView::Repeat { count: 1, data }, RowView::Finish]);
}

/// Rows of one scanline each, two at least, whose payload changes with each
/// scanline become one continuous row that holds every payload.
pub proof fn lemma_distinct_run_is_one_continuous_row(rows: Seq<RowView>)
    requires
        flat(rows),
        rows.len() >= 2,
        changes_each_step(scanlines(rows)),
    ensures
        merged(rows) == seq![RowView::Continuous { values: scanlines(rows) }],
        coalesced(rows) == seq![RowView::Continuous { values: scanlines(rows) }, RowView::Finish],
    decreases rows.len(),
{
    let front = rows.drop_last();
    let last = rows.last();
    let all = scanlines(rows);
    let n = rows.len() as int;
    assert(last == rows[n - 1]);
    assert(front.last() == rows[n - 2]);
    assert forall|i: int| 0 <= i < front.len() implies (#[trigger] front[i] matches RowView::Repeat {
        count,
        data: _,
    } && count == 1) by {
        assert(front[i] == rows[i]);
    }
    lemma_line_count_is_length(rows);
    lemma_flat_line_count(rows);
    lemma_line_count_is_length(front);
    lemma_flat_line_count(front);
    let q = first_payload(last);
    assert(row_scanlines(last) =~= seq![q]);
    assert(all =~= scanlines(front).push(q));
    assert(all[n - 2] != all[n - 1]);
    if n == 2 {
        let p = first_payload(front.last());
        assert(front.drop_last() =~= Seq::<RowView>::empty());
        assert(merged(front.drop_last()) =~= Seq::<RowView>::empty());
        assert(scanlines(front.drop_last()) =~= Seq::<Seq<u8>>::empty());
        assert(row_scanlines(front.last()) =~= seq![p]);
        assert(scanlines(front) =~= seq![p]);
        assert(merged(front) =~= seq![front.last()]);
        assert(all =~= seq![p, q]);
        assert(merged(rows) =~= seq![RowView::Continuous { values: all }]);
    } else {
        let before = scanlines(front);
        assert forall|j: int| 0 <= j < before.len() - 1 implies #[trigger] before[j] != before[j
            + 1] by {
            assert(all[j] != all[j + 1]);
        }
        lemma_distinct_run_is_one_continuous_row(front);
        assert(before.last() == all[n - 2]);
        assert(merged(rows) =~= seq![RowView::Continuous { values: all }]);
    }
    assert(coalesced(rows) =~= seq![RowView::Continuous { values: all }, RowView::Finish]);
}

} // verus!
