//! The scanlines that a sequence of rows stands for.

use crate::hdma::RowView;
use vstd::prelude::*;

verus! {

/// The payloads of the scanlines of a row, from the top down.
pub open spec fn row_scanlines(row: RowView) -> Seq<Seq<u8>> {
    match row {
        RowView::Repeat { count, data } => Seq::new(count, |i: int| data),
        RowView::Continuous { values } => values,
        RowView::Finish => Seq::empty(),
    }
}

/// The payloads of the scanlines of the rows, from the top down.
pub open spec fn scanlines(rows: Seq<RowView>) -> Seq<Seq<u8>>
    decreases rows.len(),
{
    if rows.len() == 0 {
        Seq::empty()
    } else {
        scanlines(rows.drop_last()) + row_scanlines(rows.last())
    }
}

/// The number of scanlines of a row: the count of a repeat row, the number of
/// values of a continuous row.
pub open spec fn row_line_count(row: RowView) -> nat {
    match row {
        RowView::Repeat { count, data: _ } => count,
        RowView::Continuous { values } => values.len(),
        RowView::Finish => 0,
    }
}

/// The number of scanlines of the rows together.
pub open spec fn line_count(rows: Seq<RowView>) -> nat
    decreases rows.len(),
{
    if rows.len() == 0 {
        0
    } else {
        line_count(rows.drop_last()) + row_line_count(rows.last())
    }
}

/// Whether every row holds one payload for one scanline.
pub open spec fn flat(rows: Seq<RowView>) -> bool {
    forall|i: int|
        0 <= i < rows.len() ==> (#[trigger] rows[i] matches RowView::Repeat { count, data: _ }
            && count == 1)
}

/// Whether every repeat row stands for one scanline at least.
pub open spec fn positive_counts(rows: Seq<RowView>) -> bool {
    forall|i: int|
        0 <= i < rows.len() ==> (#[trigger] rows[i] matches RowView::Repeat { count, data: _ }
            ==> count >= 1)
}

/// Whether every continuous row holds one value at least.
pub open spec fn no_empty_run(rows: Seq<RowView>) -> bool {
    forall|i: int|
        0 <= i < rows.len() ==> (#[trigger] rows[i] matches RowView::Continuous { values }
            ==> values.len() > 0)
}

/// Whether every payload has four bytes.
pub open spec fn whole_payloads(groups: Seq<Seq<u8>>) -> bool {
    forall|i: int| 0 <= i < groups.len() ==> (#[trigger] groups[i]).len() == 4
}

/// Whether the payload of a row, or each of its payloads, has four bytes.
pub open spec fn whole_row(row: RowView) -> bool {
    match row {
        RowView::Repeat { count: _, data } => data.len() == 4,
        RowView::Continuous { values } => whole_payloads(values),
        RowView::Finish => true,
    }
}

/// Whether every payload of every row has four bytes.
pub open spec fn whole_rows(rows: Seq<RowView>) -> bool {
    forall|i: int| 0 <= i < rows.len() ==> whole_row(#[trigger] rows[i])
}

/// The scanlines of two runs of rows are those of the first, then those of the second.
pub proof fn lemma_scanlines_concat(first: Seq<RowView>, second: Seq<RowView>)
    ensures
        scanlines(first + second) == scanlines(first) + scanlines(second),
    decreases second.len(),
{
    if second.len() == 0 {
        assert(first + second =~= first);
        assert(scanlines(first) + Seq::<Seq<u8>>::empty() =~= scanlines(first));
    } else {
        lemma_scanlines_concat(first, second.drop_last());
        assert((first + second).drop_last() =~= first + second.drop_last());
        assert((first + second).last() == second.last());
        assert(scanlines(first + second) =~= scanlines(first) + scanlines(second));
    }
}

/// The scanlines of one row.
pub proof fn lemma_scanlines_single(row: RowView)
    ensures
        scanlines(seq![row]) == row_scanlines(row),
{
    assert(seq![row].drop_last() =~= Seq::<RowView>::empty());
    assert(scanlines(Seq::<RowView>::empty()) =~= Seq::<Seq<u8>>::empty());
    assert(scanlines(seq![row]) =~= row_scanlines(row));
}

/// The scanlines of two rows.
pub proof fn lemma_scanlines_pair(first: RowView, second: RowView)
    ensures
        scanlines(seq![first, second]) == row_scanlines(first) + row_scanlines(second),
{
    lemma_scanlines_single(first);
    assert(seq![first, second].drop_last() =~= seq![first]);
}

/// The rows stand for as many scanlines as their counts add up to.
pub proof fn lemma_line_count_is_length(rows: Seq<RowView>)
    ensures
        line_count(rows) == scanlines(rows).len(),
    decreases rows.len(),
{
    if rows.len() > 0 {
        lemma_line_count_is_length(rows.drop_last());
    }
}

/// Flat rows stand for one scanline each.
pub proof fn lemma_flat_line_count(rows: Seq<RowView>)
    requires
        flat(rows),
    ensures
        line_count(rows) == rows.len(),
    decreases rows.len(),
{
    if rows.len() > 0 {
        assert(rows.last() == rows[rows.len() - 1]);
        lemma_flat_line_count(rows.drop_last());
    }
}

/// No row stands for more scanlines than all rows together.
pub proof fn lemma_row_line_count_bound(rows: Seq<RowView>, i: int)
    requires
        0 <= i < rows.len(),
    ensures
        row_line_count(rows[i]) <= line_count(rows),
        line_count(rows.take(i)) + row_line_count(rows[i]) <= line_count(rows),
    decreases rows.len(),
{
    if i == rows.len() - 1 {
        assert(rows.take(i) =~= rows.drop_last());
    } else {
        lemma_row_line_count_bound(rows.drop_last(), i);
        assert(rows.drop_last().take(i) =~= rows.take(i));
    }
}

} // verus!
