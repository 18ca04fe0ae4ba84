//! What coalescing makes of a sequence of rows.
//!
//! Rows are taken from left to right. Each row is held against the last row
//! of what has been built so far, and either merges with it or is put behind
//! it. `merged` is the result of that pass, `coalesced` the result once the
//! last row has been cut to one scanline and the end marker added.

use crate::hdma::{payloads_view, rows_view, HdmaRow, RowView};
use vstd::prelude::*;

verus! {

/// What the last row built so far and the next row become.
pub open spec fn merge_pair(last: RowView, row: RowView) -> Seq<RowView> {
    match (last, row) {
        (RowView::Repeat { count: a, data: p }, RowView::Repeat { count: b, data: q }) => {
            if p == q {
                seq![RowView::Repeat { count: a + b, data: q }]
            } else if a == 1 && b == 1 {
                seq![RowView::Continuous { values: seq![p, q] }]
            } else {
                seq![last, row]
            }
        },
        (RowView::Repeat { count: a, data: p }, RowView::Continuous { values }) => {
            if a == 1 {
                seq![RowView::Continuous { values: seq![p] + values }]
            } else {
                seq![last, row]
            }
        },
        (RowView::Continuous { values }, RowView::Repeat { count: b, data: q }) => {
            if b != 1 {
                seq![last, row]
            } else if values.last() == q {
                seq![
                    RowView::Continuous { values: values.drop_last() },
                    RowView::Repeat { count: 2, data: q },
                ]
            } else {
                seq![RowView::Continuous { values: values.push(q) }]
            }
        },
        (RowView::Continuous { values: v }, RowView::Continuous { values: w }) => {
            seq![RowView::Continuous { values: v + w }]
        },
        _ => seq![last, row],
    }
}

/// Whether the pair can be merged: a sum of counts fits the machine word, and a
/// continuous row that a single scanline follows has a value to compare it with.
pub open spec fn pair_mergeable(last: RowView, row: RowView) -> bool {
    match (last, row) {
        (RowView::Repeat { count: a, data: p }, RowView::Repeat { count: b, data: q }) => {
            p == q ==> a + b <= usize::MAX
        },
        (RowView::Continuous { values }, RowView::Repeat { count: b, data: _ }) => {
            b == 1 ==> values.len() > 0
        },
        _ => true,
    }
}

/// `out` with `row` taken in.
pub open spec fn merge_step(out: Seq<RowView>, row: RowView) -> Seq<RowView> {
    if out.len() == 0 {
        seq![row]
    } else {
        out.drop_last() + merge_pair(out.last(), row)
    }
}

/// Whether `row` can be taken into `out`.
pub open spec fn step_mergeable(out: Seq<RowView>, row: RowView) -> bool {
    out.len() > 0 ==> pair_mergeable(out.last(), row)
}

/// The rows after the merging pass.
pub open spec fn merged(rows: Seq<RowView>) -> Seq<RowView>
    decreases rows.len(),
{
    if rows.len() == 0 {
        Seq::empty()
    } else {
        merge_step(merged(rows.drop_last()), rows.last())
    }
}

/// Whether every step of the merging pass can be made.
pub open spec fn mergeable(rows: Seq<RowView>) -> bool
    decreases rows.len(),
{
    rows.len() == 0 || (mergeable(rows.drop_last()) && step_mergeable(
        merged(rows.drop_last()),
        rows.last(),
    ))
}

/// `out` with its last row cut to one scanline, if that row is a repeat row.
pub open spec fn truncated(out: Seq<RowView>) -> Seq<RowView> {
    if out.len() > 0 {
        match out.last() {
            RowView::Repeat { count: _, data } => out.update(
                out.len() - 1,
                RowView::Repeat { count: 1, data },
            ),
            _ => out,
        }
    } else {
        out
    }
}

/// The rows after full coalescing: merged, the last row cut, the end marker added.
pub open spec fn coalesced(rows: Seq<RowView>) -> Seq<RowView> {
    truncated(merged(rows)).push(RowView::Finish)
}

/// What the last row built so far and the next row become where only equal
/// repeat rows merge.
pub open spec fn merge_pair_repeat(last: RowView, row: RowView) -> Seq<RowView> {
    match (last, row) {
        (RowView::Repeat { count: a, data: p }, RowView::Repeat { count: b, data: q }) => {
            if p == q {
                seq![RowView::Repeat { count: a + b, data: q }]
            } else {
                seq![last, row]
            }
        },
        _ => seq![last, row],
    }
}

/// Whether the pair can be merged where only equal repeat rows merge.
pub open spec fn pair_mergeable_repeat(last: RowView, row: RowView) -> bool {
    match (last, row) {
        (RowView::Repeat { count: a, data: p }, RowView::Repeat { count: b, data: q }) => {
            p == q ==> a + b <= usize::MAX
        },
        _ => true,
    }
}

/// `out` with `row` taken in, where only equal repeat rows merge.
pub open spec fn merge_step_repeat(out: Seq<RowView>, row: RowView) -> Seq<RowView> {
    if out.len() == 0 {
        seq![row]
    } else {
        out.drop_last() + merge_pair_repeat(out.last(), row)
    }
}

/// Whether `row` can be taken into `out`, where only equal repeat rows merge.
pub open spec fn step_mergeable_repeat(out: Seq<RowView>, row: RowView) -> bool {
    out.len() > 0 ==> pair_mergeable_repeat(out.last(), row)
}

/// The rows after the pass that merges only equal repeat rows.
pub open spec fn merged_repeat(rows: Seq<RowView>) -> Seq<RowView>
    decreases rows.len(),
{
    if rows.len() == 0 {
        Seq::empty()
    } else {
        merge_step_repeat(merged_repeat(rows.drop_last()), rows.last())
    }
}

/// Whether every step of the pass that merges only equal repeat rows can be made.
pub open spec fn mergeable_repeat(rows: Seq<RowView>) -> bool
    decreases rows.len(),
{
    rows.len() == 0 || (mergeable_repeat(rows.drop_last()) && step_mergeable_repeat(
        merged_repeat(rows.drop_last()),
        rows.last(),
    ))
}

/// The rows after repeat-only coalescing: merged, the end marker added.
pub open spec fn coalesced_repeat(rows: Seq<RowView>) -> Seq<RowView> {
    merged_repeat(rows).push(RowView::Finish)
}

/// A prefix of a mergeable sequence of rows is mergeable.
pub proof fn lemma_mergeable_prefix(rows: Seq<RowView>, n: int)
    requires
        mergeable(rows),
        0 <= n <= rows.len(),
    ensures
        mergeable(rows.take(n)),
    decreases rows.len(),
{
    if n == rows.len() {
        assert(rows.take(n) =~= rows);
    } else {
        lemma_mergeable_prefix(rows.drop_last(), n);
        assert(rows.drop_last().take(n) =~= rows.take(n));
    }
}

/// A prefix of a sequence of rows that the repeat-only pass can merge can be merged by it.
pub proof fn lemma_mergeable_repeat_prefix(rows: Seq<RowView>, n: int)
    requires
        mergeable_repeat(rows),
        0 <= n <= rows.len(),
    ensures
        mergeable_repeat(rows.take(n)),
    decreases rows.len(),
{
    if n == rows.len() {
        assert(rows.take(n) =~= rows);
    } else {
        lemma_mergeable_repeat_prefix(rows.drop_last(), n);
        assert(rows.drop_last().take(n) =~= rows.take(n));
    }
}

/// Whether the two payloads hold the same bytes.
pub(crate) fn same_payload(a: &[u8; 4], b: &[u8; 4]) -> (same: bool)
    ensures
        same == (a@ == b@),
{
    let same = a[0] == b[0] && a[1] == b[1] && a[2] == b[2] && a[3] == b[3];
    proof {
        if same {
            assert(a@ =~= b@);
        }
    }
    same
}

/// Takes `row` into `out` by the merging rules.
pub(crate) fn merge_into(out: &mut Vec<HdmaRow>, row: HdmaRow)
    requires
        step_mergeable(rows_view(old(out)@), row@),
    ensures
        rows_view(final(out)@) == merge_step(rows_view(old(out)@), row@),
{
    let ghost before = rows_view(out@);
    match out.pop() {
        None => {
            out.push(row);
            assert(rows_view(out@) =~= merge_step(before, row@));
        },
        Some(last) => {
            assert(last@ == before.last());
            assert(rows_view(out@) =~= before.drop_last());
            match (last, row) {
                (
                    HdmaRow::Repeat { count: a, data: p },
                    HdmaRow::Repeat { count: b, data: q },
                ) => {
                    if same_payload(&p, &q) {
                        out.push(HdmaRow::Repeat { count: a + b, data: q });
                    } else if a == 1 && b == 1 {
                        let mut values: Vec<[u8; 4]> = Vec::new();
                        values.push(p);
                        values.push(q);
                        assert(payloads_view(values@) =~= seq![p@, q@]);
                        out.push(HdmaRow::Continuous { data: values });
                    } else {
                        out.push(HdmaRow::Repeat { count: a, data: p });
                        out.push(HdmaRow::Repeat { count: b, data: q });
                    }
                },
                (HdmaRow::Repeat { count: a, data: p }, HdmaRow::Continuous { data }) => {
                    if a == 1 {
                        let mut values = data;
                        values.insert(0, p);
                        assert(payloads_view(values@) =~= seq![p@] + payloads_view(data@));
                        out.push(HdmaRow::Continuous { data: values });
                    } else {
                        out.push(HdmaRow::Repeat { count: a, data: p });
                        out.push(HdmaRow::Continuous { data });
                    }
                },
                (HdmaRow::Continuous { data }, HdmaRow::Repeat { count: b, data: q }) => {
                    let mut values = data;
                    if b != 1 {
                        out.push(HdmaRow::Continuous { data: values });
                        out.push(HdmaRow::Repeat { count: b, data: q });
                    } else {
                        let n = values.len();
                        let tail = values[n - 1];
                        assert(tail@ == payloads_view(data@).last());
                        if same_payload(&tail, &q) {
                            values.pop();
                            assert(payloads_view(values@) =~= payloads_view(data@).drop_last());
                            out.push(HdmaRow::Continuous { data: values });
                            out.push(HdmaRow::Repeat { count: 2, data: q });
                        } else {
                            values.push(q);
                            assert(payloads_view(values@) =~= payloads_view(data@).push(q@));
                            out.push(HdmaRow::Continuous { data: values });
                        }
                    }
                },
                (HdmaRow::Continuous { data: v }, HdmaRow::Continuous { data: w }) => {
                    let mut values = v;
                    let mut more = w;
                    values.append(&mut more);
                    assert(payloads_view(values@) =~= payloads_view(v@) + payloads_view(w@));
                    out.push(HdmaRow::Continuous { data: values });
                },
                (last, row) => {
                    out.push(last);
                    out.push(row);
                },
            }
            assert(rows_view(out@) =~= merge_step(before, row@));
        },
    }
}

/// Cuts the last row of `out` to one scanline, if it is a repeat row.
pub(crate) fn truncate_last(out: &mut Vec<HdmaRow>)
    ensures
        rows_view(final(out)@) == truncated(rows_view(old(out)@)),
{
    match out.pop() {
        Some(HdmaRow::Repeat { count: _, data }) => {
            out.push(HdmaRow::Repeat { count: 1, data });
            assert(rows_view(out@) =~= truncated(rows_view(old(out)@)));
        },
        Some(other) => {
            out.push(other);
            assert(out@ =~= old(out)@);
        },
        None => {},
    }
}

/// Takes `row` into `out`, merging it with the last row if both are repeat
/// rows with the same payload.
pub(crate) fn merge_into_repeat(out: &mut Vec<HdmaRow>, row: HdmaRow)
    requires
        step_mergeable_repeat(rows_view(old(out)@), row@),
    ensures
        rows_view(final(out)@) == merge_step_repeat(rows_view(old(out)@), row@),
{
    let ghost before = rows_view(out@);
    match out.pop() {
        None => {
            out.push(row);
            assert(rows_view(out@) =~= merge_step_repeat(before, row@));
        },
        Some(last) => {
            assert(last@ == before.last());
            assert(rows_view(out@) =~= before.drop_last());
            match (last, row) {
                (
                    HdmaRow::Repeat { count: a, data: p },
                    HdmaRow::Repeat { count: b, data: q },
                ) => {
                    if same_payload(&p, &q) {
                        out.push(HdmaRow::Repeat { count: a + b, data: q });
                    } else {
                        out.push(HdmaRow::Repeat { count: a, data: p });
                        out.push(HdmaRow::Repeat { count: b, data: q });
                    }
                },
                (last, row) => {
                    out.push(last);
                    out.push(row);
                },
            }
            assert(rows_view(out@) =~= merge_step_repeat(before, row@));
        },
    }
}

} // verus!
