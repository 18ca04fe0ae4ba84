//! Reading the written lines back.
//!
//! A line whose count is above 128 holds as many payloads as the count is
//! above 128, one for each scanline. Any other line holds one payload that
//! stays for as many scanlines as the count says.

use crate::hdma::RowView;
use crate::listing::{continuous_lines, repeat_lines, row_lines, table_lines, Line};
use crate::scanlines::{row_scanlines, scanlines};
use vstd::prelude::*;

verus! {

/// The payloads of the scanlines that a written line stands for.
pub open spec fn line_scanlines(line: Line) -> Seq<Seq<u8>> {
    if line.count > 0x80 {
        line.groups.take(line.count - 0x80)
    } else if line.groups.len() > 0 {
        Seq::new(line.count, |i: int| line.groups[0])
    } else {
        Seq::empty()
    }
}

/// The payloads of the scanlines that the written lines stand for.
pub open spec fn decoded(lines: Seq<Line>) -> Seq<Seq<u8>>
    decreases lines.len(),
{
    if lines.len() == 0 {
        Seq::empty()
    } else {
        decoded(lines.drop_last()) + line_scanlines(lines.last())
    }
}

/// Whether no repeat line is written with a count above 128, which would
/// read as the count of a continuous line.
pub open spec fn counts_fit(rows: Seq<RowView>, limit: nat) -> bool {
    forall|i: int|
        0 <= i < rows.len() ==> (#[trigger] rows[i] matches RowView::Repeat { count, data: _ }
            ==> count <= 0x80 || limit <= 0x80)
}

/// Two runs of lines stand for the scanlines of the first, then those of the second.
pub proof fn lemma_decoded_concat(first: Seq<Line>, second: Seq<Line>)
    ensures
        decoded(first + second) == decoded(first) + decoded(second),
    decreases second.len(),
{
    if second.len() == 0 {
        assert(first + second =~= first);
        assert(decoded(first) + Seq::<Seq<u8>>::empty() =~= decoded(first));
    } else {
        lemma_decoded_concat(first, second.drop_last());
        assert((first + second).drop_last() =~= first + second.drop_last());
        assert((first + second).last() == second.last());
        assert(decoded(first + second) =~= decoded(first) + decoded(second));
    }
}

/// One line stands for its own scanlines.
pub proof fn lemma_decoded_single(line: Line)
    ensures
        decoded(seq![line]) == line_scanlines(line),
{
    assert(seq![line].drop_last() =~= Seq::<Line>::empty());
    assert(decoded(Seq::<Line>::empty()) =~= Seq::<Seq<u8>>::empty());
    assert(decoded(seq![line]) =~= line_scanlines(line));
}

/// The lines of a repeat row stand for its scanlines.
pub proof fn lemma_repeat_lines_decoded(count: nat, data: Seq<u8>, limit: nat)
    requires
        limit > 0,
        count <= 0x80 || limit <= 0x80,
    ensures
        decoded(repeat_lines(count, data, limit)) == Seq::new(count, |i: int| data),
    decreases count,
{
    let all = Seq::new(count, |i: int| data);
    if count < limit {
        let line = Line { count, groups: seq![data] };
        lemma_decoded_single(line);
        assert(line_scanlines(line) =~= all);
    } else {
        let line = Line { count: limit, groups: seq![data] };
        let left = (count - limit) as nat;
        lemma_repeat_lines_decoded(left, data, limit);
        lemma_decoded_single(line);
        lemma_decoded_concat(seq![line], repeat_lines(left, data, limit));
        assert(line_scanlines(line) + Seq::new(left, |i: int| data) =~= all);
    }
}

/// The lines of a continuous row stand for its scanlines.
pub proof fn lemma_continuous_lines_decoded(values: Seq<Seq<u8>>)
    ensures
        decoded(continuous_lines(values)) == values,
    decreases values.len(),
{
    if values.len() <= 0x7F {
        let line = Line { count: 0x80 + values.len(), groups: values };
        lemma_decoded_single(line);
        assert(line_scanlines(line) =~= values);
    } else {
        let line = Line { count: 0xFF, groups: values.take(0x7F) };
        let left = values.skip(0x7F);
        lemma_continuous_lines_decoded(left);
        lemma_decoded_single(line);
        lemma_decoded_concat(seq![line], continuous_lines(left));
        assert(line_scanlines(line) =~= values.take(0x7F));
        assert(values.take(0x7F) + left =~= values);
    }
}

/// The written lines of a table stand for the scanlines of its rows: what is
/// read back from them, line by line, is each payload of each scanline, in order.
pub proof fn lemma_written_lines_decoded(rows: Seq<RowView>, limit: nat)
    requires
        limit > 0,
        counts_fit(rows, limit),
    ensures
        decoded(table_lines(rows, limit)) == scanlines(rows),
    decreases rows.len(),
{
    if rows.len() > 0 {
        let front = rows.drop_last();
        let row = rows.last();
        assert(row == rows[rows.len() - 1]);
        assert forall|i: int| 0 <= i < front.len() implies (#[trigger] front[i] matches RowView::Repeat {
            count,
            data: _,
        } ==> count <= 0x80 || limit <= 0x80) by {
            assert(front[i] == rows[i]);
        }
        lemma_written_lines_decoded(front, limit);
        lemma_decoded_concat(table_lines(front, limit), row_lines(row, limit));
        match row {
            RowView::Repeat { count, data } => {
                lemma_repeat_lines_decoded(count, data, limit);
            },
            RowView::Continuous { values } => {
                lemma_continuous_lines_decoded(values);
            },
            RowView::Finish => {
                let end = Line { count: 0, groups: Seq::empty() };
                lemma_decoded_single(end);
            },
        }
        assert(decoded(row_lines(row, limit)) =~= row_scanlines(row));
    }
}

} // verus!
