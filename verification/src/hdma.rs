//! Rows and tables, and their mathematical models.

use crate::coalesce::{
    coalesced, coalesced_repeat, lemma_mergeable_prefix, lemma_mergeable_repeat_prefix,
    merge_into, merge_into_repeat, mergeable, mergeable_repeat, merged, merged_repeat,
    truncate_last,
};
use crate::listing::{
    lemma_lines_text_concat, row_lines, rows_text, table_lines, table_text, write_row,
};
use crate::scanlines::{whole_row, whole_rows};
use vstd::prelude::*;
use vstd::string::StringExecFns;

verus! {

/// How the bytes of a payload are written: one by one, or in pairs as 16-bit words.
#[derive(Copy, Clone, Debug, PartialEq, Eq, Structural)]
pub enum HdmaWriteMode {
    Bytes,
    Words,
}

/// One row of a table.
///
/// `Repeat` holds one payload for `count` scanlines, `Continuous` one payload
/// for each scanline, `Finish` ends the table. A payload always has four
/// bytes; the table says how many of them are written.
#[derive(Debug, PartialEq, Eq)]
#[allow(inconsistent_fields)]
pub enum HdmaRow {
    Repeat { count: usize, data: [u8; 4] },
    Continuous { data: Vec<[u8; 4]> },
    Finish,
}

/// The model of a row: counts are natural numbers, payloads are sequences of bytes.
pub enum RowView {
    Repeat { count: nat, data: Seq<u8> },
    Continuous { values: Seq<Seq<u8>> },
    Finish,
}

/// The payloads of a continuous row, each as a sequence of bytes.
pub open spec fn payloads_view(data: Seq<[u8; 4]>) -> Seq<Seq<u8>> {
    data.map_values(|p: [u8; 4]| p@)
}

/// The models of a sequence of rows.
pub open spec fn rows_view(rows: Seq<HdmaRow>) -> Seq<RowView> {
    rows.map_values(|r: HdmaRow| r@)
}

/// The first four bytes of `bytes`, with zeroes where `bytes` is shorter.
pub open spec fn padded(bytes: Seq<u8>) -> Seq<u8> {
    Seq::new(
        4,
        |i: int|
            if i < bytes.len() {
                bytes[i]
            } else {
                0u8
            },
    )
}

/// The number of slots that `len` bytes fill when each slot takes `step` of them.
pub open spec fn slot_count(len: nat, step: nat) -> nat {
    ((len + step - 1) / (step as int)) as nat
}

/// Slot `k` of `bytes` cut into slots of `step` bytes: four bytes, with zeroes
/// behind the first `step` and where `bytes` has ended.
pub open spec fn slot(bytes: Seq<u8>, step: nat, k: int) -> Seq<u8> {
    Seq::new(
        4,
        |j: int|
            if j < step && k * step + j < bytes.len() {
                bytes[k * step + j]
            } else {
                0u8
            },
    )
}

/// `bytes` cut into slots of `step` bytes each.
pub open spec fn grouped(bytes: Seq<u8>, step: nat) -> Seq<Seq<u8>> {
    Seq::new(slot_count(bytes.len(), step), |k: int| slot(bytes, step, k))
}

/// `slot_count` in terms of quotient and remainder, and where each slot begins.
pub proof fn lemma_slot_count(len: nat, step: nat)
    requires
        1 <= step <= 4,
    ensures
        len % step == 0 ==> slot_count(len, step) == len / step,
        len % step != 0 ==> slot_count(len, step) == len / step + 1 && len / step < len,
        forall|k: int| 0 <= k < slot_count(len, step) ==> 0 <= #[trigger] (k * step) < len,
{
    if step == 1 {
        assert forall|k: int| 0 <= k < slot_count(len, step) implies 0 <= #[trigger] (k * step)
            < len by {
            assert(k * 1 == k);
        }
    } else if step == 2 {
        assert forall|k: int| 0 <= k < slot_count(len, step) implies 0 <= #[trigger] (k * step)
            < len by {
            assert(k * 2 == k + k);
        }
    } else if step == 3 {
        assert forall|k: int| 0 <= k < slot_count(len, step) implies 0 <= #[trigger] (k * step)
            < len by {
            assert(k * 3 == k + k + k);
        }
    } else {
        assert forall|k: int| 0 <= k < slot_count(len, step) implies 0 <= #[trigger] (k * step)
            < len by {
            assert(k * 4 == k + k + k + k);
        }
    }
}

impl View for HdmaRow {
    type V = RowView;

    open spec fn view(&self) -> RowView {
        match *self {
            HdmaRow::Repeat { count, data } => RowView::Repeat { count: count as nat, data: data@ },
            HdmaRow::Continuous { data } => RowView::Continuous { values: payloads_view(data@) },
            HdmaRow::Finish => RowView::Finish,
        }
    }
}

impl HdmaRow {
    /// A row that holds the first four bytes of `data`, padded with zeroes, for `count` scanlines.
    pub fn new_repeat(count: usize, data: &[u8]) -> (row: Self)
        ensures
            row@ == (RowView::Repeat { count: count as nat, data: padded(data@) }),
    {
        let mut data_array: [u8; 4] = [0;4];
        let mut i: usize = 0;
        while i < 4 && i < data.len()
            invariant
                i <= 4,
                i <= data.len(),
                forall|k: int| 0 <= k < i ==> data_array@[k] == data@[k],
                forall|k: int| i <= k < 4 ==> data_array@[k] == 0u8,
            decreases 4 - i,
        {
            data_array[i] = data[i];
            i += 1;
        }
        assert(data_array@ =~= padded(data@));
        HdmaRow::Repeat { count, data: data_array }
    }

    /// A continuous row made of `data`, `data_size` bytes to a scanline. The
    /// last scanline is filled up with zeroes where `data` ends early.
    pub fn new_continuous(data: &[u8], data_size: u32) -> (row: Self)
        requires
            1 <= data_size <= 4,
        ensures
            row@ == (RowView::Continuous { values: grouped(data@, data_size as nat) }),
    {
        let step: usize = data_size as usize;
        let len: usize = data.len();
        let whole: usize = len / step;
        proof {
            lemma_slot_count(len as nat, step as nat);
        }
        let row_count: usize = if len % step == 0 {
            whole
        } else {
            whole + 1
        };
        let mut row_data: Vec<[u8; 4]> = Vec::new();
        let mut k: usize = 0;
        while k < row_count
            invariant
                1 <= step <= 4,
                len == data@.len(),
                row_count == slot_count(len as nat, step as nat),
                k <= row_count,
                row_data@.len() == k,
                forall|i: int| 0 <= i < k ==> (#[trigger] row_data@[i])@ == slot(data@, step as nat, i),
            decreases row_count - k,
        {
            proof {
                lemma_slot_count(len as nat, step as nat);
            }
            let base: usize = k * step;
            let mut current_data: [u8; 4] = [0;4];
            let mut j: usize = 0;
            while j < step
                invariant
                    1 <= step <= 4,
                    len == data@.len(),
                    base == k * step,
                    base < len,
                    j <= step,
                    forall|i: int|
                        0 <= i < j ==> current_data@[i] == slot(data@, step as nat, k as int)[i],
                    forall|i: int| j <= i < 4 ==> current_data@[i] == 0u8,
                decreases step - j,
            {
                if j < len - base {
                    current_data[j] = data[base + j];
                }
                j += 1;
            }
            assert(current_data@ =~= slot(data@, step as nat, k as int));
            row_data.push(current_data);
            k += 1;
        }
        assert(payloads_view(row_data@) =~= grouped(data@, step as nat));
        HdmaRow::Continuous { data: row_data }
    }

    /// A row that holds `data` for one scanline.
    pub fn new_scanline(data: &[u8]) -> (row: Self)
        ensures
            row@ == (RowView::Repeat { count: 1, data: padded(data@) }),
    {
        Self::new_repeat(1, data)
    }
}

/// The model of a table.
pub struct TableView {
    pub rows: Seq<RowView>,
    pub row_size: nat,
    pub max_row_count: nat,
    pub write_mode: HdmaWriteMode,
    pub table_name: Seq<char>,
}

/// A table: its rows, how many bytes of each payload are written and how, the
/// largest count that one written line can hold, and the label it is written under.
pub struct HdmaTable {
    rows: Vec<HdmaRow>,
    row_size: usize,
    max_row_count: usize,
    write_mode: HdmaWriteMode,
    table_name: &'static str,
}

impl View for HdmaTable {
    type V = TableView;

    closed spec fn view(&self) -> TableView {
        TableView {
            rows: rows_view(self.rows@),
            row_size: self.row_size as nat,
            max_row_count: self.max_row_count as nat,
            write_mode: self.write_mode,
            table_name: self.table_name@,
        }
    }
}

impl HdmaTable {
    /// The largest count of a written repeat line in a table that the hardware times.
    pub const MAX_REP_ROWS: usize = 0x80;

    /// The largest number of scanlines on a written continuous line.
    pub const MAX_CONT_ROWS: usize = 0x7F;

    /// What is added to the number of scanlines of a written continuous line.
    pub const CONT_BIT: usize = 0x80;

    /// Whether the table is well formed: one to four bytes of each payload are written.
    pub open spec fn wf(&self) -> bool {
        1 <= self@.row_size <= 4
    }

    /// A table with the given rows and a line limit of the caller's choice.
    pub fn new(
        rows: Vec<HdmaRow>,
        row_size: usize,
        write_mode: HdmaWriteMode,
        table_name: &'static str,
        max_row_count: usize,
    ) -> (table: Self)
        requires
            1 <= row_size <= 4,
        ensures
            table.wf(),
            table@ == (TableView {
                rows: rows_view(rows@),
                row_size: row_size as nat,
                max_row_count: max_row_count as nat,
                write_mode,
                table_name: table_name@,
            }),
    {
        Self { rows, row_size, table_name, write_mode, max_row_count }
    }

    /// A table with the given rows and the line limit of the hardware.
    pub fn new_real_table(
        rows: Vec<HdmaRow>,
        row_size: usize,
        write_mode: HdmaWriteMode,
        table_name: &'static str,
    ) -> (table: Self)
        requires
            1 <= row_size <= 4,
        ensures
            table.wf(),
            table@ == (TableView {
                rows: rows_view(rows@),
                row_size: row_size as nat,
                max_row_count: 0x80,
                write_mode,
                table_name: table_name@,
            }),
    {
        Self { rows, row_size, table_name, write_mode, max_row_count: Self::MAX_REP_ROWS }
    }

    /// The rows of the table.
    pub fn rows(&self) -> (rows: &Vec<HdmaRow>)
        ensures
            rows_view(rows@) == self@.rows,
    {
        &self.rows
    }

    /// How many bytes of each payload are written.
    pub fn row_size(&self) -> (row_size: usize)
        ensures
            row_size == self@.row_size,
    {
        self.row_size
    }

    /// The largest count that one written repeat line holds.
    pub fn max_row_count(&self) -> (max_row_count: usize)
        ensures
            max_row_count == self@.max_row_count,
    {
        self.max_row_count
    }

    /// How payloads are written.
    pub fn write_mode(&self) -> (write_mode: HdmaWriteMode)
        ensures
            write_mode == self@.write_mode,
    {
        self.write_mode
    }

    /// The label that the table is written under.
    pub fn table_name(&self) -> (table_name: &'static str)
        ensures
            table_name@ == self@.table_name,
    {
        self.table_name
    }

    /// A table holds no more rows than a machine word counts.
    pub proof fn lemma_rows_fit(&self)
        ensures
            self@.rows.len() <= usize::MAX,
    {
        assert(self.rows@.len() == self.rows.len());
    }

    /// Every payload of a table has four bytes.
    pub proof fn lemma_rows_whole(&self)
        ensures
            whole_rows(self@.rows),
    {
        let rows = rows_view(self.rows@);
        assert forall|i: int| 0 <= i < rows.len() implies whole_row(
            #[trigger] rows[i],
        ) by {
            match self.rows@[i] {
                HdmaRow::Continuous { data } => {
                    let values = payloads_view(data@);
                    assert forall|j: int| 0 <= j < values.len() implies (#[trigger] values[j]).len()
                        == 4 by {}
                },
                _ => {},
            }
        }
    }

    /// Puts `row` behind the rows of the table.
    pub fn push(&mut self, row: HdmaRow)
        ensures
            final(self)@ == (TableView { rows: old(self)@.rows.push(row@), ..old(self)@ }),
    {
        self.rows.push(row);
        assert(rows_view(self.rows@) =~= rows_view(old(self).rows@).push(row@));
    }

    /// Merges the rows into as few repeat and continuous rows as the merging
    /// rules allow, cuts the last row to one scanline and adds the end marker.
    pub fn coagulate(&mut self)
        requires
            mergeable(old(self)@.rows),
        ensures
            final(self)@ == (TableView { rows: coalesced(old(self)@.rows), ..old(self)@ }),
    {
        let mut old_rows: Vec<HdmaRow> = Vec::new();
        core::mem::swap(&mut self.rows, &mut old_rows);
        let ghost input = rows_view(old_rows@);
        let mut out: Vec<HdmaRow> = Vec::new();
        for row in it: old_rows
            invariant
                it.seq() == old(self).rows@,
                input == rows_view(old(self).rows@),
                mergeable(input),
                rows_view(out@) == merged(input.take(it.index() as int)),
        {
            let ghost i = it.index() as int;
            proof {
                assert(input.take(i + 1).drop_last() =~= input.take(i));
                assert(input.take(i + 1).last() == row@);
                lemma_mergeable_prefix(input, i + 1);
            }
            merge_into(&mut out, row);
        }
        proof {
            assert(input.take(input.len() as int) =~= input);
        }
        truncate_last(&mut out);
        out.push(HdmaRow::Finish);
        assert(rows_view(out@) =~= coalesced(input));
        self.rows = out;
    }

    /// Merges neighbouring repeat rows with equal payloads and adds the end
    /// marker. No continuous row is made and no count is cut.
    pub fn coagulate_repeat(&mut self)
        requires
            mergeable_repeat(old(self)@.rows),
        ensures
            final(self)@ == (TableView { rows: coalesced_repeat(old(self)@.rows), ..old(self)@ }),
    {
        let mut old_rows: Vec<HdmaRow> = Vec::new();
        core::mem::swap(&mut self.rows, &mut old_rows);
        let ghost input = rows_view(old_rows@);
        let mut out: Vec<HdmaRow> = Vec::new();
        for row in it: old_rows
            invariant
                it.seq() == old(self).rows@,
                input == rows_view(old(self).rows@),
                mergeable_repeat(input),
                rows_view(out@) == merged_repeat(input.take(it.index() as int)),
        {
            let ghost i = it.index() as int;
            proof {
                assert(input.take(i + 1).drop_last() =~= input.take(i));
                assert(input.take(i + 1).last() == row@);
                lemma_mergeable_repeat_prefix(input, i + 1);
            }
            merge_into_repeat(&mut out, row);
        }
        proof {
            assert(input.take(input.len() as int) =~= input);
        }
        out.push(HdmaRow::Finish);
        assert(rows_view(out@) =~= coalesced_repeat(input));
        self.rows = out;
    }

    /// The listing of the table: the label line, then the lines of the rows.
    pub fn write_table(self) -> (text: String)
        requires
            self.wf(),
            self@.max_row_count > 0,
        ensures
            text@ == table_text(self@),
    {
        let mut output = String::new();
        output.append(self.table_name);
        output.append(":\n");
        let body = match self.write_mode {
            HdmaWriteMode::Bytes => self.write_bytes(),
            HdmaWriteMode::Words => self.write_words(),
        };
        output.append(body.as_str());
        assert(output@ =~= table_text(self@));
        output
    }

    /// The lines of the rows, each payload written byte by byte.
    fn write_bytes(self) -> (text: String)
        requires
            self.wf(),
            self@.max_row_count > 0,
        ensures
            text@ == rows_text(
                HdmaWriteMode::Bytes,
                self@.row_size,
                self@.max_row_count,
                self@.rows,
            ),
    {
        let ghost rows = rows_view(self.rows@);
        let mut output = String::new();
        let mut i: usize = 0;
        assert(rows.take(0) =~= Seq::<RowView>::empty());
        while i < self.rows.len()
            invariant
                self.wf(),
                self@.max_row_count > 0,
                rows == rows_view(self.rows@),
                i <= self.rows@.len(),
                output@ == rows_text(
                    HdmaWriteMode::Bytes,
                    self@.row_size,
                    self@.max_row_count,
                    rows.take(i as int),
                ),
            decreases self.rows@.len() - i,
        {
            proof {
                assert(rows.take(i + 1).drop_last() =~= rows.take(i as int));
                assert(rows.take(i + 1).last() == self.rows@[i as int]@);
                lemma_lines_text_concat(
                    HdmaWriteMode::Bytes,
                    self@.row_size,
                    table_lines(rows.take(i as int), self@.max_row_count),
                    row_lines(self.rows@[i as int]@, self@.max_row_count),
                );
            }
            write_row(
                &mut output,
                &self.rows[i],
                HdmaWriteMode::Bytes,
                self.row_size,
                self.max_row_count,
            );
            i += 1;
        }
        assert(rows.take(i as int) =~= rows);
        output
    }

    /// The lines of the rows, each payload written as 16-bit words.
    fn write_words(self) -> (text: String)
        requires
            self.wf(),
            self@.max_row_count > 0,
        ensures
            text@ == rows_text(
                HdmaWriteMode::Words,
                self@.row_size,
                self@.max_row_count,
                self@.rows,
            ),
    {
        let ghost rows = rows_view(self.rows@);
        let mut output = String::new();
        let mut i: usize = 0;
        assert(rows.take(0) =~= Seq::<RowView>::empty());
        while i < self.rows.len()
            invariant
                self.wf(),
                self@.max_row_count > 0,
                rows == rows_view(self.rows@),
                i <= self.rows@.len(),
                output@ == rows_text(
                    HdmaWriteMode::Words,
                    self@.row_size,
                    self@.max_row_count,
                    rows.take(i as int),
                ),
            decreases self.rows@.len() - i,
        {
            proof {
                assert(rows.take(i + 1).drop_last() =~= rows.take(i as int));
                assert(rows.take(i + 1).last() == self.rows@[i as int]@);
                lemma_lines_text_concat(
                    HdmaWriteMode::Words,
                    self@.row_size,
                    table_lines(rows.take(i as int), self@.max_row_count),
                    row_lines(self.rows@[i as int]@, self@.max_row_count),
                );
            }
            write_row(
                &mut output,
                &self.rows[i],
                HdmaWriteMode::Words,
                self.row_size,
                self.max_row_count,
            );
            i += 1;
        }
        assert(rows.take(i as int) =~= rows);
        output
    }
}

} // verus!
