//! The listing that a table is written as.
//!
//! A table becomes a label line and one line for each written row. A row of
//! the table becomes one written line or several: a repeat row is split at
//! the line limit of the table, a continuous row at 127 scanlines.

use crate::hdma::{payloads_view, HdmaRow, HdmaTable, HdmaWriteMode, RowView, TableView};
use vstd::prelude::*;
use vstd::string::StringExecFns;

verus! {

/// One written line: the count that it opens with and the payloads behind it.
pub struct Line {
    pub count: nat,
    pub groups: Seq<Seq<u8>>,
}

/// The upper-case hexadecimal digit of `n`, for `n` below 16.
pub open spec fn hex_digit(n: nat) -> char {
    if n == 0 {
        '0'
    } else if n == 1 {
        '1'
    } else if n == 2 {
        '2'
    } else if n == 3 {
        '3'
    } else if n == 4 {
        '4'
    } else if n == 5 {
        '5'
    } else if n == 6 {
        '6'
    } else if n == 7 {
        '7'
    } else if n == 8 {
        '8'
    } else if n == 9 {
        '9'
    } else if n == 10 {
        'A'
    } else if n == 11 {
        'B'
    } else if n == 12 {
        'C'
    } else if n == 13 {
        'D'
    } else if n == 14 {
        'E'
    } else {
        'F'
    }
}

/// `n` in upper-case hexadecimal digits, without leading zeroes.
pub open spec fn hex_digits(n: nat) -> Seq<char>
    decreases n,
{
    if n < 16 {
        seq![hex_digit(n)]
    } else {
        hex_digits(n / 16).push(hex_digit(n % 16))
    }
}

/// `n` in upper-case hexadecimal digits, at least two of them.
pub open spec fn hex_padded(n: nat) -> Seq<char> {
    if n < 16 {
        seq!['0', hex_digit(n)]
    } else {
        hex_digits(n)
    }
}

/// The first `width` bytes of a payload, each written behind a comma.
pub open spec fn byte_group(data: Seq<u8>, width: nat) -> Seq<char>
    decreases width,
{
    if width == 0 {
        Seq::empty()
    } else {
        byte_group(data, (width - 1) as nat) + ",$"@ + hex_padded(data[width - 1] as nat)
    }
}

/// A 16-bit word, high byte first.
pub open spec fn word(high: u8, low: u8) -> Seq<char> {
    "$"@ + hex_padded(high as nat) + hex_padded(low as nat)
}

/// A payload written as words: one word of the first two bytes, and a second
/// of the other two where more than two bytes are written.
pub open spec fn word_group(data: Seq<u8>, width: nat) -> Seq<char> {
    if width <= 2 {
        " : dw "@ + word(data[1], data[0])
    } else {
        " : dw "@ + word(data[1], data[0]) + ","@ + word(data[3], data[2])
    }
}

/// A payload as the table writes it.
pub open spec fn group_text(mode: HdmaWriteMode, width: nat, data: Seq<u8>) -> Seq<char> {
    match mode {
        HdmaWriteMode::Bytes => byte_group(data, width),
        HdmaWriteMode::Words => word_group(data, width),
    }
}

/// The payloads of a line, one behind the other.
pub open spec fn groups_text(mode: HdmaWriteMode, width: nat, groups: Seq<Seq<u8>>) -> Seq<char>
    decreases groups.len(),
{
    if groups.len() == 0 {
        Seq::empty()
    } else {
        groups_text(mode, width, groups.drop_last()) + group_text(mode, width, groups.last())
    }
}

/// A written line: the count, the payloads, the line break.
pub open spec fn line_text(mode: HdmaWriteMode, width: nat, line: Line) -> Seq<char> {
    "db $"@ + hex_padded(line.count) + groups_text(mode, width, line.groups) + "\n"@
}

/// The written lines, one behind the other.
pub open spec fn lines_text(mode: HdmaWriteMode, width: nat, lines: Seq<Line>) -> Seq<char>
    decreases lines.len(),
{
    if lines.len() == 0 {
        Seq::empty()
    } else {
        lines_text(mode, width, lines.drop_last()) + line_text(mode, width, lines.last())
    }
}

/// The lines of a repeat row: full lines of `limit` scanlines while `count`
/// has not fallen below `limit`, then one line with what is left, be it zero.
pub open spec fn repeat_lines(count: nat, data: Seq<u8>, limit: nat) -> Seq<Line>
    decreases count,
{
    if limit == 0 || count < limit {
        seq![Line { count, groups: seq![data] }]
    } else {
        seq![Line { count: limit, groups: seq![data] }] + repeat_lines(
            (count - limit) as nat,
            data,
            limit,
        )
    }
}

/// The lines of a continuous row: full lines of 127 scanlines while more than
/// 127 are left, then one line with the rest. The count of a line is 128 plus
/// the number of its scanlines.
pub open spec fn continuous_lines(values: Seq<Seq<u8>>) -> Seq<Line>
    decreases values.len(),
{
    if values.len() <= 0x7F {
        seq![Line { count: 0x80 + values.len(), groups: values }]
    } else {
        seq![Line { count: 0xFF, groups: values.take(0x7F) }] + continuous_lines(
            values.skip(0x7F),
        )
    }
}

/// The lines of a row in a table whose repeat lines hold at most `limit` scanlines.
pub open spec fn row_lines(row: RowView, limit: nat) -> Seq<Line> {
    match row {
        RowView::Repeat { count, data } => repeat_lines(count, data, limit),
        RowView::Continuous { values } => continuous_lines(values),
        RowView::Finish => seq![Line { count: 0, groups: Seq::empty() }],
    }
}

/// The lines of the rows, in order.
pub open spec fn table_lines(rows: Seq<RowView>, limit: nat) -> Seq<Line>
    decreases rows.len(),
{
    if rows.len() == 0 {
        Seq::empty()
    } else {
        table_lines(rows.drop_last(), limit) + row_lines(rows.last(), limit)
    }
}

/// The rows of a table as text.
pub open spec fn rows_text(mode: HdmaWriteMode, width: nat, limit: nat, rows: Seq<RowView>) -> Seq<
    char,
> {
    lines_text(mode, width, table_lines(rows, limit))
}

/// The listing of a table: the label line, then the lines of its rows.
pub open spec fn table_text(table: TableView) -> Seq<char> {
    table.table_name + ":\n"@ + rows_text(
        table.write_mode,
        table.row_size,
        table.max_row_count,
        table.rows,
    )
}

/// The text of two runs of lines is the text of the first and then of the second.
pub proof fn lemma_lines_text_concat(
    mode: HdmaWriteMode,
    width: nat,
    first: Seq<Line>,
    second: Seq<Line>,
)
    ensures
        lines_text(mode, width, first + second) == lines_text(mode, width, first) + lines_text(
            mode,
            width,
            second,
        ),
    decreases second.len(),
{
    if second.len() == 0 {
        assert(first + second =~= first);
        assert(lines_text(mode, width, first) + Seq::<char>::empty() =~= lines_text(
            mode,
            width,
            first,
        ));
    } else {
        lemma_lines_text_concat(mode, width, first, second.drop_last());
        assert((first + second).drop_last() =~= first + second.drop_last());
        assert((first + second).last() == second.last());
        assert(lines_text(mode, width, first + second) =~= lines_text(mode, width, first)
            + lines_text(mode, width, second));
    }
}

/// Writes the hexadecimal digit of `n`.
fn push_hex_digit(out: &mut String, n: usize)
    requires
        n < 16,
    ensures
        final(out)@ == old(out)@.push(hex_digit(n as nat)),
{
    proof {
        reveal_strlit("0");
        reveal_strlit("1");
        reveal_strlit("2");
        reveal_strlit("3");
        reveal_strlit("4");
        reveal_strlit("5");
        reveal_strlit("6");
        reveal_strlit("7");
        reveal_strlit("8");
        reveal_strlit("9");
        reveal_strlit("A");
        reveal_strlit("B");
        reveal_strlit("C");
        reveal_strlit("D");
        reveal_strlit("E");
        reveal_strlit("F");
    }
    let digit: &str = if n == 0 {
        "0"
    } else if n == 1 {
        "1"
    } else if n == 2 {
        "2"
    } else if n == 3 {
        "3"
    } else if n == 4 {
        "4"
    } else if n == 5 {
        "5"
    } else if n == 6 {
        "6"
    } else if n == 7 {
        "7"
    } else if n == 8 {
        "8"
    } else if n == 9 {
        "9"
    } else if n == 10 {
        "A"
    } else if n == 11 {
        "B"
    } else if n == 12 {
        "C"
    } else if n == 13 {
        "D"
    } else if n == 14 {
        "E"
    } else {
        "F"
    };
    assert(digit@ =~= seq![hex_digit(n as nat)]);
    out.append(digit);
    assert(out@ =~= old(out)@.push(hex_digit(n as nat)));
}

/// Writes `n` in hexadecimal digits, without leading zeroes.
fn push_hex_digits(out: &mut String, n: usize)
    ensures
        final(out)@ == old(out)@ + hex_digits(n as nat),
    decreases n,
{
    if n < 16 {
        push_hex_digit(out, n);
        assert(out@ =~= old(out)@ + hex_digits(n as nat));
    } else {
        push_hex_digits(out, n / 16);
        push_hex_digit(out, n % 16);
        assert(out@ =~= old(out)@ + hex_digits(n as nat));
    }
}

/// Writes `n` in hexadecimal digits, at least two of them.
fn push_hex(out: &mut String, n: usize)
    ensures
        final(out)@ == old(out)@ + hex_padded(n as nat),
{
    if n < 16 {
        proof {
            reveal_strlit("0");
        }
        out.append("0");
        push_hex_digit(out, n);
        assert(out@ =~= old(out)@ + hex_padded(n as nat));
    } else {
        push_hex_digits(out, n);
    }
}

/// Writes the first `width` bytes of `data`, each behind a comma.
fn push_byte_group(out: &mut String, data: &[u8; 4], width: usize)
    requires
        width <= 4,
    ensures
        final(out)@ == old(out)@ + byte_group(data@, width as nat),
{
    let mut i: usize = 0;
    assert(out@ =~= old(out)@ + byte_group(data@, 0));
    while i < width
        invariant
            i <= width <= 4,
            out@ == old(out)@ + byte_group(data@, i as nat),
        decreases width - i,
    {
        out.append(",$");
        push_hex(out, data[i] as usize);
        i += 1;
        assert(out@ =~= old(out)@ + byte_group(data@, i as nat));
    }
}

/// Writes a 16-bit word, high byte first.
fn push_word(out: &mut String, high: u8, low: u8)
    ensures
        final(out)@ == old(out)@ + word(high, low),
{
    out.append("$");
    push_hex(out, high as usize);
    push_hex(out, low as usize);
    assert(out@ =~= old(out)@ + word(high, low));
}

/// Writes `data` as one word, or as two where more than two bytes are written.
fn push_word_group(out: &mut String, data: &[u8; 4], width: usize)
    ensures
        final(out)@ == old(out)@ + word_group(data@, width as nat),
{
    out.append(" : dw ");
    push_word(out, data[1], data[0]);
    if width > 2 {
        out.append(",");
        push_word(out, data[3], data[2]);
    }
    assert(out@ =~= old(out)@ + word_group(data@, width as nat));
}

/// Writes `data` as the table writes a payload.
fn push_group(out: &mut String, data: &[u8; 4], mode: HdmaWriteMode, width: usize)
    requires
        width <= 4,
    ensures
        final(out)@ == old(out)@ + group_text(mode, width as nat, data@),
{
    match mode {
        HdmaWriteMode::Bytes => push_byte_group(out, data, width),
        HdmaWriteMode::Words => push_word_group(out, data, width),
    }
}

/// Writes the payloads `values[from..to]`, one behind the other.
fn push_groups(
    out: &mut String,
    values: &Vec<[u8; 4]>,
    from: usize,
    to: usize,
    mode: HdmaWriteMode,
    width: usize,
)
    requires
        width <= 4,
        from <= to <= values@.len(),
    ensures
        final(out)@ == old(out)@ + groups_text(
            mode,
            width as nat,
            payloads_view(values@).subrange(from as int, to as int),
        ),
{
    let ghost all = payloads_view(values@);
    let mut i: usize = from;
    assert(out@ =~= old(out)@ + groups_text(
        mode,
        width as nat,
        all.subrange(from as int, from as int),
    ));
    while i < to
        invariant
            width <= 4,
            from <= i <= to <= values@.len(),
            all == payloads_view(values@),
            out@ == old(out)@ + groups_text(
                mode,
                width as nat,
                all.subrange(from as int, i as int),
            ),
        decreases to - i,
    {
        push_group(out, &values[i], mode, width);
        proof {
            let next = all.subrange(from as int, i + 1);
            assert(next.drop_last() =~= all.subrange(from as int, i as int));
            assert(next.last() == values@[i as int]@);
        }
        i += 1;
        assert(out@ =~= old(out)@ + groups_text(
            mode,
            width as nat,
            all.subrange(from as int, i as int),
        ));
    }
}

/// The text of one line.
pub proof fn lemma_lines_text_single(mode: HdmaWriteMode, width: nat, line: Line)
    ensures
        lines_text(mode, width, seq![line]) == line_text(mode, width, line),
{
    assert(seq![line].drop_last() =~= Seq::<Line>::empty());
    assert(lines_text(mode, width, Seq::<Line>::empty()) =~= Seq::<char>::empty());
    assert(lines_text(mode, width, seq![line]) =~= line_text(mode, width, line));
}

/// Writes a line of one payload with the count `count`.
fn write_repeat_line(
    out: &mut String,
    count: usize,
    data: &[u8; 4],
    mode: HdmaWriteMode,
    width: usize,
)
    requires
        width <= 4,
    ensures
        final(out)@ == old(out)@ + line_text(
            mode,
            width as nat,
            Line { count: count as nat, groups: seq![data@] },
        ),
{
    out.append("db $");
    push_hex(out, count);
    push_group(out, data, mode, width);
    out.append("\n");
    proof {
        let groups = seq![data@];
        assert(groups.drop_last() =~= Seq::<Seq<u8>>::empty());
        assert(groups_text(mode, width as nat, Seq::<Seq<u8>>::empty()) =~= Seq::<char>::empty());
        assert(groups_text(mode, width as nat, groups) =~= group_text(
            mode,
            width as nat,
            data@,
        ));
        assert(out@ =~= old(out)@ + line_text(
            mode,
            width as nat,
            Line { count: count as nat, groups },
        ));
    }
}

/// Writes the lines of a repeat row.
fn write_repeat(
    out: &mut String,
    count: usize,
    data: &[u8; 4],
    mode: HdmaWriteMode,
    width: usize,
    limit: usize,
)
    requires
        width <= 4,
        limit > 0,
    ensures
        final(out)@ == old(out)@ + lines_text(
            mode,
            width as nat,
            repeat_lines(count as nat, data@, limit as nat),
        ),
{
    let ghost goal = old(out)@ + lines_text(
        mode,
        width as nat,
        repeat_lines(count as nat, data@, limit as nat),
    );
    let mut left: usize = count;
    while left >= limit
        invariant
            width <= 4,
            limit > 0,
            out@ + lines_text(mode, width as nat, repeat_lines(left as nat, data@, limit as nat))
                == goal,
        decreases left,
    {
        let ghost before = out@;
        let ghost full = Line { count: limit as nat, groups: seq![data@] };
        let ghost rest = repeat_lines((left - limit) as nat, data@, limit as nat);
        write_repeat_line(out, limit, data, mode, width);
        proof {
            lemma_lines_text_single(mode, width as nat, full);
            lemma_lines_text_concat(mode, width as nat, seq![full], rest);
            assert(out@ + lines_text(mode, width as nat, rest) =~= before + (line_text(
                mode,
                width as nat,
                full,
            ) + lines_text(mode, width as nat, rest)));
        }
        left = left - limit;
    }
    let ghost last = Line { count: left as nat, groups: seq![data@] };
    write_repeat_line(out, left, data, mode, width);
    proof {
        lemma_lines_text_single(mode, width as nat, last);
    }
}

/// Writes the lines of a continuous row.
fn write_continuous(out: &mut String, values: &Vec<[u8; 4]>, mode: HdmaWriteMode, width: usize)
    requires
        width <= 4,
    ensures
        final(out)@ == old(out)@ + lines_text(
            mode,
            width as nat,
            continuous_lines(payloads_view(values@)),
        ),
{
    let ghost all = payloads_view(values@);
    let ghost goal = old(out)@ + lines_text(mode, width as nat, continuous_lines(all));
    let len: usize = values.len();
    let mut start: usize = 0;
    assert(all.skip(0) =~= all);
    while len - start > HdmaTable::MAX_CONT_ROWS
        invariant
            width <= 4,
            len == values@.len(),
            start <= len,
            all == payloads_view(values@),
            out@ + lines_text(mode, width as nat, continuous_lines(all.skip(start as int)))
                == goal,
        decreases len - start,
    {
        let ghost before = out@;
        let ghost left = all.skip(start as int);
        let ghost full = Line { count: 0xFF, groups: left.take(0x7F) };
        let ghost rest = continuous_lines(left.skip(0x7F));
        out.append("db $");
        push_hex(out, HdmaTable::MAX_CONT_ROWS + HdmaTable::CONT_BIT);
        push_groups(out, values, start, start + HdmaTable::MAX_CONT_ROWS, mode, width);
        out.append("\n");
        proof {
            assert(all.subrange(start as int, start + 0x7F) =~= left.take(0x7F));
            assert(left.skip(0x7F) =~= all.skip(start + 0x7F));
            assert(out@ =~= before + line_text(mode, width as nat, full));
            lemma_lines_text_single(mode, width as nat, full);
            lemma_lines_text_concat(mode, width as nat, seq![full], rest);
            assert(out@ + lines_text(mode, width as nat, rest) =~= before + (line_text(
                mode,
                width as nat,
                full,
            ) + lines_text(mode, width as nat, rest)));
        }
        start = start + HdmaTable::MAX_CONT_ROWS;
    }
    let ghost before = out@;
    let ghost left = all.skip(start as int);
    let ghost last = Line { count: (0x80 + left.len()) as nat, groups: left };
    out.append("db $");
    push_hex(out, HdmaTable::CONT_BIT + (len - start));
    push_groups(out, values, start, len, mode, width);
    out.append("\n");
    proof {
        assert(all.subrange(start as int, len as int) =~= left);
        assert(out@ =~= before + line_text(mode, width as nat, last));
        lemma_lines_text_single(mode, width as nat, last);
    }
}

/// Writes the line that ends a table.
fn write_finish(out: &mut String, mode: HdmaWriteMode, width: usize)
    ensures
        final(out)@ == old(out)@ + lines_text(
            mode,
            width as nat,
            seq![Line { count: 0, groups: Seq::empty() }],
        ),
{
    let ghost end = Line { count: 0, groups: Seq::empty() };
    out.append("db $00\n");
    proof {
        reveal_strlit("db $00\n");
        reveal_strlit("db $");
        reveal_strlit("\n");
        lemma_lines_text_single(mode, width as nat, end);
        assert("db $00\n"@ =~= line_text(mode, width as nat, end));
    }
}

/// Writes the lines of `row`.
pub(crate) fn write_row(out: &mut String, row: &HdmaRow, mode: HdmaWriteMode, width: usize, limit: usize)
    requires
        width <= 4,
        limit > 0,
    ensures
        final(out)@ == old(out)@ + lines_text(
            mode,
            width as nat,
            row_lines(row@, limit as nat),
        ),
{
    match row {
        HdmaRow::Repeat { count, data } => write_repeat(out, *count, data, mode, width, limit),
        HdmaRow::Continuous { data } => write_continuous(out, data, mode, width),
        HdmaRow::Finish => write_finish(out, mode, width),
    }
}

} // verus!
