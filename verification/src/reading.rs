//! Reading a listing back.
//!
//! The reader takes the text line by line. Of each line it reads the count
//! behind `db $` and the bytes of the payloads behind the count, as the
//! table writes them.

use crate::coalesce::{
    coalesced, coalesced_repeat, merge_pair, merge_pair_repeat, mergeable, merged, merged_repeat,
    pair_mergeable,
};
use crate::coalesce_proofs::{
    cut_lines, lemma_coalesce_keeps_line_count, lemma_coalesce_repeat_keeps_scanlines,
    lemma_merged_is_settled,
};
use crate::hdma::{HdmaWriteMode, RowView, TableView};
use crate::listing::{
    byte_group, continuous_lines, group_text, groups_text, hex_digit, hex_digits, hex_padded,
    lemma_lines_text_concat, lemma_lines_text_single, line_text, lines_text, repeat_lines,
    row_lines, table_lines, table_text, word, Line,
};
use crate::listing_proofs::{counts_fit, decoded, lemma_written_lines_decoded, line_scanlines};
use crate::scanlines::{
    line_count, positive_counts, scanlines, whole_payloads, whole_row, whole_rows,
};
use vstd::prelude::*;

verus! {

/// The value of a hexadecimal digit in upper case, if `c` is one.
pub open spec fn digit_value(c: char) -> Option<nat> {
    if c == '0' {
        Some(0)
    } else if c == '1' {
        Some(1)
    } else if c == '2' {
        Some(2)
    } else if c == '3' {
        Some(3)
    } else if c == '4' {
        Some(4)
    } else if c == '5' {
        Some(5)
    } else if c == '6' {
        Some(6)
    } else if c == '7' {
        Some(7)
    } else if c == '8' {
        Some(8)
    } else if c == '9' {
        Some(9)
    } else if c == 'A' {
        Some(10)
    } else if c == 'B' {
        Some(11)
    } else if c == 'C' {
        Some(12)
    } else if c == 'D' {
        Some(13)
    } else if c == 'E' {
        Some(14)
    } else if c == 'F' {
        Some(15)
    } else {
        None
    }
}

/// Whether `c` is a hexadecimal digit in upper case.
pub open spec fn is_digit(c: char) -> bool {
    digit_value(c) is Some
}

/// The number that the digits stand for.
pub open spec fn digits_value(digits: Seq<char>) -> nat
    decreases digits.len(),
{
    if digits.len() == 0 {
        0
    } else {
        digits_value(digits.drop_last()) * 16 + digit_value(digits.last()).unwrap_or(0)
    }
}

/// Whether every character is a hexadecimal digit in upper case.
pub open spec fn all_digits(digits: Seq<char>) -> bool {
    forall|i: int| 0 <= i < digits.len() ==> is_digit(#[trigger] digits[i])
}

/// The digit of a number below 16 reads as that number.
pub proof fn lemma_digit_reads_back(n: nat)
    requires
        n < 16,
    ensures
        digit_value(hex_digit(n)) == Some(n),
{
}

/// The digits of a number read as that number.
pub proof fn lemma_digits_read_back(n: nat)
    ensures
        digits_value(hex_digits(n)) == n,
        all_digits(hex_digits(n)),
        hex_digits(n).len() >= 1,
        n < 16 ==> hex_digits(n).len() == 1,
        16 <= n ==> hex_digits(n).len() >= 2,
        16 <= n < 256 ==> hex_digits(n).len() == 2,
    decreases n,
{
    let digits = hex_digits(n);
    if n < 16 {
        lemma_digit_reads_back(n);
        assert(digits.drop_last() =~= Seq::<char>::empty());
        assert(digits_value(Seq::<char>::empty()) == 0);
    } else {
        lemma_digits_read_back(n / 16);
        lemma_digit_reads_back(n % 16);
        assert(digits.drop_last() =~= hex_digits(n / 16));
        assert(digits.last() == hex_digit(n % 16));
        assert forall|i: int| 0 <= i < digits.len() implies is_digit(#[trigger] digits[i]) by {
            if i < digits.len() - 1 {
                assert(digits[i] == hex_digits(n / 16)[i]);
            }
        }
    }
}

/// The digits of a number, padded to two, read as that number.
pub proof fn lemma_padded_reads_back(n: nat)
    ensures
        digits_value(hex_padded(n)) == n,
        all_digits(hex_padded(n)),
        hex_padded(n).len() >= 2,
        n < 256 ==> hex_padded(n).len() == 2,
        n < 256 ==> hex_padded(n) == seq![hex_digit(n / 16), hex_digit(n % 16)],
{
    let digits = hex_padded(n);
    lemma_digits_read_back(n);
    if n < 16 {
        lemma_digit_reads_back(n);
        lemma_digit_reads_back(0);
        let front = digits.drop_last();
        assert(front =~= seq!['0']);
        assert(front.drop_last() =~= Seq::<char>::empty());
        assert(digits_value(Seq::<char>::empty()) == 0);
        assert(digits_value(front) == 0);
    } else if n < 256 {
        lemma_digits_read_back(n / 16);
        assert(hex_digits(n / 16) =~= seq![hex_digit(n / 16)]);
        assert(digits =~= seq![hex_digit(n / 16), hex_digit(n % 16)]);
    }
}

/// The bytes of a payload that a table writes: the first `width` where it
/// writes bytes, the first two or all four where it writes words.
pub open spec fn written_bytes(mode: HdmaWriteMode, width: nat, data: Seq<u8>) -> Seq<u8> {
    match mode {
        HdmaWriteMode::Bytes => data.take(width as int),
        HdmaWriteMode::Words => if width <= 2 {
            data.take(2)
        } else {
            data.take(4)
        },
    }
}

/// How many characters a written payload takes.
pub open spec fn group_len(mode: HdmaWriteMode, width: nat) -> nat {
    match mode {
        HdmaWriteMode::Bytes => 4 * width,
        HdmaWriteMode::Words => if width <= 2 {
            11
        } else {
            17
        },
    }
}

/// The byte that the two digits at `at` stand for.
pub open spec fn byte_at(text: Seq<char>, at: int) -> u8 {
    (digit_value(text[at]).unwrap_or(0) * 16 + digit_value(text[at + 1]).unwrap_or(0)) as u8
}

/// The bytes of one written payload.
pub open spec fn read_group(mode: HdmaWriteMode, width: nat, text: Seq<char>) -> Seq<u8> {
    match mode {
        HdmaWriteMode::Bytes => Seq::new(width, |k: int| byte_at(text, 4 * k + 2)),
        HdmaWriteMode::Words => if width <= 2 {
            seq![byte_at(text, 9), byte_at(text, 7)]
        } else {
            seq![byte_at(text, 9), byte_at(text, 7), byte_at(text, 15), byte_at(text, 13)]
        },
    }
}

/// The bytes of the written payloads, one payload behind the other.
pub open spec fn read_groups(mode: HdmaWriteMode, width: nat, text: Seq<char>) -> Seq<Seq<u8>>
    decreases text.len(),
{
    let step = group_len(mode, width);
    if step == 0 || text.len() < step {
        Seq::empty()
    } else {
        read_groups(mode, width, text.take(text.len() - step)).push(
            read_group(mode, width, text.skip(text.len() - step)),
        )
    }
}

/// Whether the text holds no line break.
pub open spec fn unbroken(text: Seq<char>) -> bool {
    forall|i: int| 0 <= i < text.len() ==> #[trigger] text[i] != '\n'
}

/// Two digits read as the byte that they were written for.
pub proof fn lemma_byte_reads_back(text: Seq<char>, at: int, byte: u8)
    requires
        0 <= at,
        at + 1 < text.len(),
        text[at] == hex_digit((byte / 16) as nat),
        text[at + 1] == hex_digit((byte % 16) as nat),
    ensures
        byte_at(text, at) == byte,
        text[at] != '\n',
        text[at + 1] != '\n',
{
    lemma_digit_reads_back((byte / 16) as nat);
    lemma_digit_reads_back((byte % 16) as nat);
}

/// Whether the four characters at `4 * k` are a comma, a dollar sign and the
/// two digits of `byte`.
pub open spec fn byte_written_at(text: Seq<char>, k: int, byte: u8) -> bool {
    &&& text[4 * k] == ','
    &&& text[4 * k + 1] == '$'
    &&& text[4 * k + 2] == hex_digit((byte / 16) as nat)
    &&& text[4 * k + 3] == hex_digit((byte % 16) as nat)
}

/// The characters of bytes written one by one.
pub proof fn lemma_byte_group_shape(data: Seq<u8>, width: nat)
    requires
        width <= data.len(),
    ensures
        byte_group(data, width).len() == 4 * width,
        forall|k: int|
            0 <= k < width ==> #[trigger] byte_written_at(byte_group(data, width), k, data[k]),
    decreases width,
{
    if width > 0 {
        let before = byte_group(data, (width - 1) as nat);
        let all = byte_group(data, width);
        lemma_byte_group_shape(data, (width - 1) as nat);
        lemma_padded_reads_back(data[width - 1] as nat);
        reveal_strlit(",$");
        assert(all =~= before + ",$"@ + hex_padded(data[width - 1] as nat));
        assert forall|k: int| 0 <= k < width implies #[trigger] byte_written_at(
            all,
            k,
            data[k],
        ) by {
            if k < width - 1 {
                assert(byte_written_at(before, k, data[k]));
                assert(all[4 * k] == before[4 * k]);
                assert(all[4 * k + 1] == before[4 * k + 1]);
                assert(all[4 * k + 2] == before[4 * k + 2]);
                assert(all[4 * k + 3] == before[4 * k + 3]);
            } else {
                let digits = hex_padded(data[k] as nat);
                assert(digits =~= seq![
                    hex_digit((data[k] / 16) as nat),
                    hex_digit((data[k] % 16) as nat),
                ]);
                assert(before.len() == 4 * k);
                assert(",$"@.len() == 2);
                assert(all[4 * k] == ",$"@[0]);
                assert(all[4 * k + 1] == ",$"@[1]);
                assert(all[4 * k + 2] == digits[0]);
                assert(all[4 * k + 3] == digits[1]);
            }
        }
    }
}

/// The characters of a written word.
pub proof fn lemma_word_shape(high: u8, low: u8)
    ensures
        word(high, low) == seq![
            '$',
            hex_digit((high / 16) as nat),
            hex_digit((high % 16) as nat),
            hex_digit((low / 16) as nat),
            hex_digit((low % 16) as nat),
        ],
{
    lemma_padded_reads_back(high as nat);
    lemma_padded_reads_back(low as nat);
    reveal_strlit("$");
    assert(word(high, low) =~= seq![
        '$',
        hex_digit((high / 16) as nat),
        hex_digit((high % 16) as nat),
        hex_digit((low / 16) as nat),
        hex_digit((low % 16) as nat),
    ]);
}

/// A written payload has the length of its kind, begins with a comma or a
/// blank, holds no line break, and reads back as the bytes that were written.
pub proof fn lemma_group_reads_back(mode: HdmaWriteMode, width: nat, data: Seq<u8>)
    requires
        1 <= width <= 4,
        data.len() == 4,
    ensures
        group_text(mode, width, data).len() == group_len(mode, width),
        group_len(mode, width) >= 4,
        !is_digit(group_text(mode, width, data)[0]),
        unbroken(group_text(mode, width, data)),
        read_group(mode, width, group_text(mode, width, data)) == written_bytes(
            mode,
            width,
            data,
        ),
{
    let text = group_text(mode, width, data);
    match mode {
        HdmaWriteMode::Bytes => {
            lemma_byte_group_shape(data, width);
            assert(byte_written_at(text, 0, data[0]));
            assert forall|i: int| 0 <= i < text.len() implies #[trigger] text[i] != '\n' by {
                let k = i / 4;
                assert(byte_written_at(text, k, data[k]));
                lemma_byte_reads_back(text, 4 * k + 2, data[k]);
            }
            let read = read_group(mode, width, text);
            assert forall|k: int| 0 <= k < width implies read[k] == data[k] by {
                assert(byte_written_at(text, k, data[k]));
                lemma_byte_reads_back(text, 4 * k + 2, data[k]);
            }
            assert(read =~= data.take(width as int));
        },
        HdmaWriteMode::Words => {
            reveal_strlit(" : dw ");
            reveal_strlit(",");
            lemma_word_shape(data[1], data[0]);
            lemma_word_shape(data[3], data[2]);
            let first = word(data[1], data[0]);
            let second = word(data[3], data[2]);
            if width <= 2 {
                assert(text =~= " : dw "@ + first);
                assert forall|i: int| 0 <= i < text.len() implies #[trigger] text[i] != '\n' by {
                    lemma_byte_reads_back(text, 7, data[1]);
                    lemma_byte_reads_back(text, 9, data[0]);
                }
                lemma_byte_reads_back(text, 7, data[1]);
                lemma_byte_reads_back(text, 9, data[0]);
                assert(read_group(mode, width, text) =~= data.take(2));
            } else {
                assert(text =~= " : dw "@ + first + ","@ + second);
                assert forall|i: int| 0 <= i < text.len() implies #[trigger] text[i] != '\n' by {
                    lemma_byte_reads_back(text, 7, data[1]);
                    lemma_byte_reads_back(text, 9, data[0]);
                    lemma_byte_reads_back(text, 13, data[3]);
                    lemma_byte_reads_back(text, 15, data[2]);
                }
                lemma_byte_reads_back(text, 7, data[1]);
                lemma_byte_reads_back(text, 9, data[0]);
                lemma_byte_reads_back(text, 13, data[3]);
                lemma_byte_reads_back(text, 15, data[2]);
                assert(read_group(mode, width, text) =~= data.take(4));
            }
        },
    }
}

/// The bytes that a table writes of each payload.
pub open spec fn written_groups(mode: HdmaWriteMode, width: nat, groups: Seq<Seq<u8>>) -> Seq<
    Seq<u8>,
> {
    groups.map_values(|data: Seq<u8>| written_bytes(mode, width, data))
}

/// Two texts without a line break make one without a line break.
pub proof fn lemma_unbroken_concat(first: Seq<char>, second: Seq<char>)
    requires
        unbroken(first),
        unbroken(second),
    ensures
        unbroken(first + second),
{
    let both = first + second;
    assert forall|i: int| 0 <= i < both.len() implies #[trigger] both[i] != '\n' by {
        if i < first.len() {
            assert(both[i] == first[i]);
        } else {
            assert(both[i] == second[i - first.len()]);
        }
    }
}

/// The payloads of a text with one more written payload behind it are those
/// of the text and the payload behind it.
pub proof fn lemma_read_groups_step(
    mode: HdmaWriteMode,
    width: nat,
    before: Seq<char>,
    tail: Seq<char>,
)
    requires
        tail.len() == group_len(mode, width),
        group_len(mode, width) > 0,
    ensures
        read_groups(mode, width, before + tail) == read_groups(mode, width, before).push(
            read_group(mode, width, tail),
        ),
{
    let text = before + tail;
    let step = group_len(mode, width);
    assert(text.take(text.len() - step) =~= before);
    assert(text.skip(text.len() - step) =~= tail);
}

/// Written payloads hold no line break, begin with a comma or a blank, and
/// read back as the bytes that were written.
pub proof fn lemma_groups_read_back(mode: HdmaWriteMode, width: nat, groups: Seq<Seq<u8>>)
    requires
        1 <= width <= 4,
        whole_payloads(groups),
    ensures
        unbroken(groups_text(mode, width, groups)),
        groups.len() > 0 ==> groups_text(mode, width, groups).len() > 0 && !is_digit(
            groups_text(mode, width, groups)[0],
        ),
        read_groups(mode, width, groups_text(mode, width, groups)) == written_groups(
            mode,
            width,
            groups,
        ),
    decreases groups.len(),
{
    let text = groups_text(mode, width, groups);
    if groups.len() == 0 {
        assert(text.len() == 0);
        assert(group_len(mode, width) >= 4) by {
            lemma_group_reads_back(mode, width, seq![0u8, 0u8, 0u8, 0u8]);
        }
        assert(read_groups(mode, width, text) =~= Seq::<Seq<u8>>::empty());
        assert(written_groups(mode, width, groups) =~= Seq::<Seq<u8>>::empty());
    } else {
        let front = groups.drop_last();
        let last = groups.last();
        let before = groups_text(mode, width, front);
        let tail = group_text(mode, width, last);
        assert(last == groups[groups.len() - 1]);
        assert(whole_payloads(front)) by {
            assert forall|i: int| 0 <= i < front.len() implies (#[trigger] front[i]).len()
                == 4 by {
                assert(front[i] == groups[i]);
            }
        }
        lemma_groups_read_back(mode, width, front);
        lemma_group_reads_back(mode, width, last);
        assert(text == before + tail);
        lemma_unbroken_concat(before, tail);
        lemma_read_groups_step(mode, width, before, tail);
        assert(text.len() > 0 && !is_digit(text[0])) by {
            if front.len() > 0 {
                assert(text[0] == before[0]);
            } else {
                assert(before.len() == 0);
                assert(text[0] == tail[0]);
            }
        }
        assert(written_groups(mode, width, groups) =~= written_groups(mode, width, front).push(
            written_bytes(mode, width, last),
        ));
    }
}

/// Where the line that begins at `from` ends: at the next line break, or at
/// the end of the text.
pub open spec fn line_end(text: Seq<char>, from: int) -> int
    decreases text.len() - from,
{
    if from < 0 || from >= text.len() {
        text.len() as int
    } else if text[from] == '\n' {
        from
    } else {
        line_end(text, from + 1)
    }
}

/// Where the digits that begin at `from` end.
pub open spec fn digits_end(text: Seq<char>, from: int) -> int
    decreases text.len() - from,
{
    if from < 0 || from >= text.len() {
        text.len() as int
    } else if !is_digit(text[from]) {
        from
    } else {
        digits_end(text, from + 1)
    }
}

/// A line ends at the first line break.
pub proof fn lemma_line_end(text: Seq<char>, from: int, end: int)
    requires
        0 <= from <= end < text.len(),
        forall|i: int| from <= i < end ==> #[trigger] text[i] != '\n',
        text[end] == '\n',
    ensures
        line_end(text, from) == end,
    decreases end - from,
{
    if from < end {
        lemma_line_end(text, from + 1, end);
    }
}

/// Digits end at the first character that is no digit, or with the text.
pub proof fn lemma_digits_end(text: Seq<char>, from: int, end: int)
    requires
        0 <= from <= end <= text.len(),
        forall|i: int| from <= i < end ==> is_digit(#[trigger] text[i]),
        end < text.len() ==> !is_digit(text[end]),
    ensures
        digits_end(text, from) == end,
    decreases end - from,
{
    if from < end {
        lemma_digits_end(text, from + 1, end);
    }
}

/// What a line holds, read from its text without the line break: the count
/// behind the first four characters, and the payloads behind the count.
pub open spec fn read_line(mode: HdmaWriteMode, width: nat, line: Seq<char>) -> Line {
    let end = digits_end(line, 4);
    Line {
        count: digits_value(line.subrange(4, end)),
        groups: read_groups(mode, width, line.skip(end)),
    }
}

/// The line with the bytes that a table writes of each payload.
pub open spec fn written_line(mode: HdmaWriteMode, width: nat, line: Line) -> Line {
    Line { count: line.count, groups: written_groups(mode, width, line.groups) }
}

/// A written line, without its line break, holds no line break and reads back
/// as its count and the bytes that were written of its payloads.
pub proof fn lemma_line_reads_back(mode: HdmaWriteMode, width: nat, line: Line)
    requires
        1 <= width <= 4,
        whole_payloads(line.groups),
    ensures
        line_text(mode, width, line).len() >= 1,
        line_text(mode, width, line).last() == '\n',
        unbroken(line_text(mode, width, line).drop_last()),
        read_line(mode, width, line_text(mode, width, line).drop_last()) == written_line(
            mode,
            width,
            line,
        ),
{
    let digits = hex_padded(line.count);
    let groups = groups_text(mode, width, line.groups);
    let body = "db $"@ + digits + groups;
    let text = line_text(mode, width, line);
    reveal_strlit("db $");
    reveal_strlit("\n");
    lemma_padded_reads_back(line.count);
    lemma_groups_read_back(mode, width, line.groups);
    assert(text =~= body + seq!['\n']);
    assert(text.drop_last() =~= body);
    let end = 4 + digits.len();
    assert forall|i: int| 0 <= i < body.len() implies #[trigger] body[i] != '\n' by {
        if i < 4 {
        } else if i < end {
            assert(body[i] == digits[i - 4]);
            assert(is_digit(digits[i - 4]));
        } else {
            assert(body[i] == groups[i - end]);
        }
    }
    assert forall|i: int| 4 <= i < end implies is_digit(#[trigger] body[i]) by {
        assert(body[i] == digits[i - 4]);
        assert(is_digit(digits[i - 4]));
    }
    if end < body.len() {
        assert(body[end as int] == groups[0]);
        assert(line.groups.len() > 0) by {
            if line.groups.len() == 0 {
                assert(groups_text(mode, width, line.groups) =~= Seq::<char>::empty());
            }
        }
    }
    lemma_digits_end(body, 4, end as int);
    assert(body.subrange(4, end as int) =~= digits);
    assert(body.skip(end as int) =~= groups);
}

/// The lines of a text, each read from the characters before its line
/// break. What stands behind the last line break is left out.
pub open spec fn read_lines(mode: HdmaWriteMode, width: nat, text: Seq<char>) -> Seq<Line>
    decreases text.len(),
{
    let end = line_end(text, 0);
    if end < 0 || end >= text.len() {
        Seq::empty()
    } else {
        seq![read_line(mode, width, text.take(end))] + read_lines(
            mode,
            width,
            text.skip(end + 1),
        )
    }
}

/// Whether every payload of every line has four bytes.
pub open spec fn whole_lines(lines: Seq<Line>) -> bool {
    forall|i: int| 0 <= i < lines.len() ==> whole_payloads(#[trigger] lines[i].groups)
}

/// The lines with the bytes that a table writes of each payload.
pub open spec fn written_lines(mode: HdmaWriteMode, width: nat, lines: Seq<Line>) -> Seq<Line> {
    lines.map_values(|line: Line| written_line(mode, width, line))
}

/// Written lines read back as their counts and the bytes that were written
/// of their payloads.
pub proof fn lemma_lines_read_back(mode: HdmaWriteMode, width: nat, lines: Seq<Line>)
    requires
        1 <= width <= 4,
        whole_lines(lines),
    ensures
        read_lines(mode, width, lines_text(mode, width, lines)) == written_lines(
            mode,
            width,
            lines,
        ),
    decreases lines.len(),
{
    let text = lines_text(mode, width, lines);
    if lines.len() == 0 {
        assert(text =~= Seq::<char>::empty());
        assert(read_lines(mode, width, text) =~= written_lines(mode, width, lines));
    } else {
        let first = lines[0];
        let rest = lines.skip(1);
        let head = line_text(mode, width, first);
        let tail = lines_text(mode, width, rest);
        assert(lines =~= seq![first] + rest);
        lemma_lines_text_single(mode, width, first);
        lemma_lines_text_concat(mode, width, seq![first], rest);
        assert(text == head + tail);
        assert(whole_payloads(first.groups));
        assert forall|i: int| 0 <= i < rest.len() implies whole_payloads(
            #[trigger] rest[i].groups,
        ) by {
            assert(rest[i] == lines[i + 1]);
        }
        lemma_line_reads_back(mode, width, first);
        lemma_lines_read_back(mode, width, rest);
        let end = head.len() - 1;
        assert forall|i: int| 0 <= i < end implies #[trigger] text[i] != '\n' by {
            assert(text[i] == head.drop_last()[i]);
        }
        assert(text[end] == head.last());
        lemma_line_end(text, 0, end);
        assert(text.take(end) =~= head.drop_last());
        assert(text.skip(end + 1) =~= tail);
        assert(read_lines(mode, width, text) =~= written_lines(mode, width, lines));
    }
}

/// What a listing holds: the lines behind the label line.
pub open spec fn read_listing(mode: HdmaWriteMode, width: nat, text: Seq<char>) -> Seq<Line> {
    read_lines(mode, width, text.skip(line_end(text, 0) + 1))
}

/// Whether a line with a count above 128 holds as many payloads as the
/// count is above 128.
pub open spec fn line_filled(line: Line) -> bool {
    line.count > 0x80 ==> line.groups.len() == line.count - 0x80
}

/// Whether every line that should hold one payload for each scanline does.
pub open spec fn lines_filled(lines: Seq<Line>) -> bool {
    forall|i: int| 0 <= i < lines.len() ==> line_filled(#[trigger] lines[i])
}

/// The lines with the written bytes stand for the written bytes of each scanline.
pub proof fn lemma_written_lines_scanlines(mode: HdmaWriteMode, width: nat, lines: Seq<Line>)
    requires
        lines_filled(lines),
    ensures
        decoded(written_lines(mode, width, lines)) == written_groups(mode, width, decoded(lines)),
    decreases lines.len(),
{
    let written = written_lines(mode, width, lines);
    if lines.len() == 0 {
        assert(decoded(written) =~= written_groups(mode, width, decoded(lines)));
    } else {
        let front = lines.drop_last();
        let last = lines.last();
        assert(last == lines[lines.len() - 1]);
        assert(line_filled(last));
        assert forall|i: int| 0 <= i < front.len() implies line_filled(#[trigger] front[i]) by {
            assert(front[i] == lines[i]);
        }
        lemma_written_lines_scanlines(mode, width, front);
        assert(written.drop_last() =~= written_lines(mode, width, front));
        assert(written.last() == written_line(mode, width, last));
        assert(line_scanlines(written_line(mode, width, last)) =~= written_groups(
            mode,
            width,
            line_scanlines(last),
        ));
        assert(decoded(written) =~= written_groups(mode, width, decoded(lines)));
    }
}

/// The lines of a repeat row hold payloads of four bytes, and none of them
/// has the count of a continuous line.
pub proof fn lemma_repeat_lines_shape(count: nat, data: Seq<u8>, limit: nat)
    requires
        limit > 0,
        data.len() == 4,
        count <= 0x80 || limit <= 0x80,
    ensures
        whole_lines(repeat_lines(count, data, limit)),
        lines_filled(repeat_lines(count, data, limit)),
    decreases count,
{
    let lines = repeat_lines(count, data, limit);
    if count >= limit {
        let rest = repeat_lines((count - limit) as nat, data, limit);
        lemma_repeat_lines_shape((count - limit) as nat, data, limit);
        assert forall|i: int| 0 <= i < lines.len() implies whole_payloads(
            #[trigger] lines[i].groups,
        ) && line_filled(lines[i]) by {
            if i > 0 {
                assert(lines[i] == rest[i - 1]);
                assert(whole_payloads(rest[i - 1].groups));
                assert(line_filled(rest[i - 1]));
            }
        }
    }
}

/// The lines of a continuous row hold payloads of four bytes, as many as
/// their counts are above 128.
pub proof fn lemma_continuous_lines_shape(values: Seq<Seq<u8>>)
    requires
        whole_payloads(values),
    ensures
        whole_lines(continuous_lines(values)),
        lines_filled(continuous_lines(values)),
    decreases values.len(),
{
    let lines = continuous_lines(values);
    if values.len() > 0x7F {
        let left = values.skip(0x7F);
        let rest = continuous_lines(left);
        assert forall|i: int| 0 <= i < left.len() implies (#[trigger] left[i]).len() == 4 by {
            assert(left[i] == values[i + 0x7F]);
        }
        lemma_continuous_lines_shape(left);
        assert forall|i: int| 0 <= i < lines.len() implies whole_payloads(
            #[trigger] lines[i].groups,
        ) && line_filled(lines[i]) by {
            if i > 0 {
                assert(lines[i] == rest[i - 1]);
                assert(whole_payloads(rest[i - 1].groups));
                assert(line_filled(rest[i - 1]));
            } else {
                let full = values.take(0x7F);
                assert forall|j: int| 0 <= j < full.len() implies (#[trigger] full[j]).len()
                    == 4 by {
                    assert(full[j] == values[j]);
                }
            }
        }
    }
}

/// The lines of a table hold payloads of four bytes, and a count above 128
/// only on lines that hold one payload for each scanline.
pub proof fn lemma_table_lines_shape(rows: Seq<RowView>, limit: nat)
    requires
        limit > 0,
        whole_rows(rows),
        counts_fit(rows, limit),
    ensures
        whole_lines(table_lines(rows, limit)),
        lines_filled(table_lines(rows, limit)),
    decreases rows.len(),
{
    let lines = table_lines(rows, limit);
    if rows.len() > 0 {
        let front = rows.drop_last();
        let row = rows.last();
        assert(row == rows[rows.len() - 1]);
        assert(whole_row(row));
        assert forall|i: int| 0 <= i < front.len() implies whole_row(#[trigger] front[i]) && (
        front[i] matches RowView::Repeat { count, data: _ } ==> count <= 0x80 || limit <= 0x80) by {
            assert(front[i] == rows[i]);
        }
        lemma_table_lines_shape(front, limit);
        let before = table_lines(front, limit);
        let more = row_lines(row, limit);
        match row {
            RowView::Repeat { count, data } => {
                lemma_repeat_lines_shape(count, data, limit);
            },
            RowView::Continuous { values } => {
                lemma_continuous_lines_shape(values);
            },
            RowView::Finish => {
                assert(whole_payloads(more[0].groups));
            },
        }
        assert forall|i: int| 0 <= i < lines.len() implies whole_payloads(
            #[trigger] lines[i].groups,
        ) && line_filled(lines[i]) by {
            if i < before.len() {
                assert(lines[i] == before[i]);
                assert(whole_payloads(before[i].groups));
                assert(line_filled(before[i]));
            } else {
                assert(lines[i] == more[i - before.len()]);
                assert(whole_payloads(more[i - before.len()].groups));
                assert(line_filled(more[i - before.len()]));
            }
        }
    }
}

/// The listing of a table reads back as the scanlines of its rows: reading
/// the lines behind the label line, and taking each line for the scanlines
/// that its count says, gives the written bytes of the payload of each
/// scanline, in order. This holds where the label holds no line break and no
/// repeat line is written with a count above 128.
pub proof fn lemma_listing_reads_back(table: TableView)
    requires
        1 <= table.row_size <= 4,
        table.max_row_count > 0,
        unbroken(table.table_name),
        whole_rows(table.rows),
        counts_fit(table.rows, table.max_row_count),
    ensures
        decoded(read_listing(table.write_mode, table.row_size, table_text(table)))
            == written_groups(table.write_mode, table.row_size, scanlines(table.rows)),
{
    let mode = table.write_mode;
    let width = table.row_size;
    let lines = table_lines(table.rows, table.max_row_count);
    let body = lines_text(mode, width, lines);
    let text = table_text(table);
    let end: int = table.table_name.len() as int + 1;
    reveal_strlit(":\n");
    assert(text =~= table.table_name + seq![':', '\n'] + body);
    assert forall|i: int| 0 <= i < end implies #[trigger] text[i] != '\n' by {
        if i < end - 1 {
            assert(text[i] == table.table_name[i]);
        }
    }
    lemma_line_end(text, 0, end);
    assert(text.skip(end + 1) =~= body);
    lemma_table_lines_shape(table.rows, table.max_row_count);
    lemma_lines_read_back(mode, width, lines);
    lemma_written_lines_scanlines(mode, width, lines);
    lemma_written_lines_decoded(table.rows, table.max_row_count);
}

/// Whether the rows of a pair that has been merged hold payloads of four bytes.
proof fn lemma_merge_pair_whole(last: RowView, row: RowView)
    requires
        whole_row(last),
        whole_row(row),
    ensures
        pair_mergeable(last, row) ==> forall|i: int|
            0 <= i < merge_pair(last, row).len() ==> whole_row(#[trigger] merge_pair(last, row)[i]),
        forall|i: int|
            0 <= i < merge_pair_repeat(last, row).len() ==> whole_row(
                #[trigger] merge_pair_repeat(last, row)[i],
            ),
{
    match (last, row) {
        (RowView::Repeat { count: _, data: p }, RowView::Repeat { count: _, data: q }) => {
            assert(whole_payloads(seq![p, q]));
        },
        (RowView::Repeat { count: _, data: p }, RowView::Continuous { values: w }) => {
            let joined = seq![p] + w;
            assert forall|j: int| 0 <= j < joined.len() implies (#[trigger] joined[j]).len()
                == 4 by {
                if j > 0 {
                    assert(joined[j] == w[j - 1]);
                }
            }
        },
        (RowView::Continuous { values: v }, RowView::Repeat { count: _, data: q }) => {
            let longer = v.push(q);
            if v.len() > 0 {
                let shorter = v.drop_last();
                assert forall|j: int| 0 <= j < shorter.len() implies (#[trigger] shorter[j]).len()
                    == 4 by {
                    assert(shorter[j] == v[j]);
                }
            }
            assert forall|j: int| 0 <= j < longer.len() implies (#[trigger] longer[j]).len()
                == 4 by {
                if j < v.len() {
                    assert(longer[j] == v[j]);
                }
            }
        },
        (RowView::Continuous { values: v }, RowView::Continuous { values: w }) => {
            let joined = v + w;
            assert forall|j: int| 0 <= j < joined.len() implies (#[trigger] joined[j]).len()
                == 4 by {
                if j < v.len() {
                    assert(joined[j] == v[j]);
                } else {
                    assert(joined[j] == w[j - v.len()]);
                }
            }
        },
        _ => {},
    }
}

/// Coalescing, by either pass, leaves every payload with its four bytes.
pub proof fn lemma_coalescing_keeps_payloads_whole(rows: Seq<RowView>)
    requires
        whole_rows(rows),
    ensures
        mergeable(rows) ==> whole_rows(merged(rows)) && whole_rows(coalesced(rows)),
        whole_rows(merged_repeat(rows)),
        whole_rows(coalesced_repeat(rows)),
    decreases rows.len(),
{
    if rows.len() > 0 {
        let front = rows.drop_last();
        let row = rows.last();
        assert(row == rows[rows.len() - 1]);
        assert forall|i: int| 0 <= i < front.len() implies whole_row(#[trigger] front[i]) by {
            assert(front[i] == rows[i]);
        }
        lemma_coalescing_keeps_payloads_whole(front);
        let out = merged(front);
        let next = merged(rows);
        if mergeable(rows) && out.len() > 0 {
            let pair = merge_pair(out.last(), row);
            assert(out.last() == out[out.len() - 1]);
            lemma_merge_pair_whole(out.last(), row);
            assert forall|i: int| 0 <= i < next.len() implies whole_row(#[trigger] next[i]) by {
                if i < out.len() - 1 {
                    assert(next[i] == out[i]);
                } else {
                    assert(next[i] == pair[i - (out.len() - 1)]);
                }
            }
        }
        let out = merged_repeat(front);
        let next = merged_repeat(rows);
        if out.len() > 0 {
            let pair = merge_pair_repeat(out.last(), row);
            assert(out.last() == out[out.len() - 1]);
            lemma_merge_pair_whole(out.last(), row);
            assert forall|i: int| 0 <= i < next.len() implies whole_row(#[trigger] next[i]) by {
                if i < out.len() - 1 {
                    assert(next[i] == out[i]);
                } else {
                    assert(next[i] == pair[i - (out.len() - 1)]);
                }
            }
        }
    }
    if mergeable(rows) {
        let out = merged(rows);
        let done = coalesced(rows);
        assert forall|i: int| 0 <= i < done.len() implies whole_row(#[trigger] done[i]) by {
            if i < out.len() {
                assert(whole_row(out[i]));
            }
        }
    }
    let out = merged_repeat(rows);
    let done = coalesced_repeat(rows);
    assert forall|i: int| 0 <= i < done.len() implies whole_row(#[trigger] done[i]) by {
        if i < out.len() {
            assert(whole_row(out[i]));
        }
    }
}

/// The listing of a table that has been fully coalesced reads back as the
/// scanlines that its rows stood for before, but for those that the cut of
/// the last row took away.
pub proof fn lemma_coalesced_listing_reads_back(table: TableView)
    requires
        1 <= table.row_size <= 4,
        0 < table.max_row_count <= 0x80,
        unbroken(table.table_name),
        whole_rows(table.rows),
        positive_counts(table.rows),
        mergeable(table.rows),
    ensures
        cut_lines(merged(table.rows)) >= 0,
        decoded(
            read_listing(
                table.write_mode,
                table.row_size,
                table_text(TableView { rows: coalesced(table.rows), ..table }),
            ),
        ) == written_groups(
            table.write_mode,
            table.row_size,
            scanlines(table.rows).take(line_count(table.rows) - cut_lines(merged(table.rows))),
        ),
{
    let done = TableView { rows: coalesced(table.rows), ..table };
    lemma_coalescing_keeps_payloads_whole(table.rows);
    lemma_merged_is_settled(table.rows);
    let out = merged(table.rows);
    if out.len() > 0 {
        assert(out.last() == out[out.len() - 1]);
    }
    lemma_coalesce_keeps_line_count(table.rows);
    lemma_listing_reads_back(done);
}

/// The listing of a table that has been coalesced by the repeat-only pass
/// reads back as the scanlines that its rows stood for before, where no
/// repeat line is written with a count above 128.
pub proof fn lemma_coalesced_repeat_listing_reads_back(table: TableView)
    requires
        1 <= table.row_size <= 4,
        table.max_row_count > 0,
        unbroken(table.table_name),
        whole_rows(table.rows),
        counts_fit(coalesced_repeat(table.rows), table.max_row_count),
    ensures
        decoded(
            read_listing(
                table.write_mode,
                table.row_size,
                table_text(TableView { rows: coalesced_repeat(table.rows), ..table }),
            ),
        ) == written_groups(table.write_mode, table.row_size, scanlines(table.rows)),
{
    let done = TableView { rows: coalesced_repeat(table.rows), ..table };
    lemma_coalescing_keeps_payloads_whole(table.rows);
    lemma_coalesce_repeat_keeps_scanlines(table.rows);
    lemma_listing_reads_back(done);
}

} // verus!
