use hdma_gradient::hdma::{HdmaRow, HdmaTable, HdmaWriteMode};

fn bytes_table(rows: Vec<HdmaRow>, row_size: usize, limit: usize) -> HdmaTable {
    HdmaTable::new(rows, row_size, HdmaWriteMode::Bytes, "table", limit)
}

fn words_table(rows: Vec<HdmaRow>, row_size: usize) -> HdmaTable {
    HdmaTable::new_real_table(rows, row_size, HdmaWriteMode::Words, "table")
}

/// Reads a listing of bytes back: the payload of each scanline, `width` bytes each.
fn read_back(text: &str, width: usize) -> Vec<Vec<u8>> {
    let mut scanlines = Vec::new();
    let mut lines = text.lines();
    assert!(lines.next().unwrap().ends_with(':'));
    for line in lines {
        let body = line.strip_prefix("db $").unwrap();
        let mut tokens = body.split(",$");
        let count = usize::from_str_radix(tokens.next().unwrap(), 16).unwrap();
        let bytes: Vec<u8> = tokens.map(|t| u8::from_str_radix(t, 16).unwrap()).collect();
        if count > 0x80 {
            assert_eq!(bytes.len(), (count - 0x80) * width);
            for group in bytes.chunks(width) {
                scanlines.push(group.to_vec());
            }
        } else if !bytes.is_empty() {
            assert_eq!(bytes.len(), width);
            for _ in 0..count {
                scanlines.push(bytes.clone());
            }
        }
    }
    scanlines
}

#[test]
fn label_line_comes_first() {
    let table = HdmaTable::new_real_table(Vec::new(), 1, HdmaWriteMode::Bytes, "red_table");
    assert_eq!(table.write_table(), "red_table:\n");
}

#[test]
fn small_table_in_bytes() {
    let table = bytes_table(
        vec![
            HdmaRow::new_repeat(2, &[0x01]),
            HdmaRow::new_repeat(1, &[0xAF]),
            HdmaRow::Finish,
        ],
        1,
        0x80,
    );
    assert_eq!(table.write_table(), "table:\ndb $02,$01\ndb $01,$AF\ndb $00\n");
}

#[test]
fn only_the_written_bytes_appear() {
    let rows = || vec![HdmaRow::new_repeat(0x10, &[0x0A, 0xB0, 0xCC, 0x0D])];
    assert_eq!(bytes_table(rows(), 1, 0x80).write_table(), "table:\ndb $10,$0A\n");
    assert_eq!(bytes_table(rows(), 2, 0x80).write_table(), "table:\ndb $10,$0A,$B0\n");
    assert_eq!(bytes_table(rows(), 3, 0x80).write_table(), "table:\ndb $10,$0A,$B0,$CC\n");
    assert_eq!(bytes_table(rows(), 4, 0x80).write_table(), "table:\ndb $10,$0A,$B0,$CC,$0D\n");
}

#[test]
fn repeat_of_300_is_split_at_the_limit() {
    let table = bytes_table(vec![HdmaRow::new_repeat(300, &[0xAB])], 1, 0x80);
    let text = table.write_table();
    assert_eq!(text, "table:\ndb $80,$AB\ndb $80,$AB\ndb $2C,$AB\n");
    assert_eq!(text.lines().count() - 1, 3);
}

#[test]
fn repeat_of_a_whole_multiple_ends_with_a_line_of_zero() {
    let table = bytes_table(vec![HdmaRow::new_repeat(256, &[0x11])], 1, 0x80);
    assert_eq!(table.write_table(), "table:\ndb $80,$11\ndb $80,$11\ndb $00,$11\n");
    let table = bytes_table(vec![HdmaRow::new_repeat(0x80, &[0x11])], 1, 0x80);
    assert_eq!(table.write_table(), "table:\ndb $80,$11\ndb $00,$11\n");
}

#[test]
fn repeat_below_the_limit_is_one_line() {
    let table = bytes_table(vec![HdmaRow::new_repeat(0x7F, &[0x11])], 1, 0x80);
    assert_eq!(table.write_table(), "table:\ndb $7F,$11\n");
    let table = bytes_table(vec![HdmaRow::new_repeat(0, &[0x11])], 1, 0x80);
    assert_eq!(table.write_table(), "table:\ndb $00,$11\n");
}

#[test]
fn larger_limit_of_a_table_that_is_not_timed() {
    let table = bytes_table(vec![HdmaRow::new_repeat(300, &[1, 2, 3])], 3, 0xFF);
    assert_eq!(table.write_table(), "table:\ndb $FF,$01,$02,$03\ndb $2D,$01,$02,$03\n");
}

#[test]
fn count_above_255_takes_three_digits() {
    let table = bytes_table(vec![HdmaRow::new_repeat(0x1A5, &[1])], 1, 0x200);
    assert_eq!(table.write_table(), "table:\ndb $1A5,$01\n");
    let table = bytes_table(vec![HdmaRow::new_repeat(0x1234, &[1])], 1, 0x1000);
    assert_eq!(table.write_table(), "table:\ndb $1000,$01\ndb $234,$01\n");
}

#[test]
fn continuous_row_in_bytes() {
    let table = bytes_table(vec![HdmaRow::new_continuous(&[1, 2, 3, 4, 5, 6], 2)], 2, 0x80);
    assert_eq!(table.write_table(), "table:\ndb $83,$01,$02,$03,$04,$05,$06\n");
}

#[test]
fn continuous_row_of_200_takes_two_lines() {
    let values: Vec<u8> = (0..200).map(|i| i as u8).collect();
    let table = bytes_table(vec![HdmaRow::new_continuous(&values, 1)], 1, 0x80);
    let text = table.write_table();
    let lines: Vec<&str> = text.lines().collect();
    assert_eq!(lines.len(), 3);
    assert_eq!(lines[0], "table:");
    assert!(lines[1].starts_with("db $FF,$00,$01,$02"));
    assert!(lines[1].ends_with(",$7D,$7E"));
    assert_eq!(lines[1].matches(",$").count(), 127);
    assert!(lines[2].starts_with("db $C9,$7F,$80"));
    assert!(lines[2].ends_with(",$C6,$C7"));
    assert_eq!(lines[2].matches(",$").count(), 73);
    let mut expected = String::from("table:\ndb $FF");
    for value in &values[..127] {
        expected.push_str(&format!(",${:02X}", value));
    }
    expected.push_str("\ndb $C9");
    for value in &values[127..] {
        expected.push_str(&format!(",${:02X}", value));
    }
    expected.push('\n');
    assert_eq!(text, expected);
}

#[test]
fn continuous_row_of_127_takes_one_line() {
    let values: Vec<u8> = (0..127).map(|i| i as u8).collect();
    let table = bytes_table(vec![HdmaRow::new_continuous(&values, 1)], 1, 0x80);
    let text = table.write_table();
    let lines: Vec<&str> = text.lines().collect();
    assert_eq!(lines.len(), 2);
    assert!(lines[1].starts_with("db $FF,$00"));
    assert_eq!(lines[1].matches(",$").count(), 127);
}

#[test]
fn continuous_row_of_128_takes_two_lines() {
    let values: Vec<u8> = (0..128).map(|i| i as u8).collect();
    let table = bytes_table(vec![HdmaRow::new_continuous(&values, 1)], 1, 0x80);
    let text = table.write_table();
    let lines: Vec<&str> = text.lines().collect();
    assert_eq!(lines.len(), 3);
    assert_eq!(lines[1].matches(",$").count(), 127);
    assert_eq!(lines[2], "db $81,$7F");
}

#[test]
fn continuous_row_of_254_takes_two_full_lines() {
    let values: Vec<u8> = (0..254).map(|i| i as u8).collect();
    let table = bytes_table(vec![HdmaRow::new_continuous(&values, 1)], 1, 0x80);
    let text = table.write_table();
    let lines: Vec<&str> = text.lines().collect();
    assert_eq!(lines.len(), 3);
    assert!(lines[1].starts_with("db $FF,$00"));
    assert!(lines[2].starts_with("db $FF,$7F"));
    assert_eq!(lines[1].matches(",$").count(), 127);
    assert_eq!(lines[2].matches(",$").count(), 127);
}

#[test]
fn continuous_row_of_one_and_of_none() {
    let table = bytes_table(vec![HdmaRow::new_continuous(&[0x42], 1)], 1, 0x80);
    assert_eq!(table.write_table(), "table:\ndb $81,$42\n");
    let table = bytes_table(vec![HdmaRow::new_continuous(&[], 1)], 1, 0x80);
    assert_eq!(table.write_table(), "table:\ndb $80\n");
}

#[test]
fn continuous_row_is_split_at_127_whatever_the_limit() {
    let values: Vec<u8> = (0..130).map(|i| i as u8).collect();
    let table = bytes_table(vec![HdmaRow::new_continuous(&values, 1)], 1, 0xFF);
    let text = table.write_table();
    let lines: Vec<&str> = text.lines().collect();
    assert_eq!(lines.len(), 3);
    assert_eq!(lines[2], "db $83,$7F,$80,$81");
}

#[test]
fn words_of_two_bytes() {
    let table = words_table(
        vec![HdmaRow::new_repeat(3, &[0x34, 0x12]), HdmaRow::Finish],
        2,
    );
    assert_eq!(table.write_table(), "table:\ndb $03 : dw $1234\ndb $00\n");
}

#[test]
fn words_of_four_bytes() {
    let table = words_table(vec![HdmaRow::new_repeat(3, &[0x00, 0x05, 0x34, 0x12])], 4);
    assert_eq!(table.write_table(), "table:\ndb $03 : dw $0500,$1234\n");
}

#[test]
fn words_of_one_and_of_three_bytes_are_whole_words() {
    let table = words_table(vec![HdmaRow::new_repeat(1, &[0x0A, 0x0B, 0x0C, 0x0D])], 1);
    assert_eq!(table.write_table(), "table:\ndb $01 : dw $0B0A\n");
    let table = words_table(vec![HdmaRow::new_repeat(1, &[0x0A, 0x0B, 0x0C, 0x0D])], 3);
    assert_eq!(table.write_table(), "table:\ndb $01 : dw $0B0A,$0D0C\n");
}

#[test]
fn continuous_row_in_words() {
    let table = words_table(vec![HdmaRow::new_continuous(&[0x34, 0x12, 0x78, 0x56], 2)], 2);
    assert_eq!(table.write_table(), "table:\ndb $82 : dw $1234 : dw $5678\n");
    let table = words_table(
        vec![HdmaRow::new_continuous(&[0, 1, 0x34, 0x12, 0, 2, 0x78, 0x56], 4)],
        4,
    );
    assert_eq!(table.write_table(), "table:\ndb $82 : dw $0100,$1234 : dw $0200,$5678\n");
}

#[test]
fn repeat_in_words_is_split_at_the_limit() {
    let table = words_table(vec![HdmaRow::new_repeat(0x85, &[0xFF, 0x7F])], 2);
    assert_eq!(table.write_table(), "table:\ndb $80 : dw $7FFF\ndb $05 : dw $7FFF\n");
}

#[test]
fn every_hexadecimal_digit_is_upper_case() {
    let table = bytes_table(
        vec![
            HdmaRow::new_continuous(
                &[0x01, 0x23, 0x45, 0x67, 0x89, 0xAB, 0xCD, 0xEF, 0x10, 0x32, 0x54, 0x76, 0x98, 0xBA, 0xDC, 0xFE],
                4,
            ),
        ],
        4,
        0x80,
    );
    assert_eq!(
        table.write_table(),
        "table:\ndb $84,$01,$23,$45,$67,$89,$AB,$CD,$EF,$10,$32,$54,$76,$98,$BA,$DC,$FE\n"
    );
}

#[test]
fn coalesced_table_as_text() {
    let mut table = HdmaTable::new_real_table(Vec::new(), 1, HdmaWriteMode::Bytes, "blue_table");
    for value in [0x80u8, 0x80, 0x80, 0x81, 0x82, 0x83, 0x83, 0x84] {
        table.push(HdmaRow::new_scanline(&[value]));
    }
    table.coagulate();
    assert_eq!(
        table.write_table(),
        "blue_table:\ndb $03,$80\ndb $82,$81,$82\ndb $02,$83\ndb $01,$84\ndb $00\n"
    );
}

#[test]
fn written_lines_read_back_as_the_scanlines() {
    let mut rows = Vec::new();
    let mut expected: Vec<Vec<u8>> = Vec::new();
    rows.push(HdmaRow::new_repeat(300, &[1, 2]));
    for _ in 0..300 {
        expected.push(vec![1, 2]);
    }
    let values: Vec<u8> = (0..=255u16).flat_map(|i| [i as u8, (i / 2) as u8]).collect();
    rows.push(HdmaRow::new_continuous(&values, 2));
    for pair in values.chunks(2) {
        expected.push(pair.to_vec());
    }
    rows.push(HdmaRow::new_repeat(0x80, &[9, 9]));
    for _ in 0..0x80 {
        expected.push(vec![9, 9]);
    }
    rows.push(HdmaRow::new_repeat(1, &[7, 0]));
    expected.push(vec![7, 0]);
    rows.push(HdmaRow::Finish);
    let text = bytes_table(rows, 2, 0x80).write_table();
    assert_eq!(read_back(&text, 2), expected);
}

#[test]
fn coalesced_scanlines_read_back_but_for_the_cut() {
    let values: Vec<u8> = vec![3, 3, 3, 4, 5, 6, 6, 7, 8, 9, 9, 9, 9];
    let mut table = HdmaTable::new_real_table(Vec::new(), 1, HdmaWriteMode::Bytes, "table");
    for value in &values {
        table.push(HdmaRow::new_scanline(&[*value]));
    }
    table.coagulate();
    let text = table.write_table();
    let expected: Vec<Vec<u8>> = values[..values.len() - 3].iter().map(|v| vec![*v]).collect();
    assert_eq!(read_back(&text, 1), expected);
}
