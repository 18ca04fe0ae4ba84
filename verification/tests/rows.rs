use hdma_gradient::hdma::{HdmaRow, HdmaTable, HdmaWriteMode};

#[test]
fn new_repeat_pads_short_payload_with_zeroes() {
    assert_eq!(HdmaRow::new_repeat(5, &[7, 8]), HdmaRow::Repeat { count: 5, data: [7, 8, 0, 0] });
}

#[test]
fn new_repeat_keeps_four_bytes() {
    assert_eq!(
        HdmaRow::new_repeat(1, &[1, 2, 3, 4]),
        HdmaRow::Repeat { count: 1, data: [1, 2, 3, 4] }
    );
}

#[test]
fn new_repeat_drops_bytes_behind_the_fourth() {
    assert_eq!(
        HdmaRow::new_repeat(2, &[1, 2, 3, 4, 5, 6]),
        HdmaRow::Repeat { count: 2, data: [1, 2, 3, 4] }
    );
}

#[test]
fn new_repeat_of_no_bytes_is_all_zero() {
    assert_eq!(HdmaRow::new_repeat(3, &[]), HdmaRow::Repeat { count: 3, data: [0, 0, 0, 0] });
}

#[test]
fn new_scanline_is_a_repeat_of_one() {
    assert_eq!(HdmaRow::new_scanline(&[0x2A]), HdmaRow::Repeat { count: 1, data: [0x2A, 0, 0, 0] });
    assert_eq!(HdmaRow::new_scanline(&[0x2A]), HdmaRow::new_repeat(1, &[0x2A]));
}

#[test]
fn new_continuous_groups_bytes_evenly() {
    assert_eq!(
        HdmaRow::new_continuous(&[1, 2, 3, 4, 5, 6], 2),
        HdmaRow::Continuous { data: vec![[1, 2, 0, 0], [3, 4, 0, 0], [5, 6, 0, 0]] }
    );
}

#[test]
fn new_continuous_pads_the_last_slot() {
    assert_eq!(
        HdmaRow::new_continuous(&[1, 2, 3, 4, 5], 3),
        HdmaRow::Continuous { data: vec![[1, 2, 3, 0], [4, 5, 0, 0]] }
    );
}

#[test]
fn new_continuous_with_step_one_and_four() {
    assert_eq!(
        HdmaRow::new_continuous(&[9, 8, 7], 1),
        HdmaRow::Continuous { data: vec![[9, 0, 0, 0], [8, 0, 0, 0], [7, 0, 0, 0]] }
    );
    assert_eq!(
        HdmaRow::new_continuous(&[1, 2, 3, 4, 5, 6, 7, 8, 9], 4),
        HdmaRow::Continuous { data: vec![[1, 2, 3, 4], [5, 6, 7, 8], [9, 0, 0, 0]] }
    );
}

#[test]
fn new_continuous_of_no_bytes_has_no_slots() {
    assert_eq!(HdmaRow::new_continuous(&[], 2), HdmaRow::Continuous { data: vec![] });
}

#[test]
fn new_table_keeps_what_it_is_given() {
    let table = HdmaTable::new(
        vec![HdmaRow::new_scanline(&[1]), HdmaRow::Finish],
        3,
        HdmaWriteMode::Words,
        "curve",
        0xFF,
    );
    assert_eq!(table.rows(), &vec![HdmaRow::Repeat { count: 1, data: [1, 0, 0, 0] }, HdmaRow::Finish]);
    assert_eq!(table.row_size(), 3);
    assert_eq!(table.max_row_count(), 0xFF);
    assert_eq!(table.write_mode(), HdmaWriteMode::Words);
    assert_eq!(table.table_name(), "curve");
}

#[test]
fn real_table_has_the_hardware_limit() {
    let table = HdmaTable::new_real_table(Vec::new(), 1, HdmaWriteMode::Bytes, "real");
    assert_eq!(table.max_row_count(), 0x80);
    assert_eq!(HdmaTable::MAX_REP_ROWS, 0x80);
    assert_eq!(HdmaTable::MAX_CONT_ROWS, 0x7F);
    assert_eq!(HdmaTable::CONT_BIT, 0x80);
    assert!(table.rows().is_empty());
}

#[test]
fn push_appends_in_order() {
    let mut table = HdmaTable::new_real_table(Vec::new(), 2, HdmaWriteMode::Bytes, "t");
    table.push(HdmaRow::new_scanline(&[1, 2]));
    table.push(HdmaRow::new_repeat(4, &[3, 4]));
    table.push(HdmaRow::Finish);
    assert_eq!(
        table.rows(),
        &vec![
            HdmaRow::Repeat { count: 1, data: [1, 2, 0, 0] },
            HdmaRow::Repeat { count: 4, data: [3, 4, 0, 0] },
            HdmaRow::Finish,
        ]
    );
}
