use hdma_gradient::hdma::{HdmaRow, HdmaTable, HdmaWriteMode};

fn real_table(payloads: &[&[u8]]) -> HdmaTable {
    let mut table = HdmaTable::new_real_table(Vec::new(), 1, HdmaWriteMode::Bytes, "table");
    for payload in payloads {
        table.push(HdmaRow::new_scanline(payload));
    }
    table
}

fn table_of(rows: Vec<HdmaRow>) -> HdmaTable {
    HdmaTable::new_real_table(rows, 1, HdmaWriteMode::Bytes, "table")
}

fn repeat(count: usize, value: u8) -> HdmaRow {
    HdmaRow::Repeat { count, data: [value, 0, 0, 0] }
}

fn continuous(values: &[u8]) -> HdmaRow {
    HdmaRow::Continuous { data: values.iter().map(|v| [*v, 0, 0, 0]).collect() }
}

fn line_total(rows: &Vec<HdmaRow>) -> usize {
    let mut total = 0;
    for row in rows {
        match row {
            HdmaRow::Repeat { count, .. } => total += count,
            HdmaRow::Continuous { data } => total += data.len(),
            HdmaRow::Finish => {}
        }
    }
    total
}

#[test]
fn equal_pair_then_other_value() {
    let mut table = real_table(&[&[1], &[1], &[2]]);
    table.coagulate();
    assert_eq!(table.rows(), &vec![repeat(2, 1), repeat(1, 2), HdmaRow::Finish]);
}

#[test]
fn distinct_values_become_one_continuous_row() {
    let mut table = real_table(&[&[1], &[2], &[3]]);
    table.coagulate();
    assert_eq!(table.rows(), &vec![continuous(&[1, 2, 3]), HdmaRow::Finish]);
}

#[test]
fn no_rows_coalesce_to_the_end_marker() {
    let mut table = real_table(&[]);
    table.coagulate();
    assert_eq!(table.rows(), &vec![HdmaRow::Finish]);
    let mut table = real_table(&[]);
    table.coagulate_repeat();
    assert_eq!(table.rows(), &vec![HdmaRow::Finish]);
}

#[test]
fn one_row_stays_one_row() {
    let mut table = real_table(&[&[5]]);
    table.coagulate();
    assert_eq!(table.rows(), &vec![repeat(1, 5), HdmaRow::Finish]);
}

#[test]
fn equal_run_is_cut_to_one_scanline_at_the_end() {
    let mut table = real_table(&[&[4], &[4], &[4], &[4]]);
    table.coagulate();
    assert_eq!(table.rows(), &vec![repeat(1, 4), HdmaRow::Finish]);
}

#[test]
fn equal_run_in_the_middle_keeps_its_count() {
    let mut table = real_table(&[&[4], &[4], &[4], &[5], &[5]]);
    table.coagulate();
    assert_eq!(table.rows(), &vec![repeat(3, 4), repeat(1, 5), HdmaRow::Finish]);
}

#[test]
fn value_met_again_leaves_the_continuous_row() {
    let mut table = real_table(&[&[1], &[2], &[3], &[3], &[3], &[4], &[5]]);
    table.coagulate();
    assert_eq!(
        table.rows(),
        &vec![continuous(&[1, 2]), repeat(3, 3), continuous(&[4, 5]), HdmaRow::Finish]
    );
}

#[test]
fn value_met_again_at_the_end_is_cut_to_one() {
    let mut table = real_table(&[&[1], &[2], &[2]]);
    table.coagulate();
    assert_eq!(table.rows(), &vec![continuous(&[1]), repeat(1, 2), HdmaRow::Finish]);
}

#[test]
fn single_scanline_before_continuous_row_is_put_in_front() {
    let mut table = table_of(vec![repeat(1, 9), continuous(&[1, 2])]);
    table.coagulate();
    assert_eq!(table.rows(), &vec![continuous(&[9, 1, 2]), HdmaRow::Finish]);
}

#[test]
fn longer_repeat_before_continuous_row_stays() {
    let mut table = table_of(vec![repeat(2, 9), continuous(&[1, 2])]);
    table.coagulate();
    assert_eq!(table.rows(), &vec![repeat(2, 9), continuous(&[1, 2]), HdmaRow::Finish]);
}

#[test]
fn continuous_rows_are_joined() {
    let mut table = table_of(vec![continuous(&[1, 2]), continuous(&[3]), continuous(&[4, 5])]);
    table.coagulate();
    assert_eq!(table.rows(), &vec![continuous(&[1, 2, 3, 4, 5]), HdmaRow::Finish]);
}

#[test]
fn repeat_counts_are_added() {
    let mut table = table_of(vec![repeat(3, 7), repeat(4, 7), repeat(2, 8), repeat(1, 8)]);
    table.coagulate();
    assert_eq!(table.rows(), &vec![repeat(7, 7), repeat(1, 8), HdmaRow::Finish]);
}

#[test]
fn longer_repeat_behind_continuous_row_stays() {
    let mut table = table_of(vec![continuous(&[1, 2]), repeat(2, 2), repeat(1, 3)]);
    table.coagulate();
    assert_eq!(
        table.rows(),
        &vec![continuous(&[1, 2]), repeat(2, 2), repeat(1, 3), HdmaRow::Finish]
    );
}

#[test]
fn rows_around_an_end_marker_stay() {
    let mut table = table_of(vec![repeat(1, 1), HdmaRow::Finish, repeat(1, 1)]);
    table.coagulate();
    assert_eq!(
        table.rows(),
        &vec![repeat(1, 1), HdmaRow::Finish, repeat(1, 1), HdmaRow::Finish]
    );
}

#[test]
fn payloads_differ_in_any_byte() {
    let mut table = HdmaTable::new_real_table(Vec::new(), 4, HdmaWriteMode::Bytes, "table");
    table.push(HdmaRow::new_scanline(&[1, 2, 3, 4]));
    table.push(HdmaRow::new_scanline(&[1, 2, 3, 4]));
    table.push(HdmaRow::new_scanline(&[1, 2, 3, 5]));
    table.push(HdmaRow::new_scanline(&[1, 2, 3, 5]));
    table.push(HdmaRow::new_scanline(&[0, 2, 3, 5]));
    table.coagulate();
    assert_eq!(
        table.rows(),
        &vec![
            HdmaRow::Repeat { count: 2, data: [1, 2, 3, 4] },
            HdmaRow::Repeat { count: 2, data: [1, 2, 3, 5] },
            HdmaRow::Repeat { count: 1, data: [0, 2, 3, 5] },
            HdmaRow::Finish,
        ]
    );
}

#[test]
fn repeat_only_pass_makes_no_continuous_row() {
    let mut table = real_table(&[&[1], &[2], &[3], &[3], &[4]]);
    table.coagulate_repeat();
    assert_eq!(
        table.rows(),
        &vec![repeat(1, 1), repeat(1, 2), repeat(2, 3), repeat(1, 4), HdmaRow::Finish]
    );
}

#[test]
fn repeat_only_pass_keeps_the_last_count() {
    let mut table = real_table(&[&[1], &[2], &[2], &[2]]);
    table.coagulate_repeat();
    assert_eq!(table.rows(), &vec![repeat(1, 1), repeat(3, 2), HdmaRow::Finish]);
}

#[test]
fn repeat_only_pass_leaves_continuous_rows_alone() {
    let mut table = table_of(vec![repeat(1, 1), continuous(&[1, 2]), continuous(&[3]), repeat(1, 3)]);
    table.coagulate_repeat();
    assert_eq!(
        table.rows(),
        &vec![repeat(1, 1), continuous(&[1, 2]), continuous(&[3]), repeat(1, 3), HdmaRow::Finish]
    );
}

#[test]
fn coalescing_keeps_the_number_of_scanlines_but_for_the_cut() {
    let payloads: Vec<[u8; 1]> =
        [1u8, 1, 1, 2, 3, 4, 4, 5, 6, 6, 6, 6].iter().map(|v| [*v]).collect();
    let mut table = HdmaTable::new_real_table(Vec::new(), 1, HdmaWriteMode::Bytes, "table");
    for payload in &payloads {
        table.push(HdmaRow::new_scanline(payload));
    }
    table.coagulate();
    assert_eq!(
        table.rows(),
        &vec![repeat(3, 1), continuous(&[2, 3]), repeat(2, 4), continuous(&[5]), repeat(1, 6), HdmaRow::Finish]
    );
    // the last row stood for four scanlines before the cut
    assert_eq!(line_total(table.rows()) + 3, payloads.len());

    let mut table = HdmaTable::new(Vec::new(), 1, HdmaWriteMode::Bytes, "table", 0xFF);
    for payload in &payloads {
        table.push(HdmaRow::new_scanline(payload));
    }
    table.coagulate_repeat();
    assert_eq!(line_total(table.rows()), payloads.len());
}

#[test]
fn coalescing_again_gives_the_same_rows() {
    let mut table = real_table(&[&[1], &[1], &[2], &[3], &[4], &[4], &[5]]);
    table.coagulate();
    let first: Vec<HdmaRow> = vec![repeat(2, 1), continuous(&[2, 3]), repeat(2, 4), repeat(1, 5), HdmaRow::Finish];
    assert_eq!(table.rows(), &first);
    let mut again = table_of(vec![repeat(2, 1), continuous(&[2, 3]), repeat(2, 4), repeat(1, 5)]);
    again.coagulate();
    assert_eq!(again.rows(), &first);
}

#[test]
fn coalescing_again_joins_a_cut_row_to_the_row_before() {
    let mut table = real_table(&[&[1], &[2], &[2]]);
    table.coagulate();
    assert_eq!(table.rows(), &vec![continuous(&[1]), repeat(1, 2), HdmaRow::Finish]);
    let mut again = table_of(vec![continuous(&[1]), repeat(1, 2)]);
    again.coagulate();
    assert_eq!(again.rows(), &vec![continuous(&[1, 2]), HdmaRow::Finish]);
}

#[test]
fn no_equal_repeat_rows_side_by_side() {
    let mut table = real_table(&[&[1], &[1], &[1], &[2], &[2], &[1], &[1], &[3]]);
    table.coagulate();
    assert_eq!(
        table.rows(),
        &vec![repeat(3, 1), repeat(2, 2), repeat(2, 1), repeat(1, 3), HdmaRow::Finish]
    );
    let rows = table.rows();
    for pair in rows.windows(2) {
        if let (HdmaRow::Repeat { data: a, .. }, HdmaRow::Repeat { data: b, .. }) = (&pair[0], &pair[1]) {
            assert_ne!(a, b);
        }
    }
}

#[test]
fn long_distinct_run_is_one_continuous_row() {
    let values: Vec<u8> = (0..200).map(|i| i as u8).collect();
    let mut table = HdmaTable::new_real_table(Vec::new(), 1, HdmaWriteMode::Bytes, "table");
    for value in &values {
        table.push(HdmaRow::new_scanline(&[*value]));
    }
    table.coagulate();
    assert_eq!(table.rows(), &vec![continuous(&values), HdmaRow::Finish]);
}
