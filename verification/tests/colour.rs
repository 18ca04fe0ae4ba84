use hdma_gradient::colour::{
    create_big_gradient_table, create_cgram_table, create_mode_0_tables, create_mode_2_table,
    get_colour_count, to_cgram_colour, to_fixed_colour, write_table, ColourIndex, HdmaColourMode,
    Colour,
};
use hdma_gradient::hdma::{HdmaRow, HdmaWriteMode};

fn scanline(bytes: [u8; 4]) -> HdmaRow {
    HdmaRow::Repeat { count: 1, data: bytes }
}

fn sample() -> Vec<Colour> {
    vec![Colour([0xFF, 0, 0]), Colour([0xFF, 0, 0]), Colour([0, 0xFF, 0])]
}

#[test]
fn channel_bits_and_positions() {
    assert_eq!(ColourIndex::Red.colour_bit(), 0x20);
    assert_eq!(ColourIndex::Green.colour_bit(), 0x40);
    assert_eq!(ColourIndex::Blue.colour_bit(), 0x80);
    assert_eq!(ColourIndex::Red.index(), 0);
    assert_eq!(ColourIndex::Green.index(), 1);
    assert_eq!(ColourIndex::Blue.index(), 2);
}

#[test]
fn fixed_colour_is_the_upper_five_bits_and_the_channel_bit() {
    let colour = Colour([0xFF, 0x80, 0x07]);
    assert_eq!(to_fixed_colour(colour, ColourIndex::Red), 0x3F);
    assert_eq!(to_fixed_colour(colour, ColourIndex::Green), 0x50);
    assert_eq!(to_fixed_colour(colour, ColourIndex::Blue), 0x80);
    assert_eq!(to_fixed_colour(Colour([8, 15, 255]), ColourIndex::Red), 0x21);
    assert_eq!(to_fixed_colour(Colour([8, 15, 255]), ColourIndex::Green), 0x41);
    assert_eq!(to_fixed_colour(Colour([8, 15, 255]), ColourIndex::Blue), 0x9F);
}

#[test]
fn packed_colour_has_red_lowest() {
    assert_eq!(to_cgram_colour(Colour([0xFF, 0xFF, 0xFF])), 0x7FFF);
    assert_eq!(to_cgram_colour(Colour([0, 0, 0])), 0);
    assert_eq!(to_cgram_colour(Colour([8, 16, 24])), 0x0C41);
    assert_eq!(to_cgram_colour(Colour([0xFF, 0, 0])), 0x001F);
    assert_eq!(to_cgram_colour(Colour([0, 0xFF, 0])), 0x03E0);
    assert_eq!(to_cgram_colour(Colour([0, 0, 0xFF])), 0x7C00);
    assert_eq!(to_cgram_colour(Colour([7, 7, 7])), 0);
}

#[test]
fn three_tables_of_one_channel_each() {
    let [red, green, blue] = create_mode_0_tables(sample());
    assert_eq!(red.table_name(), "red_table");
    assert_eq!(green.table_name(), "green_table");
    assert_eq!(blue.table_name(), "blue_table");
    for table in [&red, &green, &blue] {
        assert_eq!(table.row_size(), 1);
        assert_eq!(table.max_row_count(), 0x80);
        assert_eq!(table.write_mode(), HdmaWriteMode::Bytes);
    }
    assert_eq!(
        red.rows(),
        &vec![scanline([0x3F, 0, 0, 0]), scanline([0x3F, 0, 0, 0]), scanline([0x20, 0, 0, 0])]
    );
    assert_eq!(
        green.rows(),
        &vec![scanline([0x40, 0, 0, 0]), scanline([0x40, 0, 0, 0]), scanline([0x5F, 0, 0, 0])]
    );
    assert_eq!(
        blue.rows(),
        &vec![scanline([0x80, 0, 0, 0]), scanline([0x80, 0, 0, 0]), scanline([0x80, 0, 0, 0])]
    );
}

#[test]
fn big_gradient_table_holds_all_channels() {
    let table = create_big_gradient_table(sample());
    assert_eq!(table.table_name(), "gradient_table");
    assert_eq!(table.row_size(), 3);
    assert_eq!(table.max_row_count(), 0xFF);
    assert_eq!(table.write_mode(), HdmaWriteMode::Bytes);
    assert_eq!(
        table.rows(),
        &vec![
            scanline([0x3F, 0x40, 0x80, 0]),
            scanline([0x3F, 0x40, 0x80, 0]),
            scanline([0x20, 0x5F, 0x80, 0]),
        ]
    );
}

#[test]
fn packed_colour_table_without_index() {
    let table = create_cgram_table(sample(), None);
    assert_eq!(table.table_name(), "colour_table");
    assert_eq!(table.row_size(), 2);
    assert_eq!(table.max_row_count(), 0x80);
    assert_eq!(table.write_mode(), HdmaWriteMode::Words);
    assert_eq!(
        table.rows(),
        &vec![scanline([0x1F, 0, 0, 0]), scanline([0x1F, 0, 0, 0]), scanline([0xE0, 0x03, 0, 0])]
    );
}

#[test]
fn packed_colour_table_with_index() {
    let table = create_cgram_table(vec![Colour([0xFF, 0xFF, 0xFF]), Colour([8, 16, 24])], Some(5));
    assert_eq!(table.row_size(), 4);
    assert_eq!(
        table.rows(),
        &vec![scanline([0, 5, 0xFF, 0x7F]), scanline([0, 5, 0x41, 0x0C])]
    );
}

#[test]
fn counts_start_at_one() {
    assert_eq!(
        get_colour_count(&Vec::new()),
        [(1, ColourIndex::Red), (1, ColourIndex::Green), (1, ColourIndex::Blue)]
    );
    assert_eq!(
        get_colour_count(&vec![Colour([1, 2, 3])]),
        [(1, ColourIndex::Red), (1, ColourIndex::Green), (1, ColourIndex::Blue)]
    );
}

#[test]
fn counts_go_up_where_the_remembered_value_is_the_red_value() {
    let colours = vec![Colour([7, 0, 0]), Colour([7, 0, 0]), Colour([7, 0, 0]), Colour([0, 0, 0])];
    assert_eq!(
        get_colour_count(&colours),
        [(3, ColourIndex::Red), (2, ColourIndex::Green), (2, ColourIndex::Blue)]
    );
    let colours = vec![Colour([1, 1, 5]), Colour([1, 2, 5]), Colour([5, 2, 5])];
    assert_eq!(
        get_colour_count(&colours),
        [(2, ColourIndex::Red), (2, ColourIndex::Green), (2, ColourIndex::Blue)]
    );
    let colours = vec![Colour([7, 1, 7]), Colour([7, 1, 7]), Colour([7, 1, 7])];
    assert_eq!(
        get_colour_count(&colours),
        [(3, ColourIndex::Red), (1, ColourIndex::Green), (3, ColourIndex::Blue)]
    );
}

#[test]
fn two_tables_with_red_alone() {
    let colours = vec![Colour([7, 0, 0]), Colour([7, 0, 0]), Colour([7, 0, 0]), Colour([0, 0, 0])];
    let [single, dual] = create_mode_2_table(colours);
    assert_eq!(single.table_name(), "red_table");
    assert_eq!(dual.table_name(), "green_blue_table");
    assert_eq!(single.row_size(), 1);
    assert_eq!(dual.row_size(), 2);
    assert_eq!(single.max_row_count(), 0x80);
    assert_eq!(dual.max_row_count(), 0x80);
    assert_eq!(
        single.rows(),
        &vec![
            scanline([0x20, 0, 0, 0]),
            scanline([0x20, 0, 0, 0]),
            scanline([0x20, 0, 0, 0]),
            scanline([0x20, 0, 0, 0]),
        ]
    );
    assert_eq!(
        dual.rows(),
        &vec![
            scanline([0x40, 0x80, 0, 0]),
            scanline([0x40, 0x80, 0, 0]),
            scanline([0x40, 0x80, 0, 0]),
            scanline([0x40, 0x80, 0, 0]),
        ]
    );
}

#[test]
fn two_tables_with_red_alone_as_the_lowest_count() {
    let colours =
        vec![Colour([60, 50, 50]), Colour([50, 50, 50]), Colour([60, 50, 50]), Colour([50, 50, 50])];
    assert_eq!(
        get_colour_count(&colours),
        [(1, ColourIndex::Red), (3, ColourIndex::Green), (3, ColourIndex::Blue)]
    );
    let [single, dual] = create_mode_2_table(colours);
    assert_eq!(single.table_name(), "red_table");
    assert_eq!(dual.table_name(), "green_blue_table");
}

#[test]
fn two_tables_with_green_alone() {
    let colours = vec![Colour([7, 1, 7]), Colour([7, 1, 7]), Colour([7, 1, 7])];
    let [single, dual] = create_mode_2_table(colours);
    assert_eq!(single.table_name(), "green_table");
    assert_eq!(dual.table_name(), "red_blue_table");
    assert_eq!(single.rows()[0], scanline([0x40, 0, 0, 0]));
    assert_eq!(dual.rows()[0], scanline([0x20, 0x80, 0, 0]));
}

#[test]
fn two_tables_with_blue_alone_where_counts_are_equal() {
    let [single, dual] = create_mode_2_table(Vec::new());
    assert_eq!(single.table_name(), "blue_table");
    assert_eq!(dual.table_name(), "red_green_table");
    assert!(single.rows().is_empty());
    assert!(dual.rows().is_empty());
    let [single, dual] = create_mode_2_table(sample());
    assert_eq!(single.table_name(), "blue_table");
    assert_eq!(dual.table_name(), "red_green_table");
    assert_eq!(dual.rows()[2], scanline([0x20, 0x5F, 0, 0]));
}

#[test]
fn listing_of_three_tables() {
    assert_eq!(
        write_table(HdmaColourMode::FixedClourThree, None, sample(), true),
        "red_table:\ndb $02,$3F\ndb $01,$20\ndb $00\n\n\
         green_table:\ndb $02,$40\ndb $01,$5F\ndb $00\n\n\
         blue_table:\ndb $01,$80\ndb $00\n\n"
    );
}

#[test]
fn listing_of_three_tables_as_they_are() {
    assert_eq!(
        write_table(HdmaColourMode::FixedClourThree, None, sample(), false),
        "red_table:\ndb $01,$3F\ndb $01,$3F\ndb $01,$20\n\n\
         green_table:\ndb $01,$40\ndb $01,$40\ndb $01,$5F\n\n\
         blue_table:\ndb $01,$80\ndb $01,$80\ndb $01,$80\n\n"
    );
}

#[test]
fn listing_of_two_tables() {
    assert_eq!(
        write_table(HdmaColourMode::FixedClourTwo, None, sample(), true),
        "blue_table:\ndb $01,$80\ndb $00\n\n\
         red_green_table:\ndb $02,$3F,$40\ndb $01,$20,$5F\ndb $00\n\n"
    );
}

#[test]
fn listing_of_the_big_gradient() {
    assert_eq!(
        write_table(HdmaColourMode::BigGradient, None, sample(), true),
        "gradient_table:\ndb $02,$3F,$40,$80\ndb $01,$20,$5F,$80\ndb $00\n"
    );
    let colours = vec![Colour([0, 0, 0]), Colour([0, 0, 0]), Colour([0, 0, 0])];
    assert_eq!(
        write_table(HdmaColourMode::BigGradient, None, colours, true),
        "gradient_table:\ndb $03,$20,$40,$80\ndb $00\n"
    );
}

#[test]
fn listing_of_packed_colours() {
    assert_eq!(
        write_table(HdmaColourMode::CgRam, None, sample(), true),
        "colour_table:\ndb $02 : dw $001F\ndb $01 : dw $03E0\ndb $00\n"
    );
    assert_eq!(
        write_table(HdmaColourMode::CgRam, Some(5), sample(), false),
        "colour_table:\ndb $01 : dw $0500,$001F\ndb $01 : dw $0500,$001F\ndb $01 : dw $0500,$03E0\n"
    );
}

#[test]
fn listing_of_no_colours() {
    assert_eq!(
        write_table(HdmaColourMode::FixedClourThree, None, Vec::new(), true),
        "red_table:\ndb $00\n\ngreen_table:\ndb $00\n\nblue_table:\ndb $00\n\n"
    );
    assert_eq!(write_table(HdmaColourMode::CgRam, None, Vec::new(), false), "colour_table:\n");
}
