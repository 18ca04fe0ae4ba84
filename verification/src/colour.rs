//! From the colours of a strip of pixels to tables and their listing.

use crate::coalesce::{coalesced, coalesced_repeat};
use crate::coalesce_proofs::lemma_flat_rows_mergeable;
use crate::hdma::{padded, HdmaRow, HdmaTable, HdmaWriteMode, RowView, TableView};
use crate::listing::table_text;
use crate::scanlines::flat;
use vstd::prelude::*;
use vstd::string::StringExecFns;

verus! {

/// Which tables are made of the colours.
#[derive(Copy, Clone, Debug, PartialEq, Eq, Structural)]
pub enum HdmaColourMode {
    /// One table for each of red, green and blue.
    FixedClourThree,
    /// One table for one channel and one for the other two.
    FixedClourTwo,
    /// One table of all three channels, not timed by the hardware.
    BigGradient,
    /// One table of packed 15-bit colours.
    CgRam,
}

/// A channel of a colour.
#[derive(Copy, Clone, Debug, PartialEq, Eq, Structural)]
pub enum ColourIndex {
    Red,
    Green,
    Blue,
}

/// A colour: red, green and blue, eight bits each.
#[derive(Copy, Clone, Debug, PartialEq, Eq)]
pub struct Colour(pub [u8; 3]);

impl ColourIndex {
    /// Where the channel stands in a colour.
    pub open spec fn position(self) -> int {
        match self {
            ColourIndex::Red => 0,
            ColourIndex::Green => 1,
            ColourIndex::Blue => 2,
        }
    }

    /// The bit that marks a value as one of this channel.
    pub open spec fn bit(self) -> nat {
        match self {
            ColourIndex::Red => 0x20,
            ColourIndex::Green => 0x40,
            ColourIndex::Blue => 0x80,
        }
    }

    /// Where the channel stands in a colour.
    pub fn index(&self) -> (index: usize)
        ensures
            index == self.position(),
    {
        match self {
            ColourIndex::Red => 0,
            ColourIndex::Green => 1,
            ColourIndex::Blue => 2,
        }
    }

    /// The bit that marks a value as one of this channel.
    pub fn colour_bit(&self) -> (bit: u8)
        ensures
            bit == self.bit(),
    {
        match self {
            ColourIndex::Red => 0x20,
            ColourIndex::Green => 0x40,
            ColourIndex::Blue => 0x80,
        }
    }
}

/// The value of a channel of a colour.
pub open spec fn channel(colour: Colour, index: ColourIndex) -> u8 {
    colour.0[index.position()]
}

/// The upper five bits of a channel, marked with the bit of the channel.
pub open spec fn fixed_colour(colour: Colour, index: ColourIndex) -> nat {
    (channel(colour, index) / 8 + index.bit()) as nat
}

/// The upper five bits of each channel in one 15-bit word: red lowest, then
/// green, then blue.
pub open spec fn cgram_colour(colour: Colour) -> nat {
    (channel(colour, ColourIndex::Red) / 8 + 32 * (channel(colour, ColourIndex::Green) / 8) + 1024
        * (channel(colour, ColourIndex::Blue) / 8)) as nat
}

/// The upper five bits of a channel, marked with the bit of the channel.
pub fn to_fixed_colour(colour: Colour, colour_index: ColourIndex) -> (value: u8)
    ensures
        value == fixed_colour(colour, colour_index),
{
    let raw: u8 = colour.0[colour_index.index()];
    let bit: u8 = colour_index.colour_bit();
    assert((raw & !0x07u8) / 8 == raw / 8) by (bit_vector);
    assert(raw / 8 < 32) by (bit_vector);
    (raw & !0x07) / 8 + bit
}

/// The colour as one 15-bit word.
pub fn to_cgram_colour(colour: Colour) -> (value: u16)
    ensures
        value == cgram_colour(colour),
{
    let r: u8 = colour.0[ColourIndex::Red.index()];
    let g: u8 = colour.0[ColourIndex::Green.index()];
    let b: u8 = colour.0[ColourIndex::Blue.index()];
    let red: u8 = (r & !0x07) >> 3;
    let green: u8 = (g & !0x07) >> 3;
    let blue: u8 = (b & !0x07) >> 3;
    assert(red == r / 8 && red < 32) by (bit_vector)
        requires
            red == (r & !0x07u8) >> 3,
    ;
    assert(green == g / 8 && green < 32) by (bit_vector)
        requires
            green == (g & !0x07u8) >> 3,
    ;
    assert(blue == b / 8 && blue < 32) by (bit_vector)
        requires
            blue == (b & !0x07u8) >> 3,
    ;
    let value: u16 = ((red as u16) << 0) | ((green as u16) << 5) | ((blue as u16) << 10);
    assert(value == red + 32 * green + 1024 * blue) by (bit_vector)
        requires
            red < 32,
            green < 32,
            blue < 32,
            value == ((red as u16) << 0) | ((green as u16) << 5) | ((blue as u16) << 10),
    ;
    value
}

/// The marked values of `channels` of `colour`, one behind the other.
pub open spec fn fixed_values(colour: Colour, channels: Seq<ColourIndex>) -> Seq<u8> {
    channels.map_values(|index: ColourIndex| fixed_colour(colour, index) as u8)
}

/// The row of one scanline that holds the marked values of `channels` of `colour`.
pub open spec fn fixed_row(colour: Colour, channels: Seq<ColourIndex>) -> RowView {
    RowView::Repeat { count: 1, data: padded(fixed_values(colour, channels)) }
}

/// A table written byte by byte that holds, scanline by scanline, the marked
/// values of `channels` of each colour.
pub open spec fn fixed_table(
    colours: Seq<Colour>,
    channels: Seq<ColourIndex>,
    name: Seq<char>,
    limit: nat,
) -> TableView {
    TableView {
        rows: colours.map_values(|colour: Colour| fixed_row(colour, channels)),
        row_size: channels.len(),
        max_row_count: limit,
        write_mode: HdmaWriteMode::Bytes,
        table_name: name,
    }
}

/// The table of the marked values of `channels` of each colour, one row for
/// each colour.
fn fixed_colour_table(
    colours: &Vec<Colour>,
    channels: &[ColourIndex],
    table_name: &'static str,
    max_row_count: usize,
) -> (table: HdmaTable)
    requires
        1 <= channels@.len() <= 4,
    ensures
        table.wf(),
        table@ == fixed_table(colours@, channels@, table_name@, max_row_count as nat),
{
    let mut table = HdmaTable::new(
        Vec::new(),
        channels.len(),
        HdmaWriteMode::Bytes,
        table_name,
        max_row_count,
    );
    assert(table@.rows =~= fixed_table(
        colours@.take(0),
        channels@,
        table_name@,
        max_row_count as nat,
    ).rows);
    let mut i: usize = 0;
    while i < colours.len()
        invariant
            i <= colours@.len(),
            1 <= channels@.len() <= 4,
            table.wf(),
            table@ == fixed_table(
                colours@.take(i as int),
                channels@,
                table_name@,
                max_row_count as nat,
            ),
        decreases colours@.len() - i,
    {
        let colour = colours[i];
        let mut values: Vec<u8> = Vec::new();
        let mut k: usize = 0;
        while k < channels.len()
            invariant
                k <= channels@.len(),
                values@ == fixed_values(colour, channels@.take(k as int)),
            decreases channels@.len() - k,
        {
            values.push(to_fixed_colour(colour, channels[k]));
            assert(values@ =~= fixed_values(colour, channels@.take(k + 1)));
            k += 1;
        }
        assert(channels@.take(k as int) =~= channels@);
        table.push(HdmaRow::new_scanline(values.as_slice()));
        proof {
            let next = colours@.take(i + 1);
            assert(next.drop_last() =~= colours@.take(i as int));
            assert(next.last() == colour);
            assert(table@.rows =~= fixed_table(
                next,
                channels@,
                table_name@,
                max_row_count as nat,
            ).rows);
        }
        i += 1;
    }
    assert(colours@.take(i as int) =~= colours@);
    table
}

/// The tables of red, of green and of blue.
fn mode_0_tables(colours: &Vec<Colour>) -> (tables: (HdmaTable, HdmaTable, HdmaTable))
    ensures
        tables.0.wf() && tables.1.wf() && tables.2.wf(),
        tables.0@ == fixed_table(colours@, seq![ColourIndex::Red], "red_table"@, 0x80),
        tables.1@ == fixed_table(colours@, seq![ColourIndex::Green], "green_table"@, 0x80),
        tables.2@ == fixed_table(colours@, seq![ColourIndex::Blue], "blue_table"@, 0x80),
{
    let red = [ColourIndex::Red];
    let green = [ColourIndex::Green];
    let blue = [ColourIndex::Blue];
    assert(red@ =~= seq![ColourIndex::Red]);
    assert(green@ =~= seq![ColourIndex::Green]);
    assert(blue@ =~= seq![ColourIndex::Blue]);
    let red_table = fixed_colour_table(colours, &red, "red_table", HdmaTable::MAX_REP_ROWS);
    let green_table = fixed_colour_table(colours, &green, "green_table", HdmaTable::MAX_REP_ROWS);
    let blue_table = fixed_colour_table(colours, &blue, "blue_table", HdmaTable::MAX_REP_ROWS);
    (red_table, green_table, blue_table)
}

/// Three tables, one for each of red, green and blue.
pub fn create_mode_0_tables(colours: Vec<Colour>) -> (tables: [HdmaTable; 3])
    ensures
        tables[0].wf() && tables[1].wf() && tables[2].wf(),
        tables[0]@ == fixed_table(colours@, seq![ColourIndex::Red], "red_table"@, 0x80),
        tables[1]@ == fixed_table(colours@, seq![ColourIndex::Green], "green_table"@, 0x80),
        tables[2]@ == fixed_table(colours@, seq![ColourIndex::Blue], "blue_table"@, 0x80),
{
    let (red_table, green_table, blue_table) = mode_0_tables(&colours);
    [red_table, green_table, blue_table]
}

/// One table of all three channels, with room for 255 scanlines on a line.
pub fn create_big_gradient_table(colours: Vec<Colour>) -> (table: HdmaTable)
    ensures
        table.wf(),
        table@ == fixed_table(
            colours@,
            seq![ColourIndex::Red, ColourIndex::Green, ColourIndex::Blue],
            "gradient_table"@,
            0xFF,
        ),
{
    let channels = [ColourIndex::Red, ColourIndex::Green, ColourIndex::Blue];
    assert(channels@ =~= seq![ColourIndex::Red, ColourIndex::Green, ColourIndex::Blue]);
    fixed_colour_table(&colours, &channels, "gradient_table", 0xFF)
}

/// What is kept for a channel while the colours are walked: how often the
/// remembered value was met again, counted from one, and the remembered value.
pub struct Tally {
    pub count: int,
    pub last: Option<u8>,
}

/// The tally after one more colour. `probe` is held against the remembered
/// value: where they agree the count goes up, else `value` is remembered.
pub open spec fn tally_step(tally: Tally, probe: u8, value: u8) -> Tally {
    if tally.last == Some(probe) {
        Tally { count: tally.count + 1, last: tally.last }
    } else {
        Tally { count: tally.count, last: Some(value) }
    }
}

/// The tally of a channel over the colours. The remembered value of every
/// channel is held against the red value of the colour at hand.
pub open spec fn tally(colours: Seq<Colour>, index: ColourIndex) -> Tally
    decreases colours.len(),
{
    if colours.len() == 0 {
        Tally { count: 1, last: None }
    } else {
        tally_step(
            tally(colours.drop_last(), index),
            channel(colours.last(), ColourIndex::Red),
            channel(colours.last(), index),
        )
    }
}

/// The counts of the three channels, each with its channel.
pub open spec fn colour_counts(colours: Seq<Colour>) -> Seq<(isize, ColourIndex)> {
    seq![
        (tally(colours, ColourIndex::Red).count as isize, ColourIndex::Red),
        (tally(colours, ColourIndex::Green).count as isize, ColourIndex::Green),
        (tally(colours, ColourIndex::Blue).count as isize, ColourIndex::Blue),
    ]
}

/// A count is one at least and goes up by one at most with each colour.
pub proof fn lemma_tally_bounds(colours: Seq<Colour>, index: ColourIndex)
    ensures
        1 <= tally(colours, index).count <= 1 + colours.len(),
    decreases colours.len(),
{
    if colours.len() > 0 {
        lemma_tally_bounds(colours.drop_last(), index);
    }
}

/// The red, green and blue value of a colour.
fn get_colour_triplet(colour: Colour) -> (triplet: (u8, u8, u8))
    ensures
        triplet.0 == channel(colour, ColourIndex::Red),
        triplet.1 == channel(colour, ColourIndex::Green),
        triplet.2 == channel(colour, ColourIndex::Blue),
{
    let red = colour.0[ColourIndex::Red.index()];
    let green = colour.0[ColourIndex::Green.index()];
    let blue = colour.0[ColourIndex::Blue.index()];
    (red, green, blue)
}

/// One step of a tally: the count and the remembered value after `probe` and `value`.
fn count_step(count: isize, last: Option<u8>, probe: u8, value: u8) -> (next: (isize, Option<u8>))
    requires
        count < isize::MAX,
    ensures
        (Tally { count: next.0 as int, last: next.1 }) == tally_step(
            Tally { count: count as int, last },
            probe,
            value,
        ),
{
    match last {
        Some(remembered) => {
            if remembered == probe {
                (count + 1, last)
            } else {
                (count, Some(value))
            }
        },
        None => (count, Some(value)),
    }
}

/// Counts for each channel how often its remembered value was met again.
pub fn get_colour_count(colours: &Vec<Colour>) -> (counts: [(isize, ColourIndex); 3])
    requires
        colours@.len() < isize::MAX,
    ensures
        counts@ == colour_counts(colours@),
{
    let mut counter_red: isize = 1;
    let mut counter_green: isize = 1;
    let mut counter_blue: isize = 1;
    let mut last_red: Option<u8> = None;
    let mut last_green: Option<u8> = None;
    let mut last_blue: Option<u8> = None;
    let mut i: usize = 0;
    while i < colours.len()
        invariant
            i <= colours@.len() < isize::MAX,
            (Tally { count: counter_red as int, last: last_red }) == tally(
                colours@.take(i as int),
                ColourIndex::Red,
            ),
            (Tally { count: counter_green as int, last: last_green }) == tally(
                colours@.take(i as int),
                ColourIndex::Green,
            ),
            (Tally { count: counter_blue as int, last: last_blue }) == tally(
                colours@.take(i as int),
                ColourIndex::Blue,
            ),
        decreases colours@.len() - i,
    {
        let (current_red, current_green, current_blue) = get_colour_triplet(colours[i]);
        proof {
            let seen = colours@.take(i as int);
            lemma_tally_bounds(seen, ColourIndex::Red);
            lemma_tally_bounds(seen, ColourIndex::Green);
            lemma_tally_bounds(seen, ColourIndex::Blue);
            assert(colours@.take(i + 1).drop_last() =~= seen);
            assert(colours@.take(i + 1).last() == colours@[i as int]);
        }
        let red = count_step(counter_red, last_red, current_red, current_red);
        let green = count_step(counter_green, last_green, current_red, current_green);
        let blue = count_step(counter_blue, last_blue, current_red, current_blue);
        counter_red = red.0;
        last_red = red.1;
        counter_green = green.0;
        last_green = green.1;
        counter_blue = blue.0;
        last_blue = blue.1;
        i += 1;
    }
    assert(colours@.take(i as int) =~= colours@);
    let counts = [
        (counter_red, ColourIndex::Red),
        (counter_green, ColourIndex::Green),
        (counter_blue, ColourIndex::Blue),
    ];
    assert(counts@ =~= colour_counts(colours@));
    counts
}

/// Three counts in ascending order. Counts that are equal keep the order
/// that they came in.
pub open spec fn sorted_counts(counts: Seq<(isize, ColourIndex)>) -> Seq<(isize, ColourIndex)> {
    let (low, high) = if counts[1].0 < counts[0].0 {
        (counts[1], counts[0])
    } else {
        (counts[0], counts[1])
    };
    if counts[2].0 < low.0 {
        seq![counts[2], low, high]
    } else if counts[2].0 < high.0 {
        seq![low, counts[2], high]
    } else {
        seq![low, high, counts[2]]
    }
}

/// `sorted_counts` holds the three counts in ascending order, each once, and
/// equal counts in the order that they came in.
pub proof fn lemma_sorted_counts(counts: Seq<(isize, ColourIndex)>)
    requires
        counts.len() == 3,
    ensures
        sorted_counts(counts).len() == 3,
        sorted_counts(counts)[0].0 <= sorted_counts(counts)[1].0 <= sorted_counts(counts)[2].0,
        exists|i: int, j: int, k: int|
            {
                &&& 0 <= i < 3 && 0 <= j < 3 && 0 <= k < 3
                &&& i != j && j != k && i != k
                &&& sorted_counts(counts) == seq![counts[i], counts[j], counts[k]]
                &&& counts[i].0 == counts[j].0 ==> i < j
                &&& counts[j].0 == counts[k].0 ==> j < k
            },
{
    let sorted = sorted_counts(counts);
    let i = if sorted[0] == counts[0] && counts[0].0 <= counts[1].0 && counts[0].0 <= counts[2].0 {
        0int
    } else if sorted[0] == counts[1] && counts[1].0 <= counts[2].0 {
        1int
    } else {
        2int
    };
    let k = if counts[2].0 >= counts[0].0 && counts[2].0 >= counts[1].0 {
        2int
    } else if counts[1].0 >= counts[0].0 {
        1int
    } else {
        0int
    };
    let j = 3 - i - k;
    assert(sorted =~= seq![counts[i], counts[j], counts[k]]);
}

/// The distance between two counts.
pub open spec fn gap(a: int, b: int) -> int {
    if a < b {
        b - a
    } else {
        a - b
    }
}

/// The channel that gets a table of its own: of the counts in ascending
/// order, the lowest if it is further from the middle one than the highest
/// is, else the highest.
pub open spec fn single_channel(counts: Seq<(isize, ColourIndex)>) -> ColourIndex {
    let sorted = sorted_counts(counts);
    if gap(sorted[0].0 as int, sorted[1].0 as int) > gap(sorted[1].0 as int, sorted[2].0 as int) {
        sorted[0].1
    } else {
        sorted[2].1
    }
}

/// The two channels that share a table where `single` has its own.
pub open spec fn dual_channels(single: ColourIndex) -> Seq<ColourIndex> {
    match single {
        ColourIndex::Red => seq![ColourIndex::Green, ColourIndex::Blue],
        ColourIndex::Green => seq![ColourIndex::Red, ColourIndex::Blue],
        ColourIndex::Blue => seq![ColourIndex::Red, ColourIndex::Green],
    }
}

/// The label of the table of one channel.
pub open spec fn single_name(single: ColourIndex) -> Seq<char> {
    match single {
        ColourIndex::Red => "red_table"@,
        ColourIndex::Green => "green_table"@,
        ColourIndex::Blue => "blue_table"@,
    }
}

/// The label of the table of the two channels beside `single`.
pub open spec fn dual_name(single: ColourIndex) -> Seq<char> {
    match single {
        ColourIndex::Red => "green_blue_table"@,
        ColourIndex::Green => "red_blue_table"@,
        ColourIndex::Blue => "red_green_table"@,
    }
}

/// The three counts in ascending order, equal counts in the order that they came in.
fn sort_counts(counts: [(isize, ColourIndex); 3]) -> (sorted: [(isize, ColourIndex); 3])
    ensures
        sorted@ == sorted_counts(counts@),
{
    let (low, high) = if counts[1].0 < counts[0].0 {
        (counts[1], counts[0])
    } else {
        (counts[0], counts[1])
    };
    let sorted = if counts[2].0 < low.0 {
        [counts[2], low, high]
    } else if counts[2].0 < high.0 {
        [low, counts[2], high]
    } else {
        [low, high, counts[2]]
    };
    assert(sorted@ =~= sorted_counts(counts@));
    sorted
}

/// The distance between two counts that are not negative.
fn count_gap(a: isize, b: isize) -> (distance: isize)
    requires
        0 <= a,
        0 <= b,
    ensures
        distance == gap(a as int, b as int),
{
    if a < b {
        b - a
    } else {
        a - b
    }
}

/// The table of the channel whose count stands furthest from the other two,
/// and the table of the other two channels.
fn mode_2_tables(colours: &Vec<Colour>) -> (tables: (HdmaTable, HdmaTable))
    requires
        colours@.len() < isize::MAX,
    ensures
        tables.0.wf() && tables.1.wf(),
        tables.0@ == fixed_table(
            colours@,
            seq![single_channel(colour_counts(colours@))],
            single_name(single_channel(colour_counts(colours@))),
            0x80,
        ),
        tables.1@ == fixed_table(
            colours@,
            dual_channels(single_channel(colour_counts(colours@))),
            dual_name(single_channel(colour_counts(colours@))),
            0x80,
        ),
{
    let colour_count = sort_counts(get_colour_count(colours));
    proof {
        lemma_tally_bounds(colours@, ColourIndex::Red);
        lemma_tally_bounds(colours@, ColourIndex::Green);
        lemma_tally_bounds(colours@, ColourIndex::Blue);
        lemma_sorted_counts(colour_counts(colours@));
    }
    let single_colour = if count_gap(colour_count[0].0, colour_count[1].0) > count_gap(
        colour_count[1].0,
        colour_count[2].0,
    ) {
        colour_count[0].1
    } else {
        colour_count[2].1
    };
    assert(single_colour == single_channel(colour_counts(colours@)));
    let single = [single_colour];
    assert(single@ =~= seq![single_colour]);
    match single_colour {
        ColourIndex::Red => {
            let dual = [ColourIndex::Green, ColourIndex::Blue];
            assert(dual@ =~= dual_channels(single_colour));
            let single_table = fixed_colour_table(
                colours,
                &single,
                "red_table",
                HdmaTable::MAX_REP_ROWS,
            );
            let dual_table = fixed_colour_table(
                colours,
                &dual,
                "green_blue_table",
                HdmaTable::MAX_REP_ROWS,
            );
            (single_table, dual_table)
        },
        ColourIndex::Green => {
            let dual = [ColourIndex::Red, ColourIndex::Blue];
            assert(dual@ =~= dual_channels(single_colour));
            let single_table = fixed_colour_table(
                colours,
                &single,
                "green_table",
                HdmaTable::MAX_REP_ROWS,
            );
            let dual_table = fixed_colour_table(
                colours,
                &dual,
                "red_blue_table",
                HdmaTable::MAX_REP_ROWS,
            );
            (single_table, dual_table)
        },
        ColourIndex::Blue => {
            let dual = [ColourIndex::Red, ColourIndex::Green];
            assert(dual@ =~= dual_channels(single_colour));
            let single_table = fixed_colour_table(
                colours,
                &single,
                "blue_table",
                HdmaTable::MAX_REP_ROWS,
            );
            let dual_table = fixed_colour_table(
                colours,
                &dual,
                "red_green_table",
                HdmaTable::MAX_REP_ROWS,
            );
            (single_table, dual_table)
        },
    }
}

/// Two tables: one for the channel whose count stands furthest from the
/// other two, and one for the other two channels together.
pub fn create_mode_2_table(colours: Vec<Colour>) -> (tables: [HdmaTable; 2])
    requires
        colours@.len() < isize::MAX,
    ensures
        tables[0].wf() && tables[1].wf(),
        tables[0]@ == fixed_table(
            colours@,
            seq![single_channel(colour_counts(colours@))],
            single_name(single_channel(colour_counts(colours@))),
            0x80,
        ),
        tables[1]@ == fixed_table(
            colours@,
            dual_channels(single_channel(colour_counts(colours@))),
            dual_name(single_channel(colour_counts(colours@))),
            0x80,
        ),
{
    let (single_table, dual_table) = mode_2_tables(&colours);
    [single_table, dual_table]
}

/// The bytes of a row of packed colour: the low byte and the high byte of
/// the 15-bit word, behind a zero and the palette index where one is given.
pub open spec fn cgram_values(colour: Colour, cgram_index: Option<u8>) -> Seq<u8> {
    let low = (cgram_colour(colour) % 256) as u8;
    let high = (cgram_colour(colour) / 256) as u8;
    match cgram_index {
        Some(index) => seq![0u8, index, low, high],
        None => seq![low, high],
    }
}

/// A table written word by word that holds, scanline by scanline, the packed
/// colour of each colour.
pub open spec fn cgram_table(colours: Seq<Colour>, cgram_index: Option<u8>) -> TableView {
    TableView {
        rows: colours.map_values(
            |colour: Colour|
                RowView::Repeat { count: 1, data: padded(cgram_values(colour, cgram_index)) },
        ),
        row_size: if cgram_index is Some {
            4
        } else {
            2
        },
        max_row_count: 0x80,
        write_mode: HdmaWriteMode::Words,
        table_name: "colour_table"@,
    }
}

/// One table of packed 15-bit colours, each behind a zero and the palette
/// index where one is given.
pub fn create_cgram_table(colours: Vec<Colour>, cgram_index: Option<u8>) -> (table: HdmaTable)
    ensures
        table.wf(),
        table@ == cgram_table(colours@, cgram_index),
{
    let row_size: usize = match cgram_index {
        Some(_) => 4,
        None => 2,
    };
    let mut output = HdmaTable::new_real_table(
        Vec::new(),
        row_size,
        HdmaWriteMode::Words,
        "colour_table",
    );
    assert(output@.rows =~= cgram_table(colours@.take(0), cgram_index).rows);
    let mut i: usize = 0;
    while i < colours.len()
        invariant
            i <= colours@.len(),
            output.wf(),
            output@ == cgram_table(colours@.take(i as int), cgram_index),
        decreases colours@.len() - i,
    {
        let colour = colours[i];
        let cgram_colour = to_cgram_colour(colour);
        let low_byte = (cgram_colour % 256) as u8;
        let high_byte = (cgram_colour / 256) as u8;
        match cgram_index {
            Some(index) => {
                let bytes = [0x00, index, low_byte, high_byte];
                assert(bytes@ =~= cgram_values(colour, cgram_index));
                output.push(HdmaRow::new_scanline(&bytes));
            },
            None => {
                let bytes = [low_byte, high_byte];
                assert(bytes@ =~= cgram_values(colour, cgram_index));
                output.push(HdmaRow::new_scanline(&bytes));
            },
        }
        proof {
            let next = colours@.take(i + 1);
            assert(next.drop_last() =~= colours@.take(i as int));
            assert(next.last() == colour);
            assert(output@.rows =~= cgram_table(next, cgram_index).rows);
        }
        i += 1;
    }
    assert(colours@.take(i as int) =~= colours@);
    output
}

/// Which pass coalesces the rows of a table, if any.
pub enum Pass {
    /// The rows stay as they are.
    Keep,
    /// Full coalescing.
    Full,
    /// Repeat-only coalescing.
    RepeatOnly,
}

/// The table after the pass.
pub open spec fn passed(table: TableView, pass: Pass) -> TableView {
    match pass {
        Pass::Keep => table,
        Pass::Full => TableView { rows: coalesced(table.rows), ..table },
        Pass::RepeatOnly => TableView { rows: coalesced_repeat(table.rows), ..table },
    }
}

/// The listing of the tables of the colours. Each table of the first two
/// modes is followed by an empty line.
pub open spec fn colour_listing(
    mode: HdmaColourMode,
    cgram_index: Option<u8>,
    colours: Seq<Colour>,
    optimise: bool,
) -> Seq<char> {
    let full = if optimise {
        Pass::Full
    } else {
        Pass::Keep
    };
    match mode {
        HdmaColourMode::FixedClourThree => {
            table_text(
                passed(fixed_table(colours, seq![ColourIndex::Red], "red_table"@, 0x80), full),
            ) + "\n"@ + table_text(
                passed(fixed_table(colours, seq![ColourIndex::Green], "green_table"@, 0x80), full),
            ) + "\n"@ + table_text(
                passed(fixed_table(colours, seq![ColourIndex::Blue], "blue_table"@, 0x80), full),
            ) + "\n"@
        },
        HdmaColourMode::FixedClourTwo => {
            let single = single_channel(colour_counts(colours));
            table_text(passed(fixed_table(colours, seq![single], single_name(single), 0x80), full))
                + "\n"@ + table_text(
                passed(
                    fixed_table(colours, dual_channels(single), dual_name(single), 0x80),
                    full,
                ),
            ) + "\n"@
        },
        HdmaColourMode::BigGradient => {
            table_text(
                passed(
                    fixed_table(
                        colours,
                        seq![ColourIndex::Red, ColourIndex::Green, ColourIndex::Blue],
                        "gradient_table"@,
                        0xFF,
                    ),
                    if optimise {
                        Pass::RepeatOnly
                    } else {
                        Pass::Keep
                    },
                ),
            )
        },
        HdmaColourMode::CgRam => table_text(passed(cgram_table(colours, cgram_index), full)),
    }
}

/// The listing of `table` after the pass.
fn list_table(table: HdmaTable, pass: Pass) -> (text: String)
    requires
        table.wf(),
        table@.max_row_count > 0,
        flat(table@.rows),
    ensures
        text@ == table_text(passed(table@, pass)),
{
    let mut table = table;
    proof {
        table.lemma_rows_fit();
        lemma_flat_rows_mergeable(table@.rows);
    }
    match pass {
        Pass::Keep => {},
        Pass::Full => table.coagulate(),
        Pass::RepeatOnly => table.coagulate_repeat(),
    }
    table.write_table()
}

/// The listing of the tables that `mode` makes of the colours, coalesced
/// where `optimise` is set.
pub fn write_table(
    mode: HdmaColourMode,
    cgram_index: Option<u8>,
    colours: Vec<Colour>,
    optimise: bool,
) -> (text: String)
    requires
        mode == HdmaColourMode::FixedClourTwo ==> colours@.len() < isize::MAX,
    ensures
        text@ == colour_listing(mode, cgram_index, colours@, optimise),
{
    match mode {
        HdmaColourMode::FixedClourThree => {
            let (red, green, blue) = mode_0_tables(&colours);
            let mut output = String::new();
            let pass = if optimise {
                Pass::Full
            } else {
                Pass::Keep
            };
            output.append(list_table(red, pass).as_str());
            output.append("\n");
            let pass = if optimise {
                Pass::Full
            } else {
                Pass::Keep
            };
            output.append(list_table(green, pass).as_str());
            output.append("\n");
            let pass = if optimise {
                Pass::Full
            } else {
                Pass::Keep
            };
            output.append(list_table(blue, pass).as_str());
            output.append("\n");
            assert(output@ =~= colour_listing(mode, cgram_index, colours@, optimise));
            output
        },
        HdmaColourMode::FixedClourTwo => {
            let (single, dual) = mode_2_tables(&colours);
            let mut output = String::new();
            let pass = if optimise {
                Pass::Full
            } else {
                Pass::Keep
            };
            output.append(list_table(single, pass).as_str());
            output.append("\n");
            let pass = if optimise {
                Pass::Full
            } else {
                Pass::Keep
            };
            output.append(list_table(dual, pass).as_str());
            output.append("\n");
            assert(output@ =~= colour_listing(mode, cgram_index, colours@, optimise));
            output
        },
        HdmaColourMode::BigGradient => {
            let table = create_big_gradient_table(colours);
            let pass = if optimise {
                Pass::RepeatOnly
            } else {
                Pass::Keep
            };
            list_table(table, pass)
        },
        HdmaColourMode::CgRam => {
            let table = create_cgram_table(colours, cgram_index);
            let pass = if optimise {
                Pass::Full
            } else {
                Pass::Keep
            };
            list_table(table, pass)
        },
    }
}

} // verus!
