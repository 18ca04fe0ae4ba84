//! The colours of one column of an image.
//!
//! The image is an `image::ImageBuffer` of 8-bit RGB pixels, held in a
//! `Picture`. What it holds is named `picture_rows`; the three functions
//! below that call into the `image` crate say over that name what they
//! return, and nothing proves it of them.

use crate::colour::Colour;
use vstd::prelude::*;

verus! {

/// An image of 8-bit RGB pixels. Nothing of the buffer is seen in proofs but
/// what `picture_rows` names.
#[verifier::external_body]
pub struct Picture {
    pub buffer: image::ImageBuffer<image::Rgb<u8>, Vec<u8>>,
}

/// What a picture holds: its rows from the top down, each row its pixels from
/// the left, each pixel its red, green and blue value.
pub uninterp spec fn picture_rows(picture: Picture) -> Seq<Seq<Seq<u8>>>;

/// Whether the picture holds a pixel in column `x` of row `y`.
pub open spec fn holds_pixel(picture: Picture, x: int, y: int) -> bool {
    0 <= y < picture_rows(picture).len() && 0 <= x < picture_rows(picture)[y].len()
}

/// `ImageBuffer::width`: the number of pixels that every row of the picture holds.
#[verifier::external_body]
fn picture_width(picture: &Picture) -> (width: u32)
    ensures
        forall|y: int|
            0 <= y < picture_rows(*picture).len() ==> (#[trigger] picture_rows(*picture)[y]).len()
                == width,
{
    picture.buffer.width()
}

/// `ImageBuffer::height`: the number of rows of the picture.
#[verifier::external_body]
fn picture_height(picture: &Picture) -> (height: u32)
    ensures
        picture_rows(*picture).len() == height,
{
    picture.buffer.height()
}

/// `ImageBuffer::get_pixel`: the pixel in column `x` of row `y`. The call
/// panics where the picture holds no such pixel, so that is asked of the caller.
#[verifier::external_body]
fn picture_pixel(picture: &Picture, x: u32, y: u32) -> (colour: Colour)
    requires
        holds_pixel(*picture, x as int, y as int),
    ensures
        colour.0@ == picture_rows(*picture)[y as int][x as int],
{
    Colour(picture.buffer.get_pixel(x, y).0)
}

/// Whether the picture holds a pixel in column `x` of each of the rows.
pub open spec fn holds_column(
    picture: Picture,
    x: int,
    rows: Seq<u32>,
) -> bool {
    forall|i: int| 0 <= i < rows.len() ==> holds_pixel(picture, x, #[trigger] rows[i] as int)
}

/// The colours of column `x_input` in the rows `rows`, in the order of
/// `rows`; none where the picture lacks one of these pixels.
pub fn get_rgb_from_image(
    picture: &Picture,
    x_input: u32,
    rows: &Vec<u32>,
) -> (colours: Option<Vec<Colour>>)
    ensures
        colours is Some <==> holds_column(*picture, x_input as int, rows@),
        colours matches Some(found) ==> {
            &&& found@.len() == rows@.len()
            &&& forall|i: int|
                0 <= i < rows@.len() ==> (#[trigger] found@[i]).0@ == picture_rows(
                    *picture,
                )[rows@[i] as int][x_input as int]
        },
{
    let width = picture_width(picture);
    let height = picture_height(picture);
    let mut colours: Vec<Colour> = Vec::new();
    let mut i: usize = 0;
    while i < rows.len()
        invariant
            i <= rows@.len(),
            picture_rows(*picture).len() == height,
            forall|y: int|
                0 <= y < picture_rows(*picture).len() ==> (#[trigger] picture_rows(*picture)[y]).len()
                    == width,
            holds_column(*picture, x_input as int, rows@.take(i as int)),
            colours@.len() == i,
            forall|k: int|
                0 <= k < i ==> (#[trigger] colours@[k]).0@ == picture_rows(
                    *picture,
                )[rows@[k] as int][x_input as int],
        decreases rows@.len() - i,
    {
        let y = rows[i];
        if x_input >= width || y >= height {
            assert(!holds_pixel(*picture, x_input as int, rows@[i as int] as int));
            return None;
        }
        colours.push(picture_pixel(picture, x_input, y));
        assert forall|k: int| 0 <= k < i + 1 implies holds_pixel(
            *picture,
            x_input as int,
            #[trigger] rows@.take(i + 1)[k] as int,
        ) by {
            if k < i {
                assert(rows@.take(i as int)[k] == rows@[k]);
            }
        }
        i += 1;
    }
    assert(rows@.take(i as int) =~= rows@);
    Some(colours)
}

} // verus!
