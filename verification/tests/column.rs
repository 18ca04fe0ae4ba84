use hdma_gradient::colour::Colour;
use hdma_gradient::column::{get_rgb_from_image, Picture};
use image::{ImageBuffer, Rgb};

/// A picture of three columns and four rows; each pixel tells where it stands.
fn picture() -> Picture {
    Picture {
        buffer: ImageBuffer::from_fn(3, 4, |x, y| {
            Rgb([(x * 10) as u8, (y * 10) as u8, (x + y) as u8])
        }),
    }
}

#[test]
fn column_is_read_at_the_given_rows() {
    assert_eq!(
        get_rgb_from_image(&picture(), 1, &vec![0, 1, 2, 3]),
        Some(vec![
            Colour([10, 0, 1]),
            Colour([10, 10, 2]),
            Colour([10, 20, 3]),
            Colour([10, 30, 4]),
        ])
    );
}

#[test]
fn rows_are_read_in_the_order_given_and_as_often_as_given() {
    assert_eq!(
        get_rgb_from_image(&picture(), 2, &vec![3, 3, 0, 2, 0]),
        Some(vec![
            Colour([20, 30, 5]),
            Colour([20, 30, 5]),
            Colour([20, 0, 2]),
            Colour([20, 20, 4]),
            Colour([20, 0, 2]),
        ])
    );
}

#[test]
fn first_column_and_last_column() {
    assert_eq!(get_rgb_from_image(&picture(), 0, &vec![1]), Some(vec![Colour([0, 10, 1])]));
    assert_eq!(get_rgb_from_image(&picture(), 2, &vec![1]), Some(vec![Colour([20, 10, 3])]));
}

#[test]
fn column_outside_the_picture_gives_none() {
    assert_eq!(get_rgb_from_image(&picture(), 3, &vec![0]), None);
    assert_eq!(get_rgb_from_image(&picture(), u32::MAX, &vec![0, 1]), None);
}

#[test]
fn row_outside_the_picture_gives_none() {
    assert_eq!(get_rgb_from_image(&picture(), 0, &vec![0, 4]), None);
    assert_eq!(get_rgb_from_image(&picture(), 0, &vec![4, 0]), None);
    assert_eq!(get_rgb_from_image(&picture(), 0, &vec![0, 1, 2, 3, u32::MAX]), None);
}

#[test]
fn no_rows_give_no_colours() {
    assert_eq!(get_rgb_from_image(&picture(), 0, &Vec::new()), Some(Vec::new()));
    assert_eq!(get_rgb_from_image(&picture(), 7, &Vec::new()), Some(Vec::new()));
}

#[test]
fn picture_without_pixels_holds_nothing() {
    let empty = Picture { buffer: ImageBuffer::new(0, 0) };
    assert_eq!(get_rgb_from_image(&empty, 0, &vec![0]), None);
    let flat = Picture { buffer: ImageBuffer::new(5, 0) };
    assert_eq!(get_rgb_from_image(&flat, 0, &vec![0]), None);
    let thin = Picture { buffer: ImageBuffer::new(0, 5) };
    assert_eq!(get_rgb_from_image(&thin, 0, &vec![0]), None);
}
