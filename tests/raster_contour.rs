use ellipse_detect::contour::{keep_contours, ContourFinder, ToContourFinder};
use ellipse_detect::raster::GrayImage;

fn image_from_rows(rows: &[&str]) -> GrayImage {
    let height = rows.len() as u32;
    let width = rows[0].len() as u32;
    let mut pixels = Vec::new();
    for row in rows {
        for c in row.chars() {
            pixels.push(match c {
                '#' => 0u8,
                'g' => 100u8,
                _ => 255u8,
            });
        }
    }
    GrayImage::from_raw(width, height, pixels).unwrap()
}

fn rows_of(img: &GrayImage) -> Vec<String> {
    let mut rows = Vec::new();
    for y in 0..img.height() {
        let mut row = String::new();
        for x in 0..img.width() {
            row.push(match img.get_pixel(x, y) {
                0 => '#',
                255 => '.',
                _ => '?',
            });
        }
        rows.push(row);
    }
    rows
}

#[test]
fn from_raw_checks_buffer_length() {
    assert!(GrayImage::from_raw(3, 2, vec![0; 6]).is_some());
    assert!(GrayImage::from_raw(3, 2, vec![0; 5]).is_none());
    assert!(GrayImage::from_raw(3, 2, vec![0; 7]).is_none());
    assert!(GrayImage::from_raw(0, 0, vec![]).is_some());
}

#[test]
fn pixels_are_stored_row_by_row() {
    let mut img = GrayImage::from_raw(3, 2, vec![1, 2, 3, 4, 5, 6]).unwrap();
    assert_eq!(img.get_pixel(0, 1), 4);
    assert_eq!(img.get_pixel(2, 0), 3);
    assert_eq!(img.index_of(1, 1), 4);
    img.put_pixel(1, 1, 9);
    assert_eq!(img.into_raw(), vec![1, 2, 3, 4, 9, 6]);
}

#[test]
fn keep_contours_hollows_a_filled_square() {
    let mut img = image_from_rows(&[
        ".....",
        ".###.",
        ".###.",
        ".###.",
        ".....",
    ]);
    keep_contours(&mut img);
    assert_eq!(
        rows_of(&img),
        vec![".....", ".###.", ".#.#.", ".###.", "....."]
    );
}

#[test]
fn keep_contours_whitens_gray_and_keeps_border_pixels() {
    let mut img = image_from_rows(&[
        "####",
        "####",
        "####",
        "gg.g",
    ]);
    keep_contours(&mut img);
    assert_eq!(rows_of(&img), vec!["####", "#..#", "####", "...."]);
}

#[test]
fn keep_contours_on_a_white_image_changes_nothing() {
    let mut img = image_from_rows(&["...", "..."]);
    keep_contours(&mut img);
    assert_eq!(rows_of(&img), vec!["...", "..."]);
}

#[test]
fn finder_walks_a_horizontal_line() {
    let img = image_from_rows(&[
        ".....",
        ".###.",
        ".....",
    ]);
    let mut finder = img.to_contour_finder();
    assert_eq!(finder.next(), Some(vec![(1, 1), (2, 1), (3, 1)]));
    assert_eq!(finder.next(), None);
}

#[test]
fn finder_follows_the_neighbour_order() {
    // From (0,0) the right neighbour comes first; from (1,0) only the lower
    // left one is still black; from (0,1) only the lower right one.
    let img = image_from_rows(&[
        "##..",
        "#...",
        ".#..",
    ]);
    let mut finder = ContourFinder::new(img);
    assert_eq!(finder.next(), Some(vec![(0, 0), (1, 0), (0, 1), (1, 2)]));
    assert_eq!(finder.next(), None);
}

#[test]
fn finder_yields_separate_shapes_in_row_major_order() {
    let img = image_from_rows(&[
        "..#.",
        "....",
        "#...",
    ]);
    let mut finder = ContourFinder::new(img);
    assert_eq!(finder.next(), Some(vec![(2, 0)]));
    assert_eq!(finder.next(), Some(vec![(0, 2)]));
    assert_eq!(finder.next(), None);
    assert_eq!(finder.next(), None);
}

#[test]
fn finder_on_an_empty_image_yields_nothing() {
    let img = GrayImage::from_raw(0, 0, vec![]).unwrap();
    let mut finder = img.to_contour_finder();
    assert_eq!(finder.next(), None);
}
