use hex_softbody::bitmap::draw_color;
use hex_softbody::bitmap::transparent;
use hex_softbody::bitmap::Bitmap;
use hex_softbody::bitmap::Color;
use hex_softbody::paint::clear;
use hex_softbody::paint::draw_rounded_line;
use hex_softbody::paint::flood_fill;
use hex_softbody::paint::Quad;

const RED: Color = Color { r: 255, g: 0, b: 0, a: 255 };
const BLUE: Color = Color { r: 0, g: 0, b: 255, a: 255 };

fn from_rows(rows: &[&str]) -> Bitmap {
    let height = rows.len() as u32;
    let width = rows[0].len() as u32;
    let mut bitmap = Bitmap::new(width, height).unwrap();
    for (y, row) in rows.iter().enumerate() {
        for (x, mark) in row.chars().enumerate() {
            let color = match mark {
                '#' => draw_color(),
                'r' => RED,
                'b' => BLUE,
                _ => transparent(),
            };
            bitmap.put_pixel(x as u32, y as u32, color);
        }
    }
    bitmap
}

fn to_rows(bitmap: &Bitmap) -> Vec<String> {
    let mut rows = Vec::new();
    for y in 0..bitmap.height() {
        let mut row = String::new();
        for x in 0..bitmap.width() {
            let c = bitmap.get_pixel(x, y);
            row.push(if c == draw_color() {
                '#'
            } else if c == RED {
                'r'
            } else if c == BLUE {
                'b'
            } else if c == transparent() {
                '.'
            } else {
                '?'
            });
        }
        rows.push(row);
    }
    rows
}

#[test]
fn new_bitmap_is_transparent() {
    let bitmap = Bitmap::new(3, 2).unwrap();
    assert_eq!(bitmap.width(), 3);
    assert_eq!(bitmap.height(), 2);
    assert_eq!(to_rows(&bitmap), vec!["...", "..."]);
}

#[test]
fn new_bitmap_may_be_empty() {
    let bitmap = Bitmap::new(0, 7).unwrap();
    assert_eq!(bitmap.width(), 0);
    assert_eq!(bitmap.height(), 7);
    assert_eq!(bitmap.into_raw().len(), 0);
}

#[test]
fn new_bitmap_is_refused_where_no_buffer_can_hold_it() {
    assert!(Bitmap::new(u32::MAX, u32::MAX).is_none());
    assert!(Bitmap::new(1 << 31, 1 << 30).is_none());
    assert!(Bitmap::new(u32::MAX, 0).is_some());
}

#[test]
fn put_pixel_changes_one_pixel() {
    let mut bitmap = Bitmap::new(3, 3).unwrap();
    bitmap.put_pixel(2, 1, RED);
    assert_eq!(bitmap.get_pixel(2, 1), RED);
    assert_eq!(to_rows(&bitmap), vec!["...", "..r", "..."]);
}

#[test]
fn from_raw_reads_rows_of_rgba_bytes() {
    let data = vec![
        1, 2, 3, 4, 5, 6, 7, 8, //
        9, 10, 11, 12, 13, 14, 15, 16,
    ];
    let bitmap = Bitmap::from_raw(2, 2, data).unwrap();
    assert_eq!(bitmap.get_pixel(0, 0), Color { r: 1, g: 2, b: 3, a: 4 });
    assert_eq!(bitmap.get_pixel(1, 0), Color { r: 5, g: 6, b: 7, a: 8 });
    assert_eq!(bitmap.get_pixel(0, 1), Color { r: 9, g: 10, b: 11, a: 12 });
    assert_eq!(bitmap.get_pixel(1, 1), Color { r: 13, g: 14, b: 15, a: 16 });
}

#[test]
fn from_raw_refuses_a_short_buffer() {
    assert!(Bitmap::from_raw(2, 2, vec![0; 15]).is_none());
    assert!(Bitmap::from_raw(2, 2, vec![0; 16]).is_some());
    assert!(Bitmap::from_raw(2, 2, vec![0; 17]).is_some());
}

#[test]
fn into_raw_gives_the_bytes_back() {
    let mut bitmap = Bitmap::new(2, 1).unwrap();
    bitmap.put_pixel(1, 0, Color { r: 9, g: 8, b: 7, a: 6 });
    assert_eq!(bitmap.into_raw(), vec![0, 0, 0, 0, 9, 8, 7, 6]);
}

#[test]
fn clear_makes_every_pixel_transparent() {
    let mut bitmap = from_rows(&["#r", "b#", "##"]);
    clear(&mut bitmap);
    assert_eq!(bitmap.width(), 2);
    assert_eq!(bitmap.height(), 3);
    assert_eq!(to_rows(&bitmap), vec!["..", "..", ".."]);
}

#[test]
fn flood_fill_fills_the_connected_region_only() {
    let mut bitmap = from_rows(&[
        "..r..", //
        "..r..", //
        "rrr..", //
        ".....", //
    ]);
    flood_fill(&mut bitmap, (0, 0), draw_color());
    assert_eq!(
        to_rows(&bitmap),
        vec![
            "##r..", //
            "##r..", //
            "rrr..", //
            ".....",
        ]
    );
}

#[test]
fn flood_fill_does_not_cross_diagonals() {
    let mut bitmap = from_rows(&[
        ".r.", //
        "r.r", //
        ".r.",
    ]);
    flood_fill(&mut bitmap, (1, 1), BLUE);
    assert_eq!(to_rows(&bitmap), vec![".r.", "rbr", ".r."]);
}

#[test]
fn flood_fill_with_the_start_colour_changes_nothing() {
    let mut bitmap = from_rows(&["#.#", "...", "r.b"]);
    let before = to_rows(&bitmap);
    flood_fill(&mut bitmap, (1, 1), transparent());
    assert_eq!(to_rows(&bitmap), before);
    flood_fill(&mut bitmap, (0, 2), RED);
    assert_eq!(to_rows(&bitmap), before);
}

#[test]
fn flood_fill_reaches_round_a_wall() {
    let mut bitmap = from_rows(&[
        ".....", //
        ".rrr.", //
        ".r.r.", //
        ".rrr.", //
        ".....",
    ]);
    flood_fill(&mut bitmap, (4, 4), BLUE);
    assert_eq!(
        to_rows(&bitmap),
        vec![
            "bbbbb", //
            "brrrb", //
            "br.rb", //
            "brrrb", //
            "bbbbb",
        ]
    );
}

#[test]
fn flood_fill_from_the_last_pixel_of_a_whole_bitmap() {
    let mut bitmap = Bitmap::new(40, 30).unwrap();
    flood_fill(&mut bitmap, (39, 29), draw_color());
    for y in 0..30 {
        for x in 0..40 {
            assert_eq!(bitmap.get_pixel(x, y), draw_color());
        }
    }
}

#[test]
fn flood_fill_of_a_single_pixel_bitmap() {
    let mut bitmap = Bitmap::new(1, 1).unwrap();
    flood_fill(&mut bitmap, (0, 0), RED);
    assert_eq!(bitmap.get_pixel(0, 0), RED);
}

#[test]
fn a_stroke_of_no_length_is_one_round_dot() {
    let mut bitmap = Bitmap::new(5, 5).unwrap();
    draw_rounded_line(&mut bitmap, (2, 2), (2, 2), 1, None, RED);
    assert_eq!(
        to_rows(&bitmap),
        vec![
            ".....", //
            "..r..", //
            ".rrr.", //
            "..r..", //
            ".....",
        ]
    );
}

#[test]
fn a_stroke_of_radius_zero_marks_its_two_ends() {
    let mut bitmap = Bitmap::new(4, 2).unwrap();
    draw_rounded_line(&mut bitmap, (0, 0), (3, 1), 0, None, BLUE);
    assert_eq!(to_rows(&bitmap), vec!["b...", "...b"]);
}

#[test]
fn a_stroke_fills_the_body_between_its_ends() {
    let mut bitmap = from_rows(&[
        "r......", //
        ".......", //
        ".......", //
        ".......", //
        "......r",
    ]);
    let body = Quad { a: (1, 1), b: (1, 3), c: (5, 3), d: (5, 1) };
    draw_rounded_line(&mut bitmap, (1, 2), (5, 2), 1, Some(body), draw_color());
    assert_eq!(
        to_rows(&bitmap),
        vec![
            "r......", //
            ".#####.", //
            "#######", //
            ".#####.", //
            "......r",
        ]
    );
}

#[test]
fn a_stroke_is_cut_at_the_edge_of_the_bitmap() {
    let mut bitmap = Bitmap::new(3, 3).unwrap();
    let body = Quad { a: (-4, -1), b: (-4, 1), c: (1, 1), d: (1, -1) };
    draw_rounded_line(&mut bitmap, (-4, 0), (1, 0), 1, Some(body), RED);
    assert_eq!(to_rows(&bitmap), vec!["rrr", "rr.", "..."]);
}

#[test]
fn a_stroke_on_an_empty_bitmap_draws_nothing() {
    let mut bitmap = Bitmap::new(0, 0).unwrap();
    draw_rounded_line(&mut bitmap, (0, 0), (2, 2), 3, None, RED);
    assert_eq!(bitmap.width(), 0);
    assert_eq!(bitmap.height(), 0);
    let mut bitmap = Bitmap::new(0, 4).unwrap();
    let body = Quad { a: (-1, 0), b: (1, 0), c: (1, 3), d: (-1, 3) };
    draw_rounded_line(&mut bitmap, (0, 0), (0, 3), 1, Some(body), RED);
    assert_eq!(bitmap.into_raw().len(), 0);
}
