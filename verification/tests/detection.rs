use vex_vision_scoring::detect::{count_objects, detect_objects, DetectError, THRESHOLD};
use vex_vision_scoring::frame::{bytes_per_pixel, luminance, ColorLayout, Frame};
use vex_vision_scoring::mask::Mask;

/// A gray frame from a picture: `#` is a pixel of luminance 255, anything
/// else one of luminance 0.
fn gray(picture: &[&str]) -> Frame {
    let height = picture.len();
    let width = if height == 0 { 0 } else { picture[0].len() };
    let mut data = Vec::new();
    for row in picture {
        for c in row.chars() {
            data.push(if c == '#' { 255 } else { 0 });
        }
    }
    Frame { width, height, layout: ColorLayout::Gray, data }
}

/// A colour frame from a picture: `#` is a white pixel, anything else black.
fn bgr(picture: &[&str]) -> Frame {
    let height = picture.len();
    let width = if height == 0 { 0 } else { picture[0].len() };
    let mut data = Vec::new();
    for row in picture {
        for c in row.chars() {
            let v = if c == '#' { 255 } else { 0 };
            data.push(v);
            data.push(v);
            data.push(v);
        }
    }
    Frame { width, height, layout: ColorLayout::Bgr, data }
}

fn mask(picture: &[&str]) -> Mask {
    let rows: Vec<Vec<bool>> =
        picture.iter().map(|row| row.chars().map(|c| c == '#').collect()).collect();
    Mask::from_rows(rows).expect("a rectangular picture")
}

#[test]
fn dark_frame_has_no_objects() {
    let frame = bgr(&["....", "....", "...."]);
    assert_eq!(detect_objects(&frame), Ok(0));
    let frame = gray(&["....", "....", "...."]);
    assert_eq!(detect_objects(&frame), Ok(0));
}

#[test]
fn dim_frame_has_no_objects() {
    let frame = Frame { width: 3, height: 2, layout: ColorLayout::Gray, data: vec![199; 6] };
    assert_eq!(detect_objects(&frame), Ok(0));
    let frame = Frame { width: 3, height: 2, layout: ColorLayout::Bgr, data: vec![199; 18] };
    assert_eq!(detect_objects(&frame), Ok(0));
}

#[test]
fn zero_blobs_count_zero() {
    assert_eq!(detect_objects(&bgr(&["......", "......", "......", "......"])), Ok(0));
}

#[test]
fn one_blob_counts_one() {
    assert_eq!(detect_objects(&bgr(&["......", ".###..", ".###..", "......"])), Ok(1));
    assert_eq!(detect_objects(&bgr(&["......", "...#..", "......", "......"])), Ok(1));
}

#[test]
fn two_blobs_count_two() {
    let frame = bgr(&[
        "........",
        ".##.....",
        ".##...#.",
        "........",
    ]);
    assert_eq!(detect_objects(&frame), Ok(2));
}

#[test]
fn five_blobs_count_five() {
    let frame = bgr(&[
        "#....###..",
        ".....###..",
        "..#..###..",
        "..........",
        "##......#.",
        "##......#.",
    ]);
    assert_eq!(detect_objects(&frame), Ok(5));
    let frame = gray(&[
        "#....###..",
        ".....###..",
        "..#..###..",
        "..........",
        "##......#.",
        "##......#.",
    ]);
    assert_eq!(detect_objects(&frame), Ok(5));
}

#[test]
fn blob_size_does_not_matter() {
    let small = bgr(&[".....", "..#..", "....."]);
    let large = bgr(&["#####", "#####", "#####"]);
    assert_eq!(detect_objects(&small), Ok(1));
    assert_eq!(detect_objects(&large), Ok(1));
}

#[test]
fn blob_with_hole_counts_one() {
    let frame = bgr(&[
        ".......",
        ".#####.",
        ".#...#.",
        ".#...#.",
        ".#####.",
        ".......",
    ]);
    assert_eq!(detect_objects(&frame), Ok(1));
}

#[test]
fn blob_inside_hole_is_not_counted() {
    let frame = bgr(&[
        ".........",
        ".#######.",
        ".#.....#.",
        ".#.###.#.",
        ".#.###.#.",
        ".#.....#.",
        ".#######.",
        ".........",
    ]);
    assert_eq!(detect_objects(&frame), Ok(1));
}

#[test]
fn blob_beside_ring_is_counted() {
    let frame = bgr(&[
        "...........",
        ".#####.....",
        ".#...#..##.",
        ".#.#.#..##.",
        ".#...#.....",
        ".#####.....",
    ]);
    assert_eq!(detect_objects(&frame), Ok(2));
}

#[test]
fn diagonal_neighbours_are_one_blob() {
    assert_eq!(detect_objects(&bgr(&["....", ".#..", "..#.", "...."])), Ok(1));
}

#[test]
fn diagonal_gap_does_not_open_a_hole() {
    let closed = mask(&[
        ".####",
        "#...#",
        "#.#.#",
        "#...#",
        "#####",
    ]);
    assert_eq!(closed.count_external(), 1);
    let open = mask(&[
        "..###",
        "#...#",
        "#.#.#",
        "#...#",
        "#####",
    ]);
    assert_eq!(open.count_external(), 2);
}

#[test]
fn ring_on_the_border_encloses_its_hole() {
    let picture = mask(&[
        "#####",
        "#...#",
        "#.#.#",
        "#...#",
        "#####",
    ]);
    assert_eq!(picture.count_external(), 1);
}

#[test]
fn nested_rings_count_one() {
    let picture = mask(&[
        "#########",
        "#.......#",
        "#.#####.#",
        "#.#...#.#",
        "#.#.#.#.#",
        "#.#...#.#",
        "#.#####.#",
        "#.......#",
        "#########",
    ]);
    assert_eq!(picture.count_external(), 1);
}

#[test]
fn empty_mask_has_no_regions() {
    let none = Mask::from_rows(Vec::new()).expect("no rows are rectangular");
    assert_eq!(none.height(), 0);
    assert_eq!(none.width(), 0);
    assert_eq!(none.count_external(), 0);
    let thin = Mask::from_rows(vec![Vec::new(), Vec::new()]).expect("empty rows are rectangular");
    assert_eq!(thin.height(), 2);
    assert_eq!(thin.width(), 0);
    assert_eq!(thin.count_external(), 0);
}

#[test]
fn ragged_rows_make_no_mask() {
    assert!(Mask::from_rows(vec![vec![true, false], vec![true]]).is_none());
    assert!(Mask::from_rows(vec![vec![], vec![true]]).is_none());
}

#[test]
fn mask_reads_its_cells() {
    let picture = mask(&["#.", ".#", ".."]);
    assert_eq!(picture.width(), 2);
    assert_eq!(picture.height(), 3);
    assert!(picture.get(0, 0));
    assert!(!picture.get(1, 0));
    assert!(picture.get(1, 1));
    assert!(!picture.get(0, 2));
    assert!(!picture.get(2, 0));
    assert!(!picture.get(0, 3));
}

#[test]
fn threshold_is_inclusive() {
    let at = Frame { width: 1, height: 1, layout: ColorLayout::Gray, data: vec![200] };
    let below = Frame { width: 1, height: 1, layout: ColorLayout::Gray, data: vec![199] };
    assert_eq!(THRESHOLD, 200);
    assert_eq!(detect_objects(&at), Ok(1));
    assert_eq!(detect_objects(&below), Ok(0));
    assert_eq!(count_objects(&below, 199), Ok(1));
    assert_eq!(count_objects(&at, 201), Ok(0));
}

#[test]
fn colour_is_weighed_by_luminance() {
    assert_eq!(luminance(255, 255, 255), 255);
    assert_eq!(luminance(0, 0, 0), 0);
    assert_eq!(luminance(255, 0, 0), 29);
    assert_eq!(luminance(0, 255, 0), 150);
    assert_eq!(luminance(0, 0, 255), 76);
    assert_eq!(luminance(200, 200, 200), 200);
    assert_eq!(luminance(10, 20, 30), 22);
    // Pure green is bright for the eye, but stays under the threshold.
    let green = Frame { width: 1, height: 1, layout: ColorLayout::Bgr, data: vec![0, 255, 0] };
    assert_eq!(detect_objects(&green), Ok(0));
    assert_eq!(count_objects(&green, 150), Ok(1));
    assert_eq!(count_objects(&green, 151), Ok(0));
    let yellow = Frame { width: 1, height: 1, layout: ColorLayout::Bgr, data: vec![0, 255, 255] };
    assert_eq!(luminance(0, 255, 255), 226);
    assert_eq!(detect_objects(&yellow), Ok(1));
}

#[test]
fn layouts_take_one_and_three_bytes() {
    assert_eq!(bytes_per_pixel(ColorLayout::Gray), 1);
    assert_eq!(bytes_per_pixel(ColorLayout::Bgr), 3);
}

#[test]
fn malformed_frame_is_refused() {
    let short = Frame { width: 2, height: 2, layout: ColorLayout::Bgr, data: vec![255; 11] };
    assert!(!short.is_well_formed());
    assert_eq!(detect_objects(&short), Err(DetectError::Malformed));
    let long = Frame { width: 2, height: 2, layout: ColorLayout::Gray, data: vec![255; 5] };
    assert_eq!(detect_objects(&long), Err(DetectError::Malformed));
    let huge = Frame { width: usize::MAX, height: 2, layout: ColorLayout::Gray, data: vec![] };
    assert_eq!(detect_objects(&huge), Err(DetectError::Malformed));
    assert!(huge.binarize(200).is_none());
}

#[test]
fn frame_without_pixels_is_empty_and_counts_zero() {
    let none = Frame { width: 0, height: 0, layout: ColorLayout::Bgr, data: vec![] };
    assert!(none.is_empty());
    assert!(none.is_well_formed());
    assert_eq!(detect_objects(&none), Ok(0));
    let flat = Frame { width: 4, height: 0, layout: ColorLayout::Bgr, data: vec![] };
    assert!(flat.is_empty());
    assert_eq!(detect_objects(&flat), Ok(0));
    let some = gray(&["#"]);
    assert!(!some.is_empty());
}

#[test]
fn binarize_marks_bright_pixels() {
    let frame = Frame {
        width: 2,
        height: 2,
        layout: ColorLayout::Bgr,
        data: vec![255, 255, 255, 0, 0, 0, 10, 10, 10, 200, 200, 200],
    };
    let picture = frame.binarize(200).expect("a well-formed frame");
    assert!(picture.get(0, 0));
    assert!(!picture.get(1, 0));
    assert!(!picture.get(0, 1));
    assert!(picture.get(1, 1));
    assert_eq!(picture.count_external(), 1);
}
