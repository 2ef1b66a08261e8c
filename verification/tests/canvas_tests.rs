use simple3d::canvas::{Canvas, DrawLine, Line, Point};

const WHITE: [u8; 3] = [0xFF, 0xFF, 0xFF];
const RED: [u8; 3] = [0xFF, 0x00, 0x00];

#[test]
fn canvas_test() {
    let w = 16 * 60;
    let h = 9 * 60;
    let white = [0xFF; 3];
    let red = [0xFF, 0x00, 0x00];
    let mut canvas = Canvas::new(w, h, white);
    let p1 = [18_i32, 10];
    let p2 = [879_i32, 479];
    canvas.line(p1, p2, 7, red);
    let bytes = canvas.ppm_bytes();
    assert_eq!(&bytes[..15], b"P6\n960 540\n255\n");
    assert_eq!(bytes.len(), 15 + w * h * 3);
    let mut non_white = 0;
    for px in bytes[15..].chunks(3) {
        if px != [0xFF, 0xFF, 0xFF] {
            non_white += 1;
        }
    }
    assert_eq!(non_white, 7948);
}

#[test]
fn fresh_fill_reads_back_everywhere() {
    let c = Canvas::new(5, 4, [7, 8, 9]);
    for y in 0..4 {
        for x in 0..5 {
            assert_eq!(c.pixel(x, y), Some(&[7, 8, 9]));
        }
    }
    assert_eq!(c.pixel(5, 0), None);
    assert_eq!(c.pixel(0, 4), None);
}

#[test]
fn refill_overwrites_every_pixel() {
    let mut c = Canvas::new(3, 3, [0, 0, 0]);
    c.pixel_mut(1, 1, RED);
    c.fill([1, 2, 3]);
    for y in 0..3 {
        for x in 0..3 {
            assert_eq!(c.pixel(x, y), Some(&[1, 2, 3]));
        }
    }
}

#[test]
fn pixel_mut_writes_only_in_range() {
    let mut c = Canvas::new(4, 3, WHITE);
    assert!(c.pixel_mut(2, 1, RED));
    assert_eq!(c.pixel(2, 1), Some(&RED));
    assert_eq!(c.pixel(1, 2), Some(&WHITE));
    assert!(!c.pixel_mut(4, 0, RED));
    assert!(!c.pixel_mut(0, 3, RED));
}

#[test]
fn export_round_trips_exactly() {
    let mut c = Canvas::new(3, 2, [10, 20, 30]);
    c.pixel_mut(0, 0, [1, 2, 3]);
    c.pixel_mut(2, 1, [4, 5, 6]);
    let bytes = c.export();
    assert_eq!(bytes.len(), 3 * 2 * 3);
    let mut back = Canvas::new(3, 2, [0, 0, 0]);
    for y in 0..2 {
        for x in 0..3 {
            let i = (y * 3 + x) * 3;
            back.pixel_mut(x, y, [bytes[i], bytes[i + 1], bytes[i + 2]]);
        }
    }
    for y in 0..2 {
        for x in 0..3 {
            assert_eq!(back.pixel(x, y), c.pixel(x, y));
        }
    }
    assert_eq!(back.export(), bytes);
}

#[test]
fn ppm_header_is_exact() {
    let c = Canvas::new(1, 1, [0, 0, 0]);
    let bytes = c.ppm_bytes();
    assert_eq!(&bytes[..], b"P6\n1 1\n255\n\x00\x00\x00");
}

#[test]
fn disc_of_diameter_one_is_the_center() {
    let p = Point::new([10, 20], 1);
    assert_eq!(p.iter(), vec![[10, 20]]);
}

#[test]
fn disc_of_diameter_zero_is_empty() {
    let p = Point::new([0, 0], 0);
    assert_eq!(p.iter(), Vec::<[i32; 2]>::new());
}

#[test]
fn disc_of_radius_one_under_the_rounded_magnitude() {
    // the magnitude rule is the integer square root of the squared length,
    // so the four diagonal neighbours, at rounded distance 1, belong to
    // the disc of radius 1 along with the four axis neighbours
    let p = Point::new([0, 0], 3);
    let offsets = p.iter();
    assert_eq!(
        offsets,
        vec![
            [-1, -1],
            [-1, 0],
            [-1, 1],
            [0, -1],
            [0, 0],
            [0, 1],
            [1, -1],
            [1, 0],
            [1, 1],
        ]
    );
    for o in [[0, 0], [1, 0], [-1, 0], [0, 1], [0, -1]] {
        assert!(offsets.contains(&o));
    }
}

#[test]
fn dot_stamps_disc_and_skips_out_of_range() {
    let mut c = Canvas::new(4, 4, WHITE);
    c.dot([0, 0], 3, RED);
    assert_eq!(c.pixel(0, 0), Some(&RED));
    assert_eq!(c.pixel(1, 0), Some(&RED));
    assert_eq!(c.pixel(0, 1), Some(&RED));
    assert_eq!(c.pixel(1, 1), Some(&RED));
    assert_eq!(c.pixel(2, 0), Some(&WHITE));
    assert_eq!(c.pixel(2, 2), Some(&WHITE));
}

#[test]
fn clipping_keeps_an_inside_segment() {
    let cut = DrawLine::cut_line([[2, 3], [7, 5]], 0, 10, 0, 10);
    assert_eq!(cut, Some([[2, 3], [7, 5]]));
}

#[test]
fn clipping_drops_a_segment_beyond_one_side() {
    assert_eq!(DrawLine::cut_line([[-5, 2], [-1, 9]], 0, 10, 0, 10), None);
    assert_eq!(DrawLine::cut_line([[11, 2], [15, 9]], 0, 10, 0, 10), None);
    assert_eq!(DrawLine::cut_line([[2, -7], [9, -1]], 0, 10, 0, 10), None);
    assert_eq!(DrawLine::cut_line([[2, 11], [9, 12]], 0, 10, 0, 10), None);
}

#[test]
fn clipping_moves_a_crossing_segment_onto_the_boundary() {
    // a horizontal segment entering from the left is cut at xmin
    let cut = DrawLine::cut_line([[-4, 5], [8, 5]], 0, 10, 0, 10);
    assert_eq!(cut, Some([[0, 5], [8, 5]]));
}

#[test]
fn line_codes_name_the_outside_halves() {
    assert_eq!(DrawLine::line_code([5, 5], 0, 10, 0, 10), 0);
    assert_eq!(DrawLine::line_code([-1, 5], 0, 10, 0, 10), 1);
    assert_eq!(DrawLine::line_code([11, 5], 0, 10, 0, 10), 2);
    assert_eq!(DrawLine::line_code([5, -1], 0, 10, 0, 10), 4);
    assert_eq!(DrawLine::line_code([5, 11], 0, 10, 0, 10), 8);
    assert_eq!(DrawLine::line_code([-1, -1], 0, 10, 0, 10), 5);
    assert_eq!(DrawLine::line_code([11, 11], 0, 10, 0, 10), 10);
}

fn collect(mut dl: DrawLine) -> Vec<[i32; 2]> {
    let mut pts = Vec::new();
    while let Some(p) = dl.next() {
        pts.push(p);
    }
    pts
}

#[test]
fn stepper_walks_a_horizontal_line_point_by_point() {
    let pts = collect(Line::new([0, 0], [4, 0]).iter());
    assert_eq!(pts, vec![[0, 0], [1, 0], [2, 0], [3, 0], [4, 0]]);
}

#[test]
fn stepper_walks_a_sloped_line_within_bounds() {
    let pts = collect(Line::new([0, 0], [3, 2]).iter());
    assert_eq!(pts.first(), Some(&[0, 0]));
    assert_eq!(pts.last(), Some(&[3, 2]));
    assert!(pts.len() >= 3 + 1);
    assert!(pts.len() <= 3 + 2 + 1);
    for w in pts.windows(2) {
        assert!((w[0][0] - w[1][0]).abs() <= 1);
        assert!((w[0][1] - w[1][1]).abs() <= 1);
    }
}

#[test]
fn stepper_start_and_end_report_the_clipped_points() {
    let dl = Line::new([2, 3], [7, 5]).draw(0, 10, 0, 10);
    assert_eq!(dl.start(), [2, 3]);
    assert_eq!(dl.end(), [7, 5]);
}

#[test]
fn stepper_emits_the_endpoint_exactly_once() {
    let pts = collect(Line::new([3, 3], [3, 3]).iter());
    assert_eq!(pts, vec![[3, 3]]);
}

#[test]
fn line_outside_the_widened_canvas_paints_nothing() {
    let mut c = Canvas::new(8, 8, WHITE);
    c.line([-100, -50], [-90, -40], 3, RED);
    let bytes = c.export();
    assert!(bytes.iter().all(|&b| b == 0xFF));
}

#[test]
fn line_of_width_zero_paints_nothing() {
    // a stroke of width zero stamps the empty disc at every stepped point
    let mut c = Canvas::new(8, 8, WHITE);
    c.line([1, 1], [6, 6], 0, RED);
    let bytes = c.export();
    assert!(bytes.iter().all(|&b| b == 0xFF));
}

#[test]
fn one_pixel_line_follows_the_stepped_points() {
    let mut c = Canvas::new(8, 8, WHITE);
    c.line([0, 0], [4, 0], 1, RED);
    for x in 0..5 {
        assert_eq!(c.pixel(x, 0), Some(&RED));
    }
    assert_eq!(c.pixel(5, 0), Some(&WHITE));
    assert_eq!(c.pixel(0, 1), Some(&WHITE));
}

#[test]
fn board_frame_paints_the_scrolled_parity() {
    let c = simple3d::board::frame(2, 0);
    for y in 0..18usize {
        for x in 0..32usize {
            let expect = if (x / 2 + y / 2) % 2 == 1 {
                [0xFF, 0x00, 0x00]
            } else {
                [0x00, 0x00, 0x00]
            };
            assert_eq!(c.pixel(x, y), Some(&expect));
        }
    }
}

#[test]
fn board_frame_scrolls_with_the_frame_number() {
    let c0 = simple3d::board::frame(2, 0);
    let c2 = simple3d::board::frame(2, 2);
    // two frames on, each pixel shows what lay one cell up and to the
    // right: the board scrolls diagonally
    for y in 0..16usize {
        for x in 0..30usize {
            assert_eq!(c2.pixel(x, y), c0.pixel(x + 2, y + 2));
        }
    }
    assert_eq!(c2.pixel(2, 0), Some(&[0xFF, 0x00, 0x00]));
}

#[test]
fn construction_rejects_degenerate_dimensions() {
    assert!(Canvas::try_new(0, 5, WHITE).is_none());
    assert!(Canvas::try_new(5, 0, WHITE).is_none());
    let c = Canvas::try_new(5, 4, WHITE).unwrap();
    assert_eq!(c.pixel(4, 3), Some(&WHITE));
}

#[test]
fn unchecked_access_reads_the_grid() {
    let mut c = Canvas::new(4, 4, WHITE);
    c.pixel_mut(3, 2, RED);
    assert_eq!(c.pixel_unchecked(3, 2), &RED);
    assert_eq!(c.pixel_unchecked(0, 0), &WHITE);
}
