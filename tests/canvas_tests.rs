use ray_tracer_challenge::{canvas_from_ppm, canvas_to_ppm, Canvas, Rgb};

fn black() -> Rgb {
    Rgb::new(0, 0, 0)
}

#[test]
fn creating_a_canvas() {
    let c = Canvas::new(10, 20, (0.0f32, 0.0f32, 0.0f32));
    assert_eq!(c.width, 10);
    assert_eq!(c.height, 20);
    assert_eq!(c.pixels.len(), 200);
    assert!(c.pixels.iter().all(|c| *c == (0.0, 0.0, 0.0)));
}

#[test]
fn writing_pixels_to_a_canvas() {
    let mut c = Canvas::new(10, 20, (0.0f32, 0.0f32, 0.0f32));
    let red = (1.0f32, 0.0f32, 0.0f32);
    c.write_pixel(2, 3, red);
    assert_eq!(c.pixel_at(2, 3), red);
    assert_eq!(c.pixel_at(3, 2), (0.0, 0.0, 0.0));
}

#[test]
fn constructing_ppm_header() {
    let c = Canvas::new(5, 3, black());
    let ppm = canvas_to_ppm(c);
    assert_eq!(
        ppm,
        "P3\n5 3\n255\n0 0 0 0 0 0 0 0 0 0 0 0 0 0 0\n0 0 0 0 0 0 0 0 0 0 0 0 0 0 0\n0 0 0 0 0 0 0 0 0 0 0 0 0 0 0\n"
    );
}

#[test]
fn constructing_ppm_data() {
    // color(1.5, 0, 0), color(0, 0.5, 0) and color(-0.5, 0, 1) quantise to these levels.
    let mut c = Canvas::new(5, 3, black());
    c.write_pixel(0, 0, Rgb::new(255, 0, 0));
    c.write_pixel(2, 1, Rgb::new(0, 128, 0));
    c.write_pixel(4, 2, Rgb::new(0, 0, 255));
    let ppm = canvas_to_ppm(c);
    assert_eq!(
        ppm,
        "P3\n5 3\n255\n255 0 0 0 0 0 0 0 0 0 0 0 0 0 0\n0 0 0 0 0 0 0 128 0 0 0 0 0 0 0\n0 0 0 0 0 0 0 0 0 0 0 0 0 0 255\n"
    );
}

#[test]
fn splitting_long_lines_in_ppm_files() {
    // color(1.0, 0.8, 0.6) quantises to 255 204 153.
    let mut c = Canvas::new(10, 2, black());
    for y in 0..2 {
        for x in 0..10 {
            c.write_pixel(x, y, Rgb::new(255, 204, 153));
        }
    }
    let ppm = canvas_to_ppm(c);
    assert_eq!(
        ppm,
        "P3\n10 2\n255\n\
255 204 153 255 204 153 255 204 153 255 204 153 255 204 153 255 204\n\
153 255 204 153 255 204 153 255 204 153 255 204 153\n\
255 204 153 255 204 153 255 204 153 255 204 153 255 204 153 255 204\n\
153 255 204 153 255 204 153 255 204 153 255 204 153\n"
    );
}

#[test]
fn ppm_files_are_terminated_by_newline_character() {
    let c = Canvas::new(5, 3, black());
    let ppm = canvas_to_ppm(c);
    assert!(ppm.ends_with('\n'));
    assert_eq!(
        ppm,
        "P3\n5 3\n255\n0 0 0 0 0 0 0 0 0 0 0 0 0 0 0\n0 0 0 0 0 0 0 0 0 0 0 0 0 0 0\n0 0 0 0 0 0 0 0 0 0 0 0 0 0 0\n"
    );
}

#[test]
fn empty_canvas_is_header_only() {
    assert_eq!(canvas_to_ppm(Canvas::new(0, 2, black())), "P3\n0 2\n255\n");
    assert_eq!(canvas_to_ppm(Canvas::new(3, 0, black())), "P3\n3 0\n255\n");
}

#[test]
fn no_line_is_longer_than_seventy_characters() {
    let mut c = Canvas::new(40, 3, black());
    for y in 0..3 {
        for x in 0..40 {
            c.write_pixel(x, y, Rgb::new(100 + x as u8, (7 * y) as u8, 255));
        }
    }
    let ppm = canvas_to_ppm(c);
    assert!(ppm.lines().all(|l| l.len() <= 69));
    assert!(ppm.lines().all(|l| !l.starts_with(' ') && !l.ends_with(' ')));
}

#[test]
fn round_trip_recovers_levels() {
    let mut c = Canvas::new(7, 4, black());
    for y in 0..4 {
        for x in 0..7 {
            c.write_pixel(x, y, Rgb::new((x * 37) as u8, (y * 61 + 5) as u8, ((x + y) * 29) as u8));
        }
    }
    let pixels = c.pixels.clone();
    let text = canvas_to_ppm(c);
    let back = canvas_from_ppm(&text).unwrap();
    assert_eq!(back.width, 7);
    assert_eq!(back.height, 4);
    assert_eq!(back.pixels, pixels);
}

#[test]
fn round_trip_of_float_colors_is_within_one_level() {
    let colors = [(0.0f32, 0.5f32, 1.0f32), (0.2, 0.81, 0.999), (0.0039, 0.996, 0.5)];
    let mut c = Canvas::new(3, 1, black());
    for (x, (r, g, b)) in colors.iter().enumerate() {
        let q = |v: f32| (v * 255.0).clamp(0.0, 255.0).round() as u8;
        c.write_pixel(x as i32, 0, Rgb::new(q(*r), q(*g), q(*b)));
    }
    let back = canvas_from_ppm(&canvas_to_ppm(c)).unwrap();
    for (x, (r, g, b)) in colors.iter().enumerate() {
        let p = back.pixels[x];
        assert!((p.red as f32 / 255.0 - r).abs() <= 1.0 / 255.0);
        assert!((p.green as f32 / 255.0 - g).abs() <= 1.0 / 255.0);
        assert!((p.blue as f32 / 255.0 - b).abs() <= 1.0 / 255.0);
    }
}

#[test]
fn decoding_accepts_any_whitespace() {
    let c = canvas_from_ppm("P3 2\t1\r\n255   1 2 3\n\n 4 5 006 ").unwrap();
    assert_eq!(c.width, 2);
    assert_eq!(c.height, 1);
    assert_eq!(c.pixels, vec![Rgb::new(1, 2, 3), Rgb::new(4, 5, 6)]);
}

#[test]
fn decoding_rejects_malformed_text() {
    assert!(canvas_from_ppm("").is_none());
    assert!(canvas_from_ppm("P6\n1 1\n255\n0 0 0\n").is_none());
    assert!(canvas_from_ppm("P3\n1 1\n100\n0 0 0\n").is_none());
    assert!(canvas_from_ppm("P3\n1 1\n255\n0 0\n").is_none());
    assert!(canvas_from_ppm("P3\n1 1\n255\n0 0 0 0\n").is_none());
    assert!(canvas_from_ppm("P3\n1 1\n255\n0 256 0\n").is_none());
    assert!(canvas_from_ppm("P3\n1 1\n255\n0 x 0\n").is_none());
    assert!(canvas_from_ppm("P3\n1 1\n255\n0 -1 0\n").is_none());
    assert!(canvas_from_ppm("P3\n1 1\n255\n0 \u{e9} 0\n").is_none());
    assert!(canvas_from_ppm("P3\n99999999999 0\n255\n").is_none());
    assert!(canvas_from_ppm("P3\n65536 65536\n255\n").is_none());
}

#[test]
fn decoding_header_only_text() {
    let c = canvas_from_ppm("P3\n0 2\n255\n").unwrap();
    assert_eq!((c.width, c.height), (0, 2));
    assert!(c.pixels.is_empty());
}

#[test]
fn canvas_from_fn_fills_row_by_row() {
    let c = Canvas::from_fn(4, 3, |x, y| (x, y));
    assert_eq!(c.pixels.len(), 12);
    assert_eq!(c.pixel_at(2, 1), (2, 1));
    assert_eq!(c.pixels[5], (1, 1));
    assert_eq!(c.pixels[11], (3, 2));
    let again = Canvas::from_fn(4, 3, |x, y| (x, y));
    assert_eq!(again.pixels, c.pixels);
}
