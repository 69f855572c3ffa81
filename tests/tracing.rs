use potrace::bitmap::Bitmap;
use potrace::constants::{SupportedTurnpolicyValues, TraceError};
use potrace::path::Sign;
use potrace::point::Point;
use potrace::potrace::{Potrace, PotraceOptions};
use potrace::utils::{cyclic, luminance, modulo};

fn white_rgba(w: usize, h: usize) -> Vec<u8> {
    vec![255u8; 4 * w * h]
}

fn paint_black(rgba: &mut Vec<u8>, w: usize, x: usize, y: usize) {
    let i = 4 * (y * w + x);
    rgba[i] = 0;
    rgba[i + 1] = 0;
    rgba[i + 2] = 0;
    rgba[i + 3] = 255;
}

fn options(turd_size: i32) -> PotraceOptions {
    let mut o = PotraceOptions::default();
    o.turd_size = turd_size;
    o
}

fn traced(w: usize, h: usize, rgba: &Vec<u8>, turd_size: i32) -> Potrace {
    traced_with(w, h, rgba, options(turd_size))
}

fn traced_with(w: usize, h: usize, rgba: &Vec<u8>, o: PotraceOptions) -> Potrace {
    let mut p = Potrace::from_rgba(w, h, rgba, Some(o)).unwrap();
    p.process_path().unwrap();
    p
}

#[test]
fn luminance_of_primaries() {
    assert_eq!(luminance(0, 0, 0), 0);
    assert_eq!(luminance(255, 255, 255), 255);
    assert_eq!(luminance(255, 0, 0), 54);
    assert_eq!(luminance(0, 255, 0), 182);
    assert_eq!(luminance(0, 0, 255), 18);
}

#[test]
fn modulo_and_cyclic() {
    assert_eq!(modulo(7, 5), 2);
    assert_eq!(modulo(3, 5), 3);
    assert!(cyclic(1, 2, 3));
    assert!(cyclic(4, 0, 2));
    assert!(!cyclic(4, 3, 2));
}

#[test]
fn bitmap_composites_over_white() {
    // opaque black, opaque white, fully transparent black, half transparent black
    let rgba = vec![0u8, 0, 0, 255, 255, 255, 255, 255, 0, 0, 0, 0, 0, 0, 0, 128];
    let bm = Bitmap::new(4, 1, &rgba).unwrap();
    assert_eq!(bm.data, vec![0, 255, 255, 127]);
}

#[test]
fn bitmap_rejects_bad_buffer() {
    let rgba = vec![0u8; 7];
    assert_eq!(Bitmap::new(2, 1, &rgba).unwrap_err(), TraceError::InvalidParameters);
}

#[test]
fn binarization_marks_cells_to_trace() {
    let rgba = vec![0u8, 0, 0, 255, 100, 100, 100, 255, 200, 200, 200, 255];
    let bm = Bitmap::new(3, 1, &rgba).unwrap();
    assert_eq!(bm.generate_binary_bitmap(true, 100).data, vec![1, 1, 0]);
    assert_eq!(bm.generate_binary_bitmap(false, 100).data, vec![0, 1, 1]);
}

#[test]
fn binarization_polarities_are_complementary() {
    let mut rgba = Vec::new();
    for v in 0..=255u8 {
        rgba.extend_from_slice(&[v, v, v, 255]);
    }
    let bm = Bitmap::new(256, 1, &rgba).unwrap();
    let dark = bm.generate_binary_bitmap(true, 120);
    let light = bm.generate_binary_bitmap(false, 121);
    for i in 0..256 {
        assert_eq!(dark.data[i] + light.data[i], 1);
    }
    let mut inverted = Vec::new();
    for v in 0..=255u8 {
        let u = 255 - v;
        inverted.extend_from_slice(&[u, u, u, 255]);
    }
    let ibm = Bitmap::new(256, 1, &inverted).unwrap();
    assert_eq!(ibm.generate_binary_bitmap(false, 255 - 120).data, dark.data);
}

#[test]
fn find_next_scans_row_major() {
    let mut rgba = white_rgba(4, 3);
    paint_black(&mut rgba, 4, 2, 1);
    let bm = Bitmap::new(4, 3, &rgba).unwrap().generate_binary_bitmap(true, 128);
    assert_eq!(bm.find_next(Point::new(0, 0)), Some(Point::new(2, 1)));
    assert_eq!(bm.find_next(Point::new(3, 1)), None);
}

#[test]
fn find_path_closes_with_unit_steps() {
    let mut rgba = white_rgba(6, 6);
    for y in 1..4 {
        for x in 1..3 {
            paint_black(&mut rgba, 6, x, y);
        }
    }
    let bm = Bitmap::new(6, 6, &rgba).unwrap().generate_binary_bitmap(true, 128);
    let seed = bm.find_next(Point::new(0, 0)).unwrap();
    let path = bm.find_path(seed, Sign::Plus, SupportedTurnpolicyValues::Minority).unwrap();
    assert_eq!(path.len, path.pt.len());
    assert_eq!(path.pt[0], seed);
    assert_eq!(path.len, 10);
    for i in 0..path.len {
        let a = path.pt[i];
        let b = path.pt[(i + 1) % path.len];
        assert_eq!((a.x - b.x).abs() + (a.y - b.y).abs(), 1);
    }
    assert_eq!(path.area, 6);
    assert_eq!((path.min_x, path.max_x, path.min_y, path.max_y), (1, 3, 1, 4));
}

#[test]
fn xor_path_clears_the_region() {
    let mut rgba = white_rgba(5, 5);
    for y in 1..3 {
        for x in 1..4 {
            paint_black(&mut rgba, 5, x, y);
        }
    }
    let mut bm = Bitmap::new(5, 5, &rgba).unwrap().generate_binary_bitmap(true, 128);
    let seed = bm.find_next(Point::new(0, 0)).unwrap();
    let path = bm.find_path(seed, Sign::Plus, SupportedTurnpolicyValues::Minority).unwrap();
    bm.xor_path(&path);
    assert!(bm.data.iter().all(|&v| v == 0));
    assert_eq!(bm.find_next(seed), None);
}

#[test]
fn majority_votes_on_rings() {
    let mut rgba = white_rgba(8, 8);
    for y in 0..8 {
        for x in 0..4 {
            paint_black(&mut rgba, 8, x, y);
        }
    }
    let bm = Bitmap::new(8, 8, &rgba).unwrap().generate_binary_bitmap(true, 128);
    assert!(bm.majority(3, 4));
    assert!(!bm.majority(5, 4));
}

#[test]
fn empty_image_traces_nothing() {
    let rgba = white_rgba(10, 10);
    let p = traced(10, 10, &rgba, 2);
    assert!(p.paths().is_empty());
}

#[test]
fn single_black_pixel() {
    let mut rgba = white_rgba(10, 10);
    paint_black(&mut rgba, 10, 4, 4);
    let p = traced(10, 10, &rgba, 0);
    assert_eq!(p.paths().len(), 1);
    let path = &p.paths()[0];
    assert_eq!(path.area, 1);
    assert_eq!((path.min_x, path.max_x, path.min_y, path.max_y), (4, 5, 4, 5));
}

#[test]
fn checkerboard_paths() {
    let mut rgba = white_rgba(10, 10);
    for y in 0..10 {
        for x in 0..10 {
            if (x + y) % 2 == 0 {
                paint_black(&mut rgba, 10, x, y);
            }
        }
    }
    // ambiguous diagonal junctions resolved by turning toward the current cell
    let mut o = options(0);
    o.turn_policy = SupportedTurnpolicyValues::Left;
    let p = traced_with(10, 10, &rgba, o.clone());
    assert_eq!(p.paths().len(), 50);
    assert!(p.paths().iter().all(|path| path.area == 1));
    o.turd_size = 1;
    let q = traced_with(10, 10, &rgba, o);
    assert_eq!(q.paths().len(), 0);
}

#[test]
fn checkerboard_minority_joins_diagonals() {
    let mut rgba = white_rgba(10, 10);
    for y in 0..10 {
        for x in 0..10 {
            if (x + y) % 2 == 0 {
                paint_black(&mut rgba, 10, x, y);
            }
        }
    }
    let p = traced(10, 10, &rgba, 0);
    assert_eq!(p.paths().len(), 5);
}

#[test]
fn vertical_stripe() {
    let mut rgba = white_rgba(10, 10);
    for y in 0..10 {
        for x in 3..7 {
            paint_black(&mut rgba, 10, x, y);
        }
    }
    let p = traced(10, 10, &rgba, 2);
    assert_eq!(p.paths().len(), 1);
    let path = &p.paths()[0];
    assert_eq!(path.area, 40);
    assert_eq!(path.m, 4);
    assert_eq!(path.po.len(), 4);
    assert_eq!(path.sums.len(), path.len + 1);
    assert_eq!(path.lon.len(), path.len);
}

#[test]
fn hole_is_traced_with_minus_sign() {
    let mut rgba = white_rgba(7, 7);
    for y in 1..6 {
        for x in 1..6 {
            if !(x == 3 && y == 3) {
                paint_black(&mut rgba, 7, x, y);
            }
        }
    }
    let p = traced(7, 7, &rgba, 0);
    assert_eq!(p.paths().len(), 2);
    assert_eq!(p.paths()[0].sign, Sign::Plus);
    assert_eq!(p.paths()[0].area, 25);
    assert_eq!(p.paths()[1].sign, Sign::Minus);
    assert_eq!(p.paths()[1].area, 1);
}

#[test]
fn penalty_of_a_straight_edge_is_zero() {
    let mut rgba = white_rgba(10, 10);
    for y in 0..10 {
        for x in 3..7 {
            paint_black(&mut rgba, 10, x, y);
        }
    }
    let p = traced(10, 10, &rgba, 2);
    let path = &p.paths()[0];
    // along the left side of the stripe every point lies on the edge
    assert_eq!(path.penalty3(0, 5), 0);
}

#[test]
fn set_parameters_twice_keeps_state() {
    let mut rgba = white_rgba(10, 10);
    paint_black(&mut rgba, 10, 4, 4);
    let mut p = traced(10, 10, &rgba, 0);
    let mut o = options(0);
    o.turd_size = 3;
    p.set_parameters(o.clone());
    assert!(!p.processed);
    p.set_parameters(o.clone());
    assert!(!p.processed);
    assert_eq!(p.params.turd_size, 3);
    p.process_path().unwrap();
    assert_eq!(p.paths().len(), 0);
}

#[test]
fn color_change_does_not_retrace() {
    let mut rgba = white_rgba(10, 10);
    paint_black(&mut rgba, 10, 4, 4);
    let mut p = traced(10, 10, &rgba, 0);
    let mut o = options(0);
    o.color = "red".to_string();
    o.background = "blue".to_string();
    p.set_parameters(o);
    assert!(p.processed);
    assert_eq!(p.paths().len(), 1);
}

#[test]
fn processing_twice_gives_same_paths() {
    let mut rgba = white_rgba(10, 10);
    paint_black(&mut rgba, 10, 2, 3);
    paint_black(&mut rgba, 10, 7, 7);
    let mut p = traced(10, 10, &rgba, 0);
    let first: Vec<Vec<Point>> = p.paths().iter().map(|x| x.pt.clone()).collect();
    p.process_path().unwrap();
    let second: Vec<Vec<Point>> = p.paths().iter().map(|x| x.pt.clone()).collect();
    assert_eq!(first, second);
    assert_eq!(first.len(), 2);
}

#[test]
fn automatic_threshold_is_positive() {
    let mut rgba = Vec::new();
    for v in 0..=255u8 {
        rgba.extend_from_slice(&[v, v, v, 255]);
    }
    let mut p = Potrace::from_rgba(256, 1, &rgba, None).unwrap();
    let t = p.get_threshold();
    assert!(t >= 1);
    let mut q = Potrace::from_rgba(256, 1, &rgba, Some({
        let mut o = PotraceOptions::default();
        o.threshold = Some(77);
        o
    }))
    .unwrap();
    assert_eq!(q.get_threshold(), 77);
}

#[test]
fn black_image_falls_back_to_128() {
    let mut rgba = white_rgba(4, 4);
    for y in 0..4 {
        for x in 0..4 {
            paint_black(&mut rgba, 4, x, y);
        }
    }
    let mut p = Potrace::from_rgba(4, 4, &rgba, None).unwrap();
    assert_eq!(p.get_threshold(), 128);
    let mut w = Potrace::from_rgba(4, 4, &white_rgba(4, 4), None).unwrap();
    assert_eq!(w.get_threshold(), 1);
}

#[test]
fn bad_base64_is_reported() {
    assert_eq!(Potrace::new("not base64 !!", None).unwrap_err(), TraceError::ImageNotLoaded);
}

#[test]
fn undecodable_image_is_reported() {
    let text = base64::encode(b"plain bytes, not an image");
    assert_eq!(Potrace::new(&text, None).unwrap_err(), TraceError::ImageNotLoaded);
}

#[test]
fn png_image_is_loaded() {
    let mut buf = image::RgbaImage::new(3, 2);
    for (x, y, px) in buf.enumerate_pixels_mut() {
        *px = if x == 1 && y == 1 { image::Rgba([0, 0, 0, 255]) } else { image::Rgba([255, 255, 255, 255]) };
    }
    let mut bytes: Vec<u8> = Vec::new();
    image::DynamicImage::ImageRgba8(buf)
        .write_to(&mut bytes, image::ImageOutputFormat::Png)
        .unwrap();
    let text = base64::encode(&bytes);
    let p = Potrace::new(&text, None).unwrap();
    assert_eq!((p.luminance_data.width, p.luminance_data.height), (3, 2));
    assert_eq!(p.luminance_data.data, vec![255, 255, 255, 255, 0, 255]);
}
