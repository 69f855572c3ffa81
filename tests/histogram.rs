use potrace::constants::{FillStrategies, TraceError};
use potrace::histogram::{normalize_min_max, Histogram, Mode};
use potrace::posterizer::{equal_thresholds, reversed, sorted_levels, PosterizerOptions, Posterizer, Steps};
use potrace::potrace::PotraceOptions;

fn gradient() -> Vec<u8> {
    let mut rgba = Vec::new();
    for v in 0..=255u8 {
        rgba.extend_from_slice(&[v, v, v, 255]);
    }
    rgba
}

fn levels(values: &[u8]) -> Vec<u8> {
    let mut rgba = Vec::new();
    for &v in values {
        rgba.extend_from_slice(&[v, v, v, 255]);
    }
    rgba
}

#[test]
fn histogram_counts_every_pixel() {
    let rgba = levels(&[0, 0, 10, 200, 200, 200]);
    let h = Histogram::new(6, 1, &rgba);
    assert_eq!(h.pixels, 6);
    assert_eq!(h.lum.iter().sum::<u64>(), 6);
    assert_eq!(h.lum[0], 2);
    assert_eq!(h.lum[10], 1);
    assert_eq!(h.lum[200], 3);
    assert_eq!(h.red[200], 3);
    let st = h.get_stats(0, 255).unwrap();
    assert_eq!(st.pixels, 6);
}

#[test]
fn stats_of_a_range() {
    let rgba = levels(&[0, 0, 10, 200, 200, 200]);
    let h = Histogram::new(6, 1, &rgba);
    let st = h.get_stats(0, 100).unwrap();
    assert_eq!(st.pixels, 3);
    assert_eq!(st.levels.mean, 3);
    assert_eq!(st.levels.unique, 2);
    assert_eq!(st.pixels_per_level.peak, 2);
    assert_eq!(st.pixels_per_level.mean, 0);
    assert_eq!(st.pixels_per_level.median, 1);
    // deviations 9 + 9 + 49 = 67 over 3 pixels: 22, square root 4
    assert_eq!(st.levels.std_dev, 4);
    // levels are walked by ascending count: the empty ones add nothing, level 10 reaches half
    assert_eq!(st.levels.median, 10);
}

#[test]
fn inverted_range_is_rejected() {
    let h = Histogram::new(6, 1, &levels(&[0, 0, 10, 200, 200, 200]));
    assert_eq!(h.get_stats(200, 100).unwrap_err(), TraceError::InvalidParameters);
    assert_eq!(normalize_min_max(Some(300), Some(-5)), Err(TraceError::InvalidParameters));
    assert_eq!(normalize_min_max(Some(-5), Some(300)), Ok((0, 255)));
}

#[test]
fn sorted_indexes_follow_counts() {
    let h = Histogram::new(6, 1, &levels(&[0, 0, 10, 200, 200, 200]));
    let s = h.get_sorted_indexes(Mode::L);
    assert_eq!(s.len(), 256);
    assert_eq!(s[253], 10);
    assert_eq!(s[254], 0);
    assert_eq!(s[255], 200);
    assert_eq!(s[0], 1);
}

#[test]
fn dominant_color() {
    let h = Histogram::new(6, 1, &levels(&[0, 0, 10, 200, 200, 200]));
    assert_eq!(h.get_dominant_color(0, 255, None).unwrap(), 200);
    assert_eq!(h.get_dominant_color(0, 100, Some(1)).unwrap(), 0);
    assert_eq!(h.get_dominant_color(50, 100, None).unwrap(), -1);
    assert_eq!(h.get_dominant_color(10, 10, None).unwrap(), 10);
    assert_eq!(h.get_dominant_color(11, 11, None).unwrap(), -1);
}

#[test]
fn dominant_color_window_is_symmetric() {
    // counts 1, 0, 0, 5 at levels 0..=3
    let h = Histogram::new(6, 1, &levels(&[0, 3, 3, 3, 3, 3]));
    assert_eq!(h.get_dominant_color(0, 1, Some(3)).unwrap(), 0);
}

#[test]
fn dominant_color_of_empty_range() {
    // level 0 holds 5 pixels, levels 1..=2 none
    let h = Histogram::new(5, 1, &levels(&[0, 0, 0, 0, 0]));
    assert_eq!(h.get_dominant_color(1, 2, Some(2)).unwrap(), -1);
}

#[test]
fn gradient_two_thresholds() {
    let mut h = Histogram::new(256, 1, &gradient());
    let t = h.multilevel_thresholding(2, None, None).unwrap();
    assert_eq!(t.len(), 2);
    assert!(t[0] < t[1]);
    assert!((70..=100).contains(&t[0]), "{:?}", t);
    assert!((155..=185).contains(&t[1]), "{:?}", t);
}

#[test]
fn thresholds_stay_inside_the_range() {
    let mut h = Histogram::new(256, 1, &gradient());
    let t = h.multilevel_thresholding(4, Some(40), Some(200)).unwrap();
    assert_eq!(t.len(), 4);
    for w in t.windows(2) {
        assert!(w[0] < w[1]);
    }
    assert!(t[0] > 40 && t[3] < 200);
}

#[test]
fn narrow_range_gives_fewer_thresholds() {
    let mut h = Histogram::new(256, 1, &gradient());
    assert_eq!(h.multilevel_thresholding(5, Some(10), Some(14)).unwrap().len(), 2);
    assert!(h.multilevel_thresholding(3, Some(10), Some(12)).unwrap().is_empty());
}

#[test]
fn single_level_image_thresholds() {
    // every cut scores the same: the first one wins
    let mut h = Histogram::new(3, 1, &levels(&[90, 90, 90]));
    assert_eq!(h.auto_threshold(None, None).unwrap(), Some(1));
    // with all pixels at level 0 every cut scores 0: no threshold
    let mut b = Histogram::new(3, 1, &levels(&[0, 0, 0]));
    assert_eq!(b.auto_threshold(None, None).unwrap(), None);
    let mut g = Histogram::new(256, 1, &gradient());
    let a = g.auto_threshold(None, None).unwrap().unwrap();
    assert!(a >= 1);
    assert!((100..=155).contains(&a), "{}", a);
}

#[test]
fn equal_steps() {
    assert_eq!(equal_thresholds(200, 4, true), vec![200, 150, 100, 50]);
    assert_eq!(equal_thresholds(200, 4, false), vec![55, 105, 155, 205]);
    assert!(equal_thresholds(200, 0, true).is_empty());
}

#[test]
fn level_lists() {
    assert_eq!(sorted_levels(&vec![30, -4, 10, 300, 30, 0]), vec![0, 10, 30]);
    assert_eq!(reversed(&vec![1, 2, 3]), vec![3, 2, 1]);
}

#[test]
fn posterizer_on_gradient_mean() {
    let mut o = PosterizerOptions::default();
    o.steps = Some(Steps::Count(3));
    o.fill_strategy = Some(FillStrategies::Mean);
    let mut p = Posterizer::from_rgba(256, 1, &gradient(), Some(o)).unwrap();
    let layers = p.get_layers();
    assert_eq!(layers.len(), 3);
    for w in layers.windows(2) {
        assert!(w[0].value > w[1].value);
    }
    for l in &layers {
        assert!(l.color >= 0 && l.color <= 255);
    }
    // fills get darker layer by layer, so the layer intensities (255 - color) / 255 rise
    // strictly and stay in (0, 1]
    assert!(layers[0].color > layers[1].color && layers[1].color > layers[2].color);
    assert!(layers[0].color < 255);
}

#[test]
fn posterizer_explicit_thresholds() {
    let mut o = PosterizerOptions::default();
    o.steps = Some(Steps::Thresholds(vec![50, 100, 100, 300]));
    let mut potrace = PotraceOptions::default();
    potrace.threshold = Some(150);
    o.potrace = Some(potrace);
    let mut p = Posterizer::from_rgba(256, 1, &gradient(), Some(o)).unwrap();
    let values: Vec<u8> = p.get_ranges().iter().map(|c| c.value).collect();
    assert_eq!(values, vec![50, 100, 150]);
    // light on dark: decreasing
    let mut o = PosterizerOptions::default();
    o.steps = Some(Steps::Thresholds(vec![200, 20]));
    let mut potrace = PotraceOptions::default();
    potrace.threshold = Some(100);
    potrace.black_on_white = false;
    o.potrace = Some(potrace);
    let mut q = Posterizer::from_rgba(256, 1, &gradient(), Some(o)).unwrap();
    let values: Vec<u8> = q.get_ranges().iter().map(|c| c.value).collect();
    assert_eq!(values, vec![200, 100, 20]);
}

#[test]
fn posterizer_threshold() {
    let mut p = Posterizer::from_rgba(256, 1, &gradient(), None).unwrap();
    let t = p.get_threshold();
    assert!((155..=185).contains(&t), "{}", t);
    let mut q = Posterizer::from_rgba(4, 1, &levels(&[0, 0, 0, 0]), None).unwrap();
    assert_eq!(q.get_threshold(), 128);
}

#[test]
fn posterizer_on_white_image_has_empty_layers() {
    let rgba = vec![255u8; 4 * 100];
    let mut o = PosterizerOptions::default();
    o.steps = Some(Steps::Count(3));
    let mut p = Posterizer::from_rgba(10, 10, &rgba, Some(o)).unwrap();
    let layers = p.get_layers();
    assert!(layers.iter().all(|l| l.color == -1 || l.color == 255));
}
