use vstd::prelude::*;
use crate::bitmap::Bitmap;
use crate::constants::{
    SupportedTurnpolicyValues, TraceError, COLOR_AUTO, COLOR_TRANSPARENT, MAX_SIDE,
};
use crate::histogram::{best_split, Histogram};
use crate::path::{Path, Sign};
use crate::point::Point;

verus! {

/// What base64 decoding gives for a text: the bytes, or `None` when it is not valid base64.
pub uninterp spec fn base64_decoded(s: Seq<char>) -> Option<Seq<u8>>;

/// What image decoding gives for encoded bytes: width, height and RGBA8 pixels, or `None`.
pub uninterp spec fn decoded_rgba(bytes: Seq<u8>) -> Option<(u32, u32, Seq<u8>)>;

/// Relies on `base64::decode`, which decodes with the standard alphabet and fails on invalid input.
#[verifier::external_body]
fn decode_base64(s: &str) -> (r: Option<Vec<u8>>)
    ensures
        r matches Some(v) ==> base64_decoded(s@) == Some(v@),
        r is None ==> base64_decoded(s@) is None,
{
    match base64::decode(s) {
        Ok(v) => Some(v),
        Err(_) => None,
    }
}

/// Relies on `image::load_from_memory` (format guessed from the bytes; PNG, JPEG and BMP
/// decoders are built, other formats give an error) and `DynamicImage::into_rgba8`: the
/// decoded image as width, height and RGBA8 pixels.
#[verifier::external_body]
fn decode_image(bytes: &Vec<u8>) -> (r: Option<(u32, u32, Vec<u8>)>)
    ensures
        r matches Some(t) ==> decoded_rgba(bytes@) == Some((t.0, t.1, t.2@)),
        r is None ==> decoded_rgba(bytes@) is None,
{
    match image::load_from_memory(bytes.as_slice()) {
        Ok(img) => {
            let buf = img.into_rgba8();
            Some((buf.width(), buf.height(), buf.into_raw()))
        },
        Err(_) => None,
    }
}

/// The text decodes to an image of at most `MAX_SIDE` pixels a side with one RGBA quadruple
/// per pixel.
pub open spec fn image_fits(text: Seq<char>) -> bool {
    &&& base64_decoded(text) is Some
    &&& decoded_rgba(base64_decoded(text)->Some_0) matches Some((w, h, px)) && w <= MAX_SIDE && h
        <= MAX_SIDE && px.len() == 4 * w * h
}

/// Tracing parameters.
#[derive(Clone, Debug)]
pub struct PotraceOptions {
    /// How ambiguous turns of the contour walk are resolved.
    pub turn_policy: SupportedTurnpolicyValues,
    /// Contours enclosing at most this area are dropped.
    pub turd_size: i32,
    /// Corner threshold, in thousandths.
    pub alpha_max: u32,
    /// Whether runs of curve segments are merged.
    pub opt_curve: bool,
    /// Curve merging tolerance, in thousandths of a pixel.
    pub opt_tolerance: u32,
    /// Binarization threshold; `None` picks one from the histogram.
    pub threshold: Option<u8>,
    pub black_on_white: bool,
    pub color: String,
    pub background: String,
    pub width: Option<usize>,
    pub height: Option<usize>,
}

impl Default for PotraceOptions {
    fn default() -> (o: PotraceOptions)
        ensures
            o.turn_policy == SupportedTurnpolicyValues::Minority,
            o.turd_size == 2,
            o.alpha_max == 1000,
            o.opt_curve,
            o.opt_tolerance == 200,
            o.threshold is None,
            o.black_on_white,
            o.color@ == COLOR_AUTO@,
            o.background@ == COLOR_TRANSPARENT@,
            o.width is None,
            o.height is None,
    {
        PotraceOptions {
            turn_policy: SupportedTurnpolicyValues::Minority,
            turd_size: 2,
            alpha_max: 1000,
            opt_curve: true,
            opt_tolerance: 200,
            threshold: None,
            black_on_white: true,
            color: COLOR_AUTO.to_owned(),
            background: COLOR_TRANSPARENT.to_owned(),
            width: None,
            height: None,
        }
    }
}

/// The two option sets trace the same paths: they differ at most in color and background.
pub open spec fn same_tracing(a: PotraceOptions, b: PotraceOptions) -> bool {
    &&& a.turn_policy == b.turn_policy
    &&& a.turd_size == b.turd_size
    &&& a.alpha_max == b.alpha_max
    &&& a.opt_curve == b.opt_curve
    &&& a.opt_tolerance == b.opt_tolerance
    &&& a.threshold == b.threshold
    &&& a.black_on_white == b.black_on_white
    &&& a.width == b.width
    &&& a.height == b.height
}

fn same_tracing_exec(a: &PotraceOptions, b: &PotraceOptions) -> (r: bool)
    ensures
        r == same_tracing(*a, *b),
{
    let th = match (a.threshold, b.threshold) {
        (Some(x), Some(y)) => x == y,
        (None, None) => true,
        _ => false,
    };
    let w = match (a.width, b.width) {
        (Some(x), Some(y)) => x == y,
        (None, None) => true,
        _ => false,
    };
    let h = match (a.height, b.height) {
        (Some(x), Some(y)) => x == y,
        (None, None) => true,
        _ => false,
    };
    a.turn_policy == b.turn_policy && a.turd_size == b.turd_size && a.alpha_max == b.alpha_max
        && a.opt_curve == b.opt_curve && a.opt_tolerance == b.opt_tolerance && th
        && a.black_on_white == b.black_on_white && w && h
}

/// The points form a closed walk on the pixel-edge grid: each step, the closing one
/// included, moves one unit along one axis.
pub open spec fn closed_walk(pt: Seq<Point>) -> bool {
    &&& pt.len() >= 1
    &&& forall|j: int| 0 <= j < pt.len() - 1 ==> crate::point::unit_step(#[trigger] pt[j], pt[j + 1])
    &&& crate::point::unit_step(pt[pt.len() - 1], pt[0])
}

/// A traced contour with its polygon tables filled in.
pub open spec fn path_ready(p: Path) -> bool {
    &&& closed_walk(p.pt@)
    &&& p.sums_ok()
    &&& p.lon_ok()
    &&& p.m == p.po@.len()
    &&& 1 <= p.m <= p.len
    &&& forall|j: int| 0 <= j < p.m ==> #[trigger] p.po@[j] < p.len
    &&& p.po@[0] == 0
    &&& forall|a: int, b: int| 0 <= a < b < p.m ==> #[trigger] p.po@[a] < #[trigger] p.po@[b]
    &&& crate::path::lon_monotone(p.lon@, p.len as int)
    &&& crate::path::polygon_edges_allowed(p.po@, p.lon@, p.len as int)
}

/// Traces an image into contours and the polygons that fit them.
#[derive(Clone, Debug)]
pub struct Potrace {
    pub luminance_data: Bitmap,
    pub histogram: Histogram,
    pub pathlist: Vec<Path>,
    pub processed: bool,
    pub params: PotraceOptions,
}

impl Potrace {
    pub open spec fn wf(&self) -> bool {
        &&& self.luminance_data.wf()
        &&& self.histogram.wf()
        &&& self.processed ==> forall|i: int|
            0 <= i < self.pathlist@.len() ==> path_ready(#[trigger] self.pathlist@[i])
    }

    /// Loads a `width` by `height` RGBA buffer.
    pub fn from_rgba(width: usize, height: usize, rgba: &Vec<u8>, options: Option<PotraceOptions>) -> (r:
        Result<Potrace, TraceError>)
        ensures
            r.is_ok() <==> (width <= MAX_SIDE && height <= MAX_SIDE && rgba@.len() == 4 * width
                * height),
            r is Err ==> r == Err::<Potrace, TraceError>(TraceError::InvalidParameters),
            r matches Ok(p) ==> {
                &&& p.wf()
                &&& !p.processed
                &&& p.pathlist@.len() == 0
                &&& (options matches Some(o) ==> p.params == o)
                &&& p.luminance_data.width == width
                &&& p.luminance_data.height == height
                &&& forall|i: int|
                    0 <= i < width * height ==> p.luminance_data.data@[i]
                        == crate::bitmap::pixel_lum(rgba@, i)
            },
    {
        let bitmap = match Bitmap::new(width, height, rgba) {
            Ok(b) => b,
            Err(e) => {
                return Err(e);
            },
        };
        let histogram = Histogram::new(width, height, rgba);
        let params = match options {
            Some(o) => o,
            None => PotraceOptions::default(),
        };
        Ok(Potrace { luminance_data: bitmap, histogram, pathlist: Vec::new(), processed: false, params })
    }

    /// Loads an image given as base64 text of an encoded image file.
    pub fn new(base64: &str, options: Option<PotraceOptions>) -> (r: Result<Potrace, TraceError>)
        ensures
            (base64_decoded(base64@) is None || decoded_rgba(base64_decoded(base64@)->Some_0) is None)
                <==> r == Err::<Potrace, TraceError>(TraceError::ImageNotLoaded),
            r is Ok <==> image_fits(base64@),
            r matches Ok(p) ==> {
                let (w, h, px) = decoded_rgba(base64_decoded(base64@)->Some_0)->Some_0;
                &&& p.wf()
                &&& !p.processed
                &&& p.pathlist@.len() == 0
                &&& (options matches Some(o) ==> p.params == o)
                &&& p.luminance_data.width == w
                &&& p.luminance_data.height == h
                &&& forall|i: int|
                    0 <= i < w * h ==> p.luminance_data.data@[i] == crate::bitmap::pixel_lum(px, i)
            },
    {
        let bytes = match decode_base64(base64) {
            Some(b) => b,
            None => {
                return Err(TraceError::ImageNotLoaded);
            },
        };
        let (w, h, px) = match decode_image(&bytes) {
            Some(t) => t,
            None => {
                return Err(TraceError::ImageNotLoaded);
            },
        };
        if w as u64 > MAX_SIDE as u64 || h as u64 > MAX_SIDE as u64 {
            return Err(TraceError::InvalidParameters);
        }
        let r = Potrace::from_rgba(w as usize, h as usize, &px, options);
        proof {
            if r is Ok {
                assert(decoded_rgba(bytes@) == Some((w, h, px@)));
            }
        }
        r
    }

    /// Replaces the parameters; traced paths are kept when only color or background change.
    pub fn set_parameters(&mut self, new_params: PotraceOptions)
        requires
            old(self).wf(),
        ensures
            final(self).wf(),
            parameters_set(*old(self), *final(self), new_params),
    {
        let keep = same_tracing_exec(&self.params, &new_params);
        self.processed = self.processed && keep;
        self.params = new_params;
    }

    /// The binarization threshold: the one set, else the histogram's automatic one, else 128.
    pub fn get_threshold(&mut self) -> (r: u8)
        requires
            old(self).wf(),
        ensures
            final(self).wf(),
            final(self).luminance_data == old(self).luminance_data,
            final(self).histogram.lum@ == old(self).histogram.lum@,
            final(self).pathlist@ == old(self).pathlist@,
            final(self).processed == old(self).processed,
            final(self).params == old(self).params,
            old(self).params.threshold matches Some(t) ==> r == t,
            old(self).params.threshold is None ==> r >= 1,
            old(self).params.threshold is None && best_split(old(self).histogram.lum@, 255, 1, 0, 1)
                == 0 ==> r == 128,
            old(self).params.threshold is None && best_split(old(self).histogram.lum@, 255, 1, 0, 1)
                != 0 ==> crate::histogram::is_greedy_split(
                old(self).histogram.lum@,
                seq![r],
                1,
                0,
                255,
            ),
    {
        match self.params.threshold {
            Some(t) => t,
            None => {
                match self.histogram.auto_threshold(None, None) {
                    Ok(Some(v)) => v,
                    _ => 128,
                }
            },
        }
    }

    /// Traces the binarized image: finds each contour in raster order, clears the region it
    /// bounds, and keeps the contours enclosing more than `turd_size`, with their polygons.
    #[verifier::rlimit(100)]
    fn bm_to_pathlist(&mut self) -> (r: Result<(), TraceError>)
        requires
            old(self).wf(),
        ensures
            final(self).wf(),
            final(self).luminance_data == old(self).luminance_data,
            final(self).params == old(self).params,
            final(self).histogram.lum@ == old(self).histogram.lum@,
            r is Ok ==> final(self).processed,
            r is Err ==> r == Err::<(), TraceError>(TraceError::DegenerateContour),
            r is Ok ==> traced(*old(self), final(self).pathlist@),
            r is Err ==> trace_fails(*old(self)),
    {
        let threshold = self.get_threshold();
        let bm = self.luminance_data.generate_binary_bitmap(self.params.black_on_white, threshold);
        let mut bm1 = bm.copy();
        let turd = self.params.turd_size as i64;
        let policy = self.params.turn_policy;
        let mut list: Vec<Path> = Vec::new();
        let mut idx: usize = 0;
        let ghost mut maps: Seq<Bitmap> = seq![bm1];
        let ghost mut seeds: Seq<Point> = Seq::empty();
        let ghost mut found: Seq<Path> = Seq::empty();
        let mut done = false;
        proof {
            assert(2 * ((bm.width + 1) * (bm.height + 1)) <= crate::path::MAX_LEN) by (nonlinear_arith)
                requires
                    bm.width <= MAX_SIDE,
                    bm.height <= MAX_SIDE,
            ;
            assert(threshold_choice(old(self).params, old(self).histogram.lum@, threshold));
            assert(binarized(old(self).luminance_data, bm, old(self).params.black_on_white, threshold));
        }
        while idx < bm1.size && !done
            invariant
                self.wf(),
                self.luminance_data == old(self).luminance_data,
                self.params == old(self).params,
                self.histogram.lum@ == old(self).histogram.lum@,
                threshold_choice(old(self).params, old(self).histogram.lum@, threshold),
                binarized(old(self).luminance_data, bm, old(self).params.black_on_white, threshold),
                policy == old(self).params.turn_policy,
                bm.wf(),
                bm1.wf(),
                bm1.is_binary(),
                bm1.width == bm.width,
                bm1.height == bm.height,
                2 * ((bm.width + 1) * (bm.height + 1)) <= crate::path::MAX_LEN,
                idx <= bm1.size,
                turd == self.params.turd_size,
                trace_prefix(bm, maps, seeds, found, policy),
                maps.last() == bm1,
                !done ==> idx == next_start(seeds, bm.width as int),
                done ==> no_seed(bm1, next_start(seeds, bm.width as int)),
                paths_match(list@, kept(found, turd as int)),
                forall|i: int| 0 <= i < list@.len() ==> path_ready(#[trigger] list@[i]),
                forall|i: int| 0 <= i < list@.len() ==> #[trigger] list@[i].area > turd,
            decreases bm1.size - idx,
        {
            let start = bm1.index_to_point(idx);
            proof {
                vstd::arithmetic::div_mod::lemma_fundamental_div_mod(idx as int, bm1.width as int);
                assert(start.y * bm1.width + start.x == idx) by (nonlinear_arith)
                    requires
                        start.x == idx % bm1.width,
                        start.y == idx / bm1.width,
                        idx == bm1.width * (idx / bm1.width) + idx % bm1.width,
                ;
            }
            match bm1.find_next(start) {
                None => {
                    done = true;
                    idx = bm1.size;
                },
                Some(p) => {
                    let sign = if bm.at(p.x, p.y) {
                        Sign::Plus
                    } else {
                        Sign::Minus
                    };
                    let ghost before = bm1;
                    proof {
                        assert(first_seed(before, idx as int, p));
                        assert(sign == sign_at(bm, p));
                    }
                    let mut path = match bm1.find_path(p, sign, policy) {
                        Ok(path) => path,
                        Err(e) => {
                            proof {
                                assert(trace_prefix(bm, maps, seeds, found, policy));
                                assert(failing_step(bm, maps.last(), next_start(seeds, bm.width as int), p, policy));
                            }
                            return Err(e);
                        },
                    };
                    proof {
                        let j = choose|j: int| 0 <= j < path.len && path.pt@[j].x == path.max_x;
                        assert(0 <= path.pt@[j].x <= bm1.width);
                        assert(path.len <= 2 * ((bm.width + 1) * (bm.height + 1)));
                    }
                    bm1.xor_path(&path);
                    let ghost old_found = found;
                    let ghost old_list = list@;
                    proof {
                        assert(trace_step(bm, before, idx as int, p, path, bm1, policy));
                        lemma_prefix_extend(bm, maps, seeds, found, policy, p, path, bm1);
                        lemma_kept_push(found, path, turd as int);
                        found = found.push(path);
                        maps = maps.push(bm1);
                        seeds = seeds.push(p);
                    }
                    if path.area > turd {
                        let ready = prepare_path(path);
                        list.push(ready);
                        proof {
                            lemma_match_push(old_list, kept(old_found, turd as int), ready, path);
                        }
                    }
                    assert(p.y * bm1.width + p.x < bm1.size) by (nonlinear_arith)
                        requires
                            0 <= p.x < bm1.width,
                            0 <= p.y < bm1.height,
                            bm1.size == bm1.width * bm1.height,
                    ;
                    idx = (p.y as usize) * bm1.width + (p.x as usize) + 1;
                },
            }
        }
        proof {
            if !done {
                assert(no_seed(bm1, next_start(seeds, bm.width as int)));
            }
        }
        self.pathlist = list;
        self.processed = true;
        Ok(())
    }

    /// Traces the image unless the current parameters have been traced already.
    pub fn process_path(&mut self) -> (r: Result<(), TraceError>)
        requires
            old(self).wf(),
        ensures
            final(self).wf(),
            final(self).luminance_data == old(self).luminance_data,
            final(self).params == old(self).params,
            r is Ok ==> final(self).processed,
            r is Err ==> r == Err::<(), TraceError>(TraceError::DegenerateContour),
            old(self).processed ==> r is Ok && final(self).pathlist@ == old(self).pathlist@,
            !old(self).processed && r is Ok ==> traced(*old(self), final(self).pathlist@),
            !old(self).processed && r is Err ==> trace_fails(*old(self)),
    {
        if self.processed {
            Ok(())
        } else {
            self.bm_to_pathlist()
        }
    }

    /// The traced contours (empty until traced).
    pub fn paths(&self) -> (r: &Vec<Path>)
        ensures
            r@ == self.pathlist@,
    {
        &self.pathlist
    }
}

/// `after` is `before` with its parameters replaced by `p`: the traced paths are kept, and
/// still count as traced only when `p` traces as the old parameters did.
pub open spec fn parameters_set(before: Potrace, after: Potrace, p: PotraceOptions) -> bool {
    &&& after.params == p
    &&& after.processed == (before.processed && same_tracing(before.params, p))
    &&& after.pathlist@ == before.pathlist@
    &&& after.luminance_data == before.luminance_data
    &&& after.histogram == before.histogram
}

/// Setting the same parameters twice leaves the tracer as setting them once.
pub proof fn lemma_set_parameters_idempotent(
    s0: Potrace,
    s1: Potrace,
    s2: Potrace,
    p: PotraceOptions,
)
    requires
        parameters_set(s0, s1, p),
        parameters_set(s1, s2, p),
    ensures
        s2.params == s1.params,
        s2.processed == s1.processed,
        s2.pathlist@ == s1.pathlist@,
        s2.luminance_data == s1.luminance_data,
        s2.histogram == s1.histogram,
{
}

/// Changing only the color or the background keeps the traced paths: nothing is traced again.
pub proof fn lemma_color_change_keeps_paths(before: Potrace, after: Potrace, p: PotraceOptions)
    requires
        parameters_set(before, after, p),
        before.processed,
        same_tracing(before.params, p),
    ensures
        after.processed,
        after.pathlist@ == before.pathlist@,
{
}

/// Every contour a tracer keeps is a closed walk of unit steps on the pixel-edge grid.
pub proof fn lemma_traced_paths_are_closed(p: Potrace, i: int)
    requires
        p.wf(),
        p.processed,
        0 <= i < p.pathlist@.len(),
    ensures
        closed_walk(p.pathlist@[i].pt@),
        p.pathlist@[i].len == p.pathlist@[i].pt@.len(),
{
}

/// The threshold a tracer with `params` binarizes at: the one set, else the automatic one
/// (the lowest best single cut of the luminance histogram), else 128.
pub open spec fn threshold_choice(params: PotraceOptions, lum: Seq<u64>, t: u8) -> bool {
    match params.threshold {
        Some(v) => t == v,
        None => {
            &&& best_split(lum, 255, 1, 0, 1) == 0 ==> t == 128
            &&& best_split(lum, 255, 1, 0, 1) != 0 ==> crate::histogram::is_greedy_split(
                lum,
                seq![t],
                1,
                0,
                255,
            )
        },
    }
}

/// `bm` is `lum` binarized at threshold `t`.
pub open spec fn binarized(lum: Bitmap, bm: Bitmap, black_on_white: bool, t: u8) -> bool {
    &&& bm.width == lum.width
    &&& bm.height == lum.height
    &&& bm.size == lum.size
    &&& bm.data@.len() == lum.size
    &&& forall|i: int|
        0 <= i < lum.size ==> #[trigger] bm.data@[i] == crate::bitmap::binary_value(
            lum.data@[i] as int,
            black_on_white,
            t as int,
        )
}

/// `seed` is the first cell holding 1 at or after row-major index `start` of `bm`.
pub open spec fn first_seed(bm: Bitmap, start: int, seed: Point) -> bool {
    &&& bm.in_grid(seed.x as int, seed.y as int)
    &&& start <= seed.y * bm.width + seed.x
    &&& bm.data@[seed.y * bm.width + seed.x] == 1
    &&& forall|j: int| start <= j < seed.y * bm.width + seed.x ==> bm.data@[j] != 1
}

/// No cell at or after index `start` of `bm` holds 1.
pub open spec fn no_seed(bm: Bitmap, start: int) -> bool {
    forall|j: int| start <= j < bm.size ==> bm.data@[j] != 1
}

/// Polarity of the contour seeded at `seed`, read in the first binarized map.
pub open spec fn sign_at(signs: Bitmap, seed: Point) -> Sign {
    if signs.fg(seed.x as int, seed.y as int) {
        Sign::Plus
    } else {
        Sign::Minus
    }
}

/// Where the search for the next seed starts: just past the last seed.
pub open spec fn next_start(seeds: Seq<Point>, w: int) -> int {
    if seeds.len() == 0 {
        0
    } else {
        seeds.last().y * w + seeds.last().x + 1
    }
}

/// One round of tracing: the first seed at or after `start`, its contour, and the map with
/// the contour's interior flipped.
pub open spec fn trace_step(
    signs: Bitmap,
    before: Bitmap,
    start: int,
    seed: Point,
    found: Path,
    after: Bitmap,
    policy: SupportedTurnpolicyValues,
) -> bool {
    &&& before.wf()
    &&& first_seed(before, start, seed)
    &&& before.walked(seed, policy, sign_at(signs, seed), found)
    &&& crate::bitmap::xored(before, after, found)
}

/// A round of tracing in which the walk from the seed fails.
pub open spec fn failing_step(
    signs: Bitmap,
    before: Bitmap,
    start: int,
    seed: Point,
    policy: SupportedTurnpolicyValues,
) -> bool {
    &&& before.wf()
    &&& first_seed(before, start, seed)
    &&& before.walk_fails(seed, policy, sign_at(signs, seed))
}

/// `maps`, `seeds` and `found` are the first rounds of tracing starting from map `signs`.
pub open spec fn trace_prefix(
    signs: Bitmap,
    maps: Seq<Bitmap>,
    seeds: Seq<Point>,
    found: Seq<Path>,
    policy: SupportedTurnpolicyValues,
) -> bool {
    &&& maps.len() == found.len() + 1
    &&& seeds.len() == found.len()
    &&& maps[0].width == signs.width
    &&& maps[0].height == signs.height
    &&& maps[0].size == signs.size
    &&& maps[0].data@ == signs.data@
    &&& forall|q: int|
        0 <= q < found.len() ==> #[trigger] trace_step(
            signs,
            maps[q],
            next_start(seeds.subrange(0, q), signs.width as int),
            seeds[q],
            found[q],
            maps[q + 1],
            policy,
        )
}

/// The contours of `found` that enclose more than `turd` cells, in order.
pub open spec fn kept(found: Seq<Path>, turd: int) -> Seq<Path>
    decreases found.len(),
{
    if found.len() == 0 {
        Seq::empty()
    } else if found.last().area > turd {
        kept(found.drop_last(), turd).push(found.last())
    } else {
        kept(found.drop_last(), turd)
    }
}

/// The two paths are the same contour.
pub open spec fn same_contour(a: Path, b: Path) -> bool {
    &&& a.pt@ == b.pt@
    &&& a.len == b.len
    &&& a.area == b.area
    &&& a.sign == b.sign
}

pub open spec fn paths_match(a: Seq<Path>, b: Seq<Path>) -> bool {
    &&& a.len() == b.len()
    &&& forall|i: int| 0 <= i < a.len() ==> same_contour(#[trigger] a[i], b[i])
}

/// `paths` is what tracing gives for the tracer `t`: binarize at the chosen threshold, then
/// round by round take the first seed after the last one, walk its contour and flip its
/// interior, until no seed is left; the contours enclosing more than `turd_size` are kept,
/// in the order their seeds were found.
pub open spec fn traced(t: Potrace, paths: Seq<Path>) -> bool {
    exists|thr: u8, bm: Bitmap, maps: Seq<Bitmap>, seeds: Seq<Point>, found: Seq<Path>|
        #![trigger trace_prefix(bm, maps, seeds, found, t.params.turn_policy), binarized(t.luminance_data, bm, t.params.black_on_white, thr)]
        threshold_choice(t.params, t.histogram.lum@, thr) && binarized(
            t.luminance_data,
            bm,
            t.params.black_on_white,
            thr,
        ) && trace_prefix(bm, maps, seeds, found, t.params.turn_policy) && no_seed(
            maps.last(),
            next_start(seeds, bm.width as int),
        ) && paths_match(paths, kept(found, t.params.turd_size as int))
}

/// Tracing `t` reaches a seed whose contour walk fails.
pub open spec fn trace_fails(t: Potrace) -> bool {
    exists|thr: u8, bm: Bitmap, maps: Seq<Bitmap>, seeds: Seq<Point>, found: Seq<Path>, seed: Point|
        #![trigger trace_prefix(bm, maps, seeds, found, t.params.turn_policy), failing_step(bm, maps.last(), next_start(seeds, bm.width as int), seed, t.params.turn_policy), binarized(t.luminance_data, bm, t.params.black_on_white, thr)]
        threshold_choice(t.params, t.histogram.lum@, thr) && binarized(
            t.luminance_data,
            bm,
            t.params.black_on_white,
            thr,
        ) && trace_prefix(bm, maps, seeds, found, t.params.turn_policy) && failing_step(
            bm,
            maps.last(),
            next_start(seeds, bm.width as int),
            seed,
            t.params.turn_policy,
        )
}

/// Fills in the polygon tables of a traced contour.
fn prepare_path(path: Path) -> (r: Path)
    requires
        path.contour_ok(),
        crate::potrace::closed_walk(path.pt@),
    ensures
        path_ready(r),
        same_contour(r, path),
{
    let mut p = path;
    p.calc_sums();
    p.calc_lon();
    p.best_polygon();
    p
}

proof fn lemma_prefix_extend(
    signs: Bitmap,
    maps: Seq<Bitmap>,
    seeds: Seq<Point>,
    found: Seq<Path>,
    policy: SupportedTurnpolicyValues,
    seed: Point,
    path: Path,
    after: Bitmap,
)
    requires
        trace_prefix(signs, maps, seeds, found, policy),
        trace_step(signs, maps.last(), next_start(seeds, signs.width as int), seed, path, after, policy),
    ensures
        trace_prefix(signs, maps.push(after), seeds.push(seed), found.push(path), policy),
        next_start(seeds.push(seed), signs.width as int) == seed.y * signs.width + seed.x + 1,
{
    let m2 = maps.push(after);
    let s2 = seeds.push(seed);
    let f2 = found.push(path);
    assert forall|q: int| 0 <= q < f2.len() implies #[trigger] trace_step(
        signs,
        m2[q],
        next_start(s2.subrange(0, q), signs.width as int),
        s2[q],
        f2[q],
        m2[q + 1],
        policy,
    ) by {
        if q < found.len() {
            assert(s2.subrange(0, q) =~= seeds.subrange(0, q));
            assert(trace_step(
                signs,
                maps[q],
                next_start(seeds.subrange(0, q), signs.width as int),
                seeds[q],
                found[q],
                maps[q + 1],
                policy,
            ));
        } else {
            assert(s2.subrange(0, q) =~= seeds);
        }
    }
}

proof fn lemma_kept_push(found: Seq<Path>, path: Path, turd: int)
    ensures
        kept(found.push(path), turd) == (if path.area > turd {
            kept(found, turd).push(path)
        } else {
            kept(found, turd)
        }),
{
    assert(found.push(path).drop_last() =~= found);
}

proof fn lemma_match_push(list: Seq<Path>, k: Seq<Path>, ready: Path, raw: Path)
    requires
        paths_match(list, k),
        same_contour(ready, raw),
    ensures
        paths_match(list.push(ready), k.push(raw)),
{
    assert forall|i: int| 0 <= i < list.len() + 1 implies same_contour(
        #[trigger] list.push(ready)[i],
        k.push(raw)[i],
    ) by {
        if i < list.len() {
            assert(same_contour(list[i], k[i]));
        }
    }
}

} // verus!
