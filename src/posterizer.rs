use vstd::prelude::*;
use crate::constants::{FillStrategies, RangeDistribution, TraceError};
use crate::histogram::{best_split, is_greedy_split, multilevel_result, normalized, valid_stops, Histogram};
use crate::potrace::{Potrace, PotraceOptions};
use crate::utils::clamp;

verus! {

/// How many layers the posterizer makes, or which thresholds it uses.
#[derive(Clone, Debug)]
pub enum Steps {
    /// 3 or 4 layers, picked from the threshold.
    Auto,
    /// This many layers.
    Count(i32),
    /// These thresholds.
    Thresholds(Vec<i32>),
}

/// Posterizer parameters.
#[derive(Clone, Debug)]
pub struct PosterizerOptions {
    pub potrace: Option<PotraceOptions>,
    pub steps: Option<Steps>,
    pub fill_strategy: Option<FillStrategies>,
    pub range_distribution: Option<RangeDistribution>,
}

impl Default for PosterizerOptions {
    fn default() -> (o: PosterizerOptions)
        ensures
            o.potrace is None,
            o.steps is None,
            o.fill_strategy == Some(FillStrategies::Dominant),
            o.range_distribution == Some(RangeDistribution::Auto),
    {
        PosterizerOptions {
            potrace: None,
            steps: None,
            fill_strategy: Some(FillStrategies::Dominant),
            range_distribution: Some(RangeDistribution::Auto),
        }
    }
}

/// One layer: a threshold and the level its fill stands for (-1: the range is empty).
#[derive(PartialEq, Eq, Structural, Clone, Copy, Debug)]
pub struct ColorStop {
    pub value: u8,
    pub color: i32,
}

/// Offset of the spread fill of layer `index` of `n` into its range of `interval` levels,
/// scaled by `max(1/2, full / 255)`.
pub open spec fn spread_offset(interval: int, index: int, n: int, full: int) -> int {
    if n <= 1 {
        0
    } else if 2 * full >= 255 {
        interval * index * full / (255 * (n - 1))
    } else {
        interval * index / (2 * (n - 1))
    }
}

/// `m` is the median that `get_stats` reports for the levels `a..=b`.
pub open spec fn is_stats_median(lum: Seq<u64>, order: Seq<usize>, a: int, b: int, m: int) -> bool {
    let half = crate::histogram::level_count(lum, a, b) / 2;
    (exists|k: int|
        crate::histogram::is_median_position(lum, order, a, b, half, k) && order[k] == m) || (m
        == 0 && forall|k: int| !#[trigger] crate::histogram::is_median_position(lum, order, a, b, half, k))
}

/// `raw` is the fill level the strategy picks for the levels `start..=end` (before it is
/// kept away from the next layer): the mean or the median of `get_stats`, the dominant
/// level with tolerance `clamp(end - start, 1, 5)`, or the spread placement.
pub open spec fn raw_level_ok(
    lum: Seq<u64>,
    order: Seq<usize>,
    strategy: FillStrategies,
    black_on_white: bool,
    start: int,
    end: int,
    index: int,
    n: int,
    full: int,
    raw: int,
) -> bool {
    let count = crate::histogram::level_count(lum, start, end);
    match strategy {
        FillStrategies::Mean => raw == crate::histogram::level_mass(lum, start, end) / count,
        FillStrategies::Median => is_stats_median(lum, order, start, end, raw),
        FillStrategies::Dominant => crate::histogram::is_dominant_color(
            lum,
            start,
            end,
            crate::utils::clamp_spec(end - start, 1, 5),
            raw,
        ),
        FillStrategies::Spread => raw == (if black_on_white {
            start + spread_offset(end - start, index, n, full)
        } else {
            end - spread_offset(end - start, index, n, full)
        }),
    }
}

/// The fill level `c` of layer `index` of `n` for the levels `start..=end`: -1 when no pixel
/// has them; else the strategy's level, which on every layer but the first is clamped a
/// tenth of the range away from the end nearest the threshold.
pub open spec fn layer_color_ok(
    lum: Seq<u64>,
    order: Seq<usize>,
    strategy: FillStrategies,
    black_on_white: bool,
    start: int,
    end: int,
    index: int,
    n: int,
    full: int,
    c: int,
) -> bool {
    let count = crate::histogram::level_count(lum, start, end);
    &&& count == 0 ==> c == -1
    &&& count > 0 ==> exists|raw: int|
        #[trigger] raw_level_ok(lum, order, strategy, black_on_white, start, end, index, n, full, raw)
            && c == (if index == 0 {
            raw
        } else if black_on_white {
            crate::utils::clamp_spec(raw, start, end - tenth(end - start))
        } else {
            crate::utils::clamp_spec(raw, start + tenth(end - start), end)
        })
}

/// Levels from the threshold to the most intense end.
pub open spec fn full_range_of(black_on_white: bool, t: Option<u8>) -> int {
    let v = match t {
        Some(v) => v as int,
        None => 0,
    };
    if black_on_white {
        v
    } else {
        255 - v
    }
}

/// The levels of layer `i`: from the next threshold to this one (dark on light), or from
/// this one to the next (light on dark).
pub open spec fn layer_range(stops: Seq<u8>, i: int, black_on_white: bool) -> (int, int) {
    let next: int = if i + 1 == stops.len() {
        if black_on_white {
            -1
        } else {
            256
        }
    } else {
        stops[i + 1] as int
    };
    if black_on_white {
        (next + 1, stops[i] as int)
    } else {
        (stops[i] as int, next - 1)
    }
}

/// The thresholds of the layers, in order.
pub open spec fn stop_values(r: Seq<ColorStop>) -> Seq<u8> {
    r.map_values(|c: ColorStop| c.value)
}

/// Each layer's fill level agrees with the levels between its threshold and the next.
pub open spec fn layers_ok(
    lum: Seq<u64>,
    order: Seq<usize>,
    strategy: FillStrategies,
    black_on_white: bool,
    full: int,
    r: Seq<ColorStop>,
) -> bool {
    forall|i: int|
        0 <= i < r.len() ==> {
            let (a, b) = layer_range(stop_values(r), i, black_on_white);
            &&& a > b ==> (#[trigger] r[i]).color == -1
            &&& a <= b ==> layer_color_ok(
                lum,
                order,
                strategy,
                black_on_white,
                a,
                b,
                i,
                r.len() as int,
                full,
                r[i].color as int,
            )
        }
}

/// Rounded tenth of a nonnegative size.
pub open spec fn tenth(v: int) -> int {
    (v + 5) / 10
}

/// Threshold `i` (from 1) of `steps` equal steps over `0..=span`.
pub open spec fn equal_step(span: int, steps: int, i: int) -> int {
    let f = i * span / steps;
    if f < span {
        f
    } else {
        span
    }
}

/// Number of layers for a steps setting: the list length when counting a list; 4 when both
/// steps and threshold are automatic; else, with `c` the levels up to the threshold, the
/// count clamped to `2..=c`, or 4 when `c > 200` and 3 otherwise.
pub open spec fn steps_for(
    steps: Steps,
    count: bool,
    auto_threshold: bool,
    black_on_white: bool,
    threshold: Option<u8>,
) -> int {
    let t = match threshold {
        Some(t) => t as int,
        None => 0,
    };
    let colors = if black_on_white {
        t
    } else {
        255 - t
    };
    match steps {
        Steps::Thresholds(v) if count => if v@.len() > 255 {
            255
        } else {
            v@.len() as int
        },
        Steps::Auto if auto_threshold => 4,
        Steps::Count(c) => {
            let wanted = if c < 2 {
                2
            } else {
                c as int
            };
            if colors < wanted {
                colors
            } else {
                wanted
            }
        },
        _ => if colors > 200 {
            4
        } else {
            3
        },
    }
}

/// A new posterizer set up from `options`: given parameters are taken, the others are their
/// defaults (automatic steps, dominant fill, automatic ranges); nothing is traced or computed.
pub open spec fn configured(p: Posterizer, options: Option<PosterizerOptions>) -> bool {
    &&& p.calculated_threshold is None
    &&& !p.potrace.processed
    &&& match options {
        Some(o) => {
            &&& (o.potrace matches Some(po) ==> p.potrace.params == po)
            &&& p.steps == (match o.steps {
                Some(s) => s,
                None => Steps::Auto,
            })
            &&& p.fill_strategy == (match o.fill_strategy {
                Some(f) => f,
                None => FillStrategies::Dominant,
            })
            &&& p.range_distribution == (match o.range_distribution {
                Some(r) => r,
                None => RangeDistribution::Auto,
            })
        },
        None => {
            &&& p.steps == Steps::Auto
            &&& p.fill_strategy == FillStrategies::Dominant
            &&& p.range_distribution == RangeDistribution::Auto
        },
    }
}

/// Stacks several traces at different thresholds to render tones as layers.
#[derive(Clone, Debug)]
pub struct Posterizer {
    pub potrace: Potrace,
    pub calculated_threshold: Option<u8>,
    pub steps: Steps,
    pub fill_strategy: FillStrategies,
    pub range_distribution: RangeDistribution,
}

impl Posterizer {
    pub open spec fn wf(&self) -> bool {
        self.potrace.wf()
    }

    /// Loads an image given as base64 text of an encoded image file.
    pub fn new(base64: &str, options: Option<PosterizerOptions>) -> (r: Result<
        Posterizer,
        TraceError,
    >)
        ensures
            (crate::potrace::base64_decoded(base64@) is None || crate::potrace::decoded_rgba(
                crate::potrace::base64_decoded(base64@)->Some_0,
            ) is None) <==> r == Err::<Posterizer, TraceError>(TraceError::ImageNotLoaded),
            r is Ok <==> crate::potrace::image_fits(base64@),
            r matches Ok(p) ==> {
                let (w, h, px) = crate::potrace::decoded_rgba(
                    crate::potrace::base64_decoded(base64@)->Some_0,
                )->Some_0;
                &&& p.wf()
                &&& configured(p, options)
                &&& p.potrace.luminance_data.width == w
                &&& p.potrace.luminance_data.height == h
                &&& forall|i: int|
                    0 <= i < w * h ==> p.potrace.luminance_data.data@[i]
                        == crate::bitmap::pixel_lum(px, i)
            },
    {
        let o = match options {
            Some(o) => o,
            None => PosterizerOptions::default(),
        };
        let potrace = match Potrace::new(base64, o.potrace) {
            Ok(p) => p,
            Err(e) => {
                return Err(e);
            },
        };
        Ok(Posterizer::with_tracer(potrace, o.steps, o.fill_strategy, o.range_distribution))
    }

    /// Loads a `width` by `height` RGBA buffer.
    pub fn from_rgba(width: usize, height: usize, rgba: &Vec<u8>, options: Option<PosterizerOptions>) -> (r:
        Result<Posterizer, TraceError>)
        ensures
            r.is_ok() <==> (width <= crate::constants::MAX_SIDE && height
                <= crate::constants::MAX_SIDE && rgba@.len() == 4 * width * height),
            r matches Ok(p) ==> {
                &&& p.wf()
                &&& configured(p, options)
                &&& p.potrace.luminance_data.width == width
                &&& p.potrace.luminance_data.height == height
                &&& forall|i: int|
                    0 <= i < width * height ==> p.potrace.luminance_data.data@[i]
                        == crate::bitmap::pixel_lum(rgba@, i)
            },
    {
        let o = match options {
            Some(o) => o,
            None => PosterizerOptions::default(),
        };
        let potrace = match Potrace::from_rgba(width, height, rgba, o.potrace) {
            Ok(p) => p,
            Err(e) => {
                return Err(e);
            },
        };
        Ok(Posterizer::with_tracer(potrace, o.steps, o.fill_strategy, o.range_distribution))
    }

    fn with_tracer(
        potrace: Potrace,
        steps: Option<Steps>,
        fill_strategy: Option<FillStrategies>,
        range_distribution: Option<RangeDistribution>,
    ) -> (p: Posterizer)
        requires
            potrace.wf(),
        ensures
            p.wf(),
            p.potrace == potrace,
            p.steps == (match steps {
                Some(s) => s,
                None => Steps::Auto,
            }),
            p.fill_strategy == (match fill_strategy {
                Some(f) => f,
                None => FillStrategies::Dominant,
            }),
            p.range_distribution == (match range_distribution {
                Some(r) => r,
                None => RangeDistribution::Auto,
            }),
            p.calculated_threshold is None,
    {
        Posterizer {
            potrace,
            calculated_threshold: None,
            steps: match steps {
                Some(s) => s,
                None => Steps::Auto,
            },
            fill_strategy: match fill_strategy {
                Some(f) => f,
                None => FillStrategies::Dominant,
            },
            range_distribution: match range_distribution {
                Some(r) => r,
                None => RangeDistribution::Auto,
            },
        }
    }

    /// Replaces the parameters that are given; the computed threshold is forgotten.
    pub fn set_parameters(&mut self, params: PosterizerOptions)
        requires
            old(self).wf(),
        ensures
            final(self).wf(),
            final(self).calculated_threshold is None,
            params.fill_strategy matches Some(f) ==> final(self).fill_strategy == f,
            params.fill_strategy is None ==> final(self).fill_strategy == old(self).fill_strategy,
            params.range_distribution matches Some(r) ==> final(self).range_distribution == r,
            params.range_distribution is None ==> final(self).range_distribution == old(
                self,
            ).range_distribution,
            params.potrace matches Some(p) ==> crate::potrace::parameters_set(
                old(self).potrace,
                final(self).potrace,
                p,
            ),
            params.potrace is None ==> final(self).potrace.params == old(self).potrace.params
                && final(self).potrace.processed == old(self).potrace.processed,
            params.steps matches Some(st) ==> final(self).steps == st,
            params.steps is None ==> final(self).steps == old(self).steps,
    {
        match params.potrace {
            Some(p) => self.potrace.set_parameters(p),
            None => {},
        }
        match params.steps {
            Some(s) => {
                self.steps = s;
            },
            None => {},
        }
        match params.fill_strategy {
            Some(f) => {
                self.fill_strategy = f;
            },
            None => {},
        }
        match params.range_distribution {
            Some(r) => {
                self.range_distribution = r;
            },
            None => {},
        }
        self.calculated_threshold = None;
    }

    pub open spec fn black_on_white(&self) -> bool {
        self.potrace.params.black_on_white
    }

    /// The overall threshold: the one set, else the upper (lower, when tracing light on
    /// dark) of the two thresholds of `multilevel_thresholding(2)`, else 128.
    pub fn get_threshold(&mut self) -> (r: u8)
        requires
            old(self).wf(),
        ensures
            final(self).wf(),
            final(self).potrace.params == old(self).potrace.params,
            final(self).potrace.histogram.lum@ == old(self).potrace.histogram.lum@,
            final(self).steps == old(self).steps,
            final(self).fill_strategy == old(self).fill_strategy,
            final(self).range_distribution == old(self).range_distribution,
            final(self).calculated_threshold == Some(r),
            old(self).calculated_threshold matches Some(t) ==> r == t,
            old(self).calculated_threshold is None ==> (old(self).potrace.params.threshold matches Some(
                t,
            ) ==> r == t),
            old(self).calculated_threshold is None && old(self).potrace.params.threshold is None
                ==> r >= 1,
            old(self).calculated_threshold is None && old(self).potrace.params.threshold is None
                && best_split(old(self).potrace.histogram.lum@, 255, 2, 0, 1) == 0 ==> r == 128,
            old(self).calculated_threshold is None && old(self).potrace.params.threshold is None
                && best_split(old(self).potrace.histogram.lum@, 255, 2, 0, 1) != 0 ==> exists|
                t: Seq<u8>,
            |
                #![trigger is_greedy_split(old(self).potrace.histogram.lum@, t, 2, 0, 255)]
                is_greedy_split(old(self).potrace.histogram.lum@, t, 2, 0, 255) && valid_stops(
                    t,
                    2,
                    0,
                    255,
                ) && r == (if old(self).potrace.params.black_on_white {
                    t[1]
                } else {
                    t[0]
                }),
    {
        match self.calculated_threshold {
            Some(t) => {
                return t;
            },
            None => {},
        }
        let t = match self.potrace.params.threshold {
            Some(t) => t,
            None => {
                let two = match self.potrace.histogram.multilevel_thresholding(2, None, None) {
                    Ok(v) => v,
                    Err(_) => Vec::new(),
                };
                let pick = if two.len() == 2 {
                    if self.potrace.params.black_on_white {
                        two[1]
                    } else {
                        two[0]
                    }
                } else {
                    0
                };
                if pick != 0 {
                    pick
                } else {
                    128
                }
            },
        };
        self.calculated_threshold = Some(t);
        t
    }

    /// Number of layers: the list length when counting a list, else the count (at least 2,
    /// at most the levels up to the threshold), else 3 or 4.
    fn get_steps(&mut self, count: bool) -> (r: i32)
        requires
            old(self).wf(),
        ensures
            final(self).wf(),
            final(self).potrace.params == old(self).potrace.params,
            final(self).steps == old(self).steps,
            final(self).fill_strategy == old(self).fill_strategy,
            final(self).range_distribution == old(self).range_distribution,
            final(self).calculated_threshold is Some || final(self).calculated_threshold
                == old(self).calculated_threshold,
            old(self).calculated_threshold matches Some(t) ==> final(self).calculated_threshold
                == Some(t),
            final(self).potrace.histogram.lum@ == old(self).potrace.histogram.lum@,
            0 <= r <= 255,
            r == steps_for(
                old(self).steps,
                count,
                old(self).potrace.params.threshold is None,
                old(self).potrace.params.black_on_white,
                final(self).calculated_threshold,
            ),
    {
        let bow = self.potrace.params.black_on_white;
        let auto_threshold = self.potrace.params.threshold.is_none();
        match &self.steps {
            Steps::Thresholds(v) => {
                if count {
                    return if v.len() > 255 {
                        255
                    } else {
                        v.len() as i32
                    };
                }
            },
            Steps::Auto => {
                if auto_threshold {
                    return 4;
                }
            },
            Steps::Count(_) => {},
        }
        let t = self.get_threshold() as i32;
        let colors = if bow {
            t
        } else {
            255 - t
        };
        match &self.steps {
            Steps::Count(c) => {
                let wanted = if *c < 2 {
                    2
                } else {
                    *c
                };
                if colors < wanted {
                    colors
                } else {
                    wanted
                }
            },
            _ => if colors > 200 {
                4
            } else {
                3
            },
        }
    }

    /// Levels and fills of each layer, for thresholds given from the least to the most
    /// intense layer.
    fn calc_color_intensity(&mut self, stops: &Vec<u8>) -> (r: Vec<ColorStop>)
        requires
            old(self).wf(),
        ensures
            final(self).wf(),
            final(self).potrace.params == old(self).potrace.params,
            final(self).steps == old(self).steps,
            final(self).fill_strategy == old(self).fill_strategy,
            final(self).range_distribution == old(self).range_distribution,
            r@.len() == stops@.len(),
            forall|i: int| 0 <= i < r@.len() ==> (#[trigger] r@[i]).value == stops@[i],
            forall|i: int| 0 <= i < r@.len() ==> -1 <= (#[trigger] r@[i]).color <= 255,
            stop_values(r@) == stops@,
            old(self).calculated_threshold is Some ==> final(self).calculated_threshold == old(
                self,
            ).calculated_threshold,
            final(self).calculated_threshold is Some,
            layers_ok(
                old(self).potrace.histogram.lum@,
                final(self).potrace.histogram.lum_sorted_indexes@,
                old(self).fill_strategy,
                old(self).potrace.params.black_on_white,
                full_range_of(old(self).potrace.params.black_on_white, final(self).calculated_threshold),
                r@,
            ),
            final(self).potrace.histogram.lum@ == old(self).potrace.histogram.lum@,
    {
        let bow = self.potrace.params.black_on_white;
        let strategy = self.fill_strategy;
        let t = self.get_threshold() as i64;
        let full_range: i64 = if bow {
            t
        } else {
            255 - t
        };
        let n = stops.len();
        let mut out: Vec<ColorStop> = Vec::new();
        let mut index: usize = 0;
        while index < n
            invariant
                self.wf(),
                self.potrace.params == old(self).potrace.params,
                self.steps == old(self).steps,
                self.fill_strategy == old(self).fill_strategy,
                self.range_distribution == old(self).range_distribution,
                bow == self.potrace.params.black_on_white,
                0 <= full_range <= 255,
                n == stops@.len(),
                index <= n,
                out@.len() == index,
                forall|i: int| 0 <= i < index ==> (#[trigger] out@[i]).value == stops@[i],
                forall|i: int| 0 <= i < index ==> -1 <= (#[trigger] out@[i]).color <= 255,
                self.potrace.histogram.lum@ == old(self).potrace.histogram.lum@,
                self.calculated_threshold is Some,
                old(self).calculated_threshold is Some ==> self.calculated_threshold == old(
                    self,
                ).calculated_threshold,
                strategy == self.fill_strategy,
                self.calculated_threshold is Some,
                full_range == full_range_of(bow, self.calculated_threshold),
                forall|i: int|
                    0 <= i < index ==> {
                        let (a, b) = layer_range(stops@, i, bow);
                        &&& a > b ==> (#[trigger] out@[i]).color == -1
                        &&& a <= b ==> layer_color_ok(
                            self.potrace.histogram.lum@,
                            self.potrace.histogram.lum_sorted_indexes@,
                            strategy,
                            bow,
                            a,
                            b,
                            i,
                            n as int,
                            full_range as int,
                            out@[i].color as int,
                        )
                    },
            decreases n - index,
        {
            let threshold = stops[index] as i64;
            let next: i64 = if index + 1 == n {
                if bow {
                    -1
                } else {
                    256
                }
            } else {
                stops[index + 1] as i64
            };
            let range_start: i64 = if bow {
                next + 1
            } else {
                threshold
            };
            let range_end: i64 = if bow {
                threshold
            } else {
                next - 1
            };
            let interval = range_end - range_start;
            let color = if interval < 0 {
                -1
            } else {
                self.layer_color(range_start, range_end, index, n, full_range, strategy)
            };
            out.push(ColorStop { value: stops[index], color: color as i32 });
            index = index + 1;
        }
        proof {
            assert(stop_values(out@) =~= stops@);
        }
        out
    }

    /// Fill level of the layer for the range `range_start..=range_end` at position `index`.
    fn layer_color(
        &mut self,
        range_start: i64,
        range_end: i64,
        index: usize,
        n: usize,
        full_range: i64,
        strategy: FillStrategies,
    ) -> (c: i64)
        requires
            old(self).wf(),
            0 <= range_start <= range_end <= 255,
            index < n,
            0 <= full_range <= 255,
        ensures
            final(self).wf(),
            final(self).potrace.params == old(self).potrace.params,
            final(self).steps == old(self).steps,
            final(self).fill_strategy == old(self).fill_strategy,
            final(self).range_distribution == old(self).range_distribution,
            final(self).potrace.histogram.lum@ == old(self).potrace.histogram.lum@,
            final(self).calculated_threshold == old(self).calculated_threshold,
            -1 <= c <= 255,
            final(self).potrace.histogram.lum_sorted_indexes@ == old(
                self,
            ).potrace.histogram.lum_sorted_indexes@,
            layer_color_ok(
                old(self).potrace.histogram.lum@,
                old(self).potrace.histogram.lum_sorted_indexes@,
                strategy,
                old(self).potrace.params.black_on_white,
                range_start as int,
                range_end as int,
                index as int,
                n as int,
                full_range as int,
                c as int,
            ),
    {
        let bow = self.potrace.params.black_on_white;
        let interval = range_end - range_start;
        let stats = match self.potrace.histogram.get_stats(range_start as i32, range_end as i32) {
            Ok(st) => st,
            Err(_) => {
                return -1;
            },
        };
        if stats.pixels == 0 {
            return -1;
        }
        let color: i64 = match strategy {
            FillStrategies::Spread => {
                let off: i64 = if n <= 1 {
                    0
                } else {
                    assert(0 <= interval * index <= 255 * 0xffff_ffff_ffff_ffff) by (nonlinear_arith)
                        requires
                            0 <= interval <= 255,
                            0 <= index <= 0xffff_ffff_ffff_ffff,
                    ;
                    let num: i128 = (interval as i128) * (index as i128);
                    let den: i128 = (n as i128) - 1;
                    proof {
                        assert(0 <= num <= interval * den) by (nonlinear_arith)
                            requires
                                num == interval * index,
                                0 <= interval <= 255,
                                0 <= index <= den,
                        ;
                    }
                    assert(0 <= num * full_range <= 255 * 0xffff_ffff_ffff_ffff * 255) by (nonlinear_arith)
                        requires
                            0 <= num <= 255 * 0xffff_ffff_ffff_ffff,
                            0 <= full_range <= 255,
                    ;
                    let q: i128 = if 2 * full_range >= 255 {
                        (num * (full_range as i128)) / (255 * den)
                    } else {
                        num / (2 * den)
                    };
                    proof {
                        assert(0 <= num * full_range <= interval * den * 255) by (nonlinear_arith)
                            requires
                                0 <= num <= interval * den,
                                0 <= full_range <= 255,
                                interval >= 0,
                                den >= 1,
                        ;
                        assert(0 <= (num * full_range) / (255 * (den as int)) <= interval) by (nonlinear_arith)
                            requires
                                0 <= num * full_range <= interval * den * 255,
                                den >= 1,
                        ;
                        assert(0 <= (num as int) / (2 * (den as int)) <= interval) by (nonlinear_arith)
                            requires
                                0 <= num <= interval * den,
                                den >= 1,
                        ;
                    }
                    proof {
                        assert(num * full_range == interval * index * full_range) by (nonlinear_arith)
                            requires
                                num == interval * index,
                        ;
                    }
                    q as i64
                };
                assert(off == spread_offset(interval as int, index as int, n as int, full_range as int));
                if bow {
                    range_start + off
                } else {
                    range_end - off
                }
            },
            FillStrategies::Dominant => {
                let tol = clamp(interval as i32, 1, 5) as u8;
                match self.potrace.histogram.get_dominant_color(
                    range_start as i32,
                    range_end as i32,
                    Some(tol),
                ) {
                    Ok(c) => c as i64,
                    Err(_) => -1,
                }
            },
            FillStrategies::Mean => stats.levels.mean as i64,
            FillStrategies::Median => stats.levels.median as i64,
        };
        assert(raw_level_ok(
            self.potrace.histogram.lum@,
            self.potrace.histogram.lum_sorted_indexes@,
            strategy,
            bow,
            range_start as int,
            range_end as int,
            index as int,
            n as int,
            full_range as int,
            color as int,
        ));
        if index != 0 {
            let gap = (interval + 5) / 10;
            if bow {
                clamp(color as i32, range_start as i32, (range_end - gap) as i32) as i64
            } else {
                clamp(color as i32, (range_start + gap) as i32, range_end as i32) as i64
            }
        } else {
            color
        }
    }

    /// Thresholds at equal steps between the most intense level and the threshold, the one
    /// nearest the threshold first.
    fn get_ranges_equally_distributed(&mut self) -> (r: Vec<ColorStop>)
        requires
            old(self).wf(),
        ensures
            final(self).wf(),
            final(self).potrace.params == old(self).potrace.params,
            final(self).potrace.histogram.lum@ == old(self).potrace.histogram.lum@,
            final(self).fill_strategy == old(self).fill_strategy,
            final(self).steps == old(self).steps,
            layers_ok(
                old(self).potrace.histogram.lum@,
                final(self).potrace.histogram.lum_sorted_indexes@,
                old(self).fill_strategy,
                old(self).potrace.params.black_on_white,
                full_range_of(old(self).potrace.params.black_on_white, final(self).calculated_threshold),
                r@,
            ),
            final(self).calculated_threshold is Some,
            equal_layers(
                stop_values(r@),
                old(self).potrace.params.black_on_white,
                final(self).calculated_threshold->Some_0 as int,
                steps_for(
                    old(self).steps,
                    false,
                    old(self).potrace.params.threshold is None,
                    old(self).potrace.params.black_on_white,
                    final(self).calculated_threshold,
                ),
            ),
    {
        let bow = self.potrace.params.black_on_white;
        let t = self.get_threshold() as i64;
        let span: i64 = if bow {
            t
        } else {
            255 - t
        };
        let steps = self.get_steps(false) as i64;
        let stops = equal_thresholds(span, steps, bow);
        self.calc_color_intensity(&stops)
    }

    /// Thresholds picked by multilevel thresholding, least intense layer first.
    fn get_ranges_auto(&mut self) -> (r: Vec<ColorStop>)
        requires
            old(self).wf(),
        ensures
            final(self).wf(),
            final(self).potrace.params == old(self).potrace.params,
            final(self).potrace.histogram.lum@ == old(self).potrace.histogram.lum@,
            final(self).fill_strategy == old(self).fill_strategy,
            final(self).steps == old(self).steps,
            layers_ok(
                old(self).potrace.histogram.lum@,
                final(self).potrace.histogram.lum_sorted_indexes@,
                old(self).fill_strategy,
                old(self).potrace.params.black_on_white,
                full_range_of(old(self).potrace.params.black_on_white, final(self).calculated_threshold),
                r@,
            ),
            final(self).calculated_threshold is Some,
            auto_layers(
                old(self).potrace.histogram.lum@,
                stop_values(r@),
                old(self).potrace.params.black_on_white,
                old(self).potrace.params.threshold is None,
                final(self).calculated_threshold->Some_0 as int,
                steps_for(
                    old(self).steps,
                    true,
                    old(self).potrace.params.threshold is None,
                    old(self).potrace.params.black_on_white,
                    final(self).calculated_threshold,
                ),
            ),
    {
        let bow = self.potrace.params.black_on_white;
        let t = self.get_threshold();
        let steps = self.get_steps(true);
        let ghost lum = self.potrace.histogram.lum@;
        let mut stops: Vec<u8> = Vec::new();
        let ghost mut found_v: Seq<u8> = Seq::empty();
        if self.potrace.params.threshold.is_none() {
            stops = match self.potrace.histogram.multilevel_thresholding(steps, None, None) {
                Ok(v) => v,
                Err(_) => Vec::new(),
            };
            proof {
                found_v = stops@;
            }
            if bow {
                let up = stops;
                stops = reversed(&up);
                assert(stops@ =~= rev(up@));
            }
        } else {
            let found = if bow {
                self.potrace.histogram.multilevel_thresholding(steps - 1, Some(0), Some(t as i32))
            } else {
                self.potrace.histogram.multilevel_thresholding(steps - 1, Some(t as i32), Some(255))
            };
            let found = match found {
                Ok(v) => v,
                Err(_) => Vec::new(),
            };
            proof {
                found_v = found@;
            }
            if bow {
                let mut up = found;
                up.push(t);
                stops = reversed(&up);
                assert(stops@ =~= rev(found_v.push(t)));
            } else {
                stops = prepended(t, &found);
            }
        }
        let r = self.calc_color_intensity(&stops);
        proof {
            let tc = self.calculated_threshold->Some_0 as int;
            if old(self).potrace.params.threshold is None {
                assert(multilevel_result(lum, steps as int, 0, 255, found_v));
            } else if bow {
                assert(multilevel_result(lum, steps - 1, 0, tc, found_v));
            } else {
                assert(multilevel_result(lum, steps - 1, tc, 255, found_v));
            }
        }
        r
    }

    /// Threshold, steps and range distribution turned into the layers, least intense first.
    pub fn get_ranges(&mut self) -> (r: Vec<ColorStop>)
        requires
            old(self).wf(),
        ensures
            final(self).wf(),
            final(self).potrace.params == old(self).potrace.params,
            final(self).potrace.histogram.lum@ == old(self).potrace.histogram.lum@,
            final(self).fill_strategy == old(self).fill_strategy,
            final(self).steps == old(self).steps,
            ranges_made(*old(self), *final(self), r@),
    {
        let list = match &self.steps {
            Steps::Thresholds(v) => v.clone(),
            _ => {
                return match self.range_distribution {
                    RangeDistribution::Auto => self.get_ranges_auto(),
                    RangeDistribution::Equal => self.get_ranges_equally_distributed(),
                };
            },
        };
        self.get_ranges_listed(list)
    }

    /// Layers for an explicit list of thresholds: the levels of the list, with the overall
    /// threshold added, each once, increasing (dark on light) or decreasing.
    #[verifier::rlimit(100)]
    fn get_ranges_listed(&mut self, list: Vec<i32>) -> (r: Vec<ColorStop>)
        requires
            old(self).wf(),
        ensures
            final(self).wf(),
            final(self).potrace.params == old(self).potrace.params,
            final(self).potrace.histogram.lum@ == old(self).potrace.histogram.lum@,
            final(self).fill_strategy == old(self).fill_strategy,
            final(self).steps == old(self).steps,
            listed_layers(
                old(self).potrace.histogram.lum@,
                final(self).potrace.histogram.lum_sorted_indexes@,
                old(self).fill_strategy,
                old(self).potrace.params.black_on_white,
                list@,
                final(self).calculated_threshold,
                r@,
            ),
    {
        let ghost l0 = list@;
        let t = self.get_threshold();
        let bow = self.potrace.params.black_on_white;
        let mut with_t = list;
        with_t.push(t as i32);
        let up = sorted_levels(&with_t);
        proof {
            assert(with_t@[with_t@.len() - 1] == t as i32);
            assert(up@.contains(t));
        }
        let stops = if bow {
            reversed(&up)
        } else {
            up.clone()
        };
        proof {
            if bow {
                assert(stops@ =~= rev(up@));
            }
        }
        let ghost ct = self.calculated_threshold;
        let cr = self.calc_color_intensity(&stops);
        let r = reversed_stops(&cr);
        proof {
            assert(rev(r@) =~= cr@);
            assert(stop_values(r@) =~= rev(stops@));
            if bow {
                assert(rev(stops@) =~= up@);
            }
            lemma_reordered(up@, stop_values(r@), bow);
            assert forall|x: u8| #[trigger] stop_values(r@).contains(x) implies ct == Some(x)
                || l0.contains(x as i32) by {
                assert(up@.contains(x));
                let i = choose|i: int| 0 <= i < up@.len() && up@[i] == x;
                assert(with_t@.contains(up@[i] as i32));
                let k = choose|k: int| 0 <= k < with_t@.len() && with_t@[k] == x as i32;
                if k < l0.len() {
                    assert(l0[k] == x as i32);
                }
            }
            assert forall|k: int| 0 <= k < l0.len() && 0 <= #[trigger] l0[k] <= 255 implies stop_values(
                r@,
            ).contains(l0[k] as u8) by {
                assert(with_t@[k] == l0[k]);
                assert(up@.contains(l0[k] as u8));
            }
        }
        r
    }

    /// The layers in drawing order, least intense first, with an extra one for the darkest
    /// pixels when there are 10 or more and the last range is wide.
    pub fn get_layers(&mut self) -> (r: Vec<ColorStop>)
        requires
            old(self).wf(),
        ensures
            final(self).wf(),
            final(self).potrace.params == old(self).potrace.params,
            exists|ranges: Seq<ColorStop>|
                #![trigger ranges_made(*old(self), *final(self), ranges)]
                ranges_made(*old(self), *final(self), ranges) && {
                    let d = drawing_order(old(self).steps, ranges);
                    &&& d.len() < 10 ==> r@ == d
                    &&& d.len() >= 10 ==> extra_added(
                        old(self).potrace.histogram.lum@,
                        old(self).potrace.params.black_on_white,
                        d,
                        r@,
                    )
                },
    {
        let ghost before = *self;
        let made_v = self.get_ranges();
        let ghost made = made_v@;
        let ranges = match &self.steps {
            Steps::Thresholds(_) => reversed_stops(&made_v),
            _ => made_v,
        };
        assert(ranges@ == drawing_order(before.steps, made));
        let r = if ranges.len() >= 10 {
            self.add_extra_color_stop(ranges)
        } else {
            ranges
        };
        assert(ranges_made(before, *self, made));
        r
    }

    /// Adds a layer inside the last range when it spans more than 25 levels and is not at
    /// full intensity.
    fn add_extra_color_stop(&mut self, ranges: Vec<ColorStop>) -> (r: Vec<ColorStop>)
        requires
            old(self).wf(),
            ranges@.len() >= 1,
        ensures
            final(self).wf(),
            final(self).potrace.params == old(self).potrace.params,
            final(self).calculated_threshold == old(self).calculated_threshold,
            final(self).steps == old(self).steps,
            final(self).fill_strategy == old(self).fill_strategy,
            final(self).range_distribution == old(self).range_distribution,
            final(self).potrace.histogram.lum@ == old(self).potrace.histogram.lum@,
            *final(self) == *old(self),
            extra_added(
                old(self).potrace.histogram.lum@,
                old(self).potrace.params.black_on_white,
                ranges@,
                r@,
            ),
    {
        let bow = self.potrace.params.black_on_white;
        let last = ranges[ranges.len() - 1];
        let from: i32 = if bow {
            0
        } else {
            last.value as i32
        };
        let to: i32 = if bow {
            last.value as i32
        } else {
            255
        };
        let full = if bow {
            last.color == 0
        } else {
            last.color == 255
        };
        if to - from > 25 && !full {
            let levels = match self.potrace.histogram.get_stats(from, to) {
                Ok(st) => st.levels,
                Err(_) => {
                    return ranges;
                },
            };
            let mean = levels.mean as i64;
            let sd = levels.std_dev as i64;
            proof {
                let lum = self.potrace.histogram.lum@;
                let count = crate::histogram::level_count(lum, from as int, to as int);
                if count > 0 {
                    let v = crate::histogram::deviation_sum(
                        lum,
                        range_mean(lum, from as int, to as int),
                        from as int,
                        to + 1,
                    ) / count;
                    assert(crate::histogram::is_floor_sqrt(sd as int, v));
                    let w = crate::histogram::floor_sqrt(v);
                    assert(crate::histogram::is_floor_sqrt(w, v));
                    crate::histogram::lemma_floor_sqrt_unique(sd as int, w, v);
                }
                assert(sd == range_std_dev(lum, from as int, to as int));
                assert(mean == range_mean(lum, from as int, to as int));
            }
            let stop: i64 = if mean + sd <= 25 {
                mean + sd
            } else if mean - sd <= 25 {
                mean - sd
            } else {
                25
            };
            let stop = if stop < 0 {
                0
            } else {
                stop
            };
            let new_stats = if bow {
                self.potrace.histogram.get_stats(0, stop as i32)
            } else {
                self.potrace.histogram.get_stats(stop as i32, 255)
            };
            let color: i32 = match new_stats {
                Ok(st) => if st.pixels == 0 {
                    -1
                } else {
                    st.levels.mean as i32
                },
                Err(_) => -1,
            };
            let value: u8 = if bow {
                stop as u8
            } else {
                (255 - stop) as u8
            };
            proof {
                assert(extra_level(mean as int, sd as int) == stop);
                assert(extra_level(
                    range_mean(self.potrace.histogram.lum@, from as int, to as int),
                    range_std_dev(self.potrace.histogram.lum@, from as int, to as int),
                ) == (if bow {
                    value as int
                } else {
                    255 - value as int
                }));
            }
            let mut out = ranges;
            out.push(ColorStop { value, color });
            proof {
                assert(out@[ranges@.len() as int] == ColorStop { value, color });
            }
            out
        } else {
            ranges
        }
    }
}

/// Thresholds of `steps` equal steps over `0..=span`, from the last step down to the first;
/// mirrored into `255 - f` when tracing light on dark.
pub fn equal_thresholds(span: i64, steps: i64, black_on_white: bool) -> (r: Vec<u8>)
    requires
        0 <= span <= 255,
        steps <= 255,
    ensures
        steps <= 0 ==> r@.len() == 0,
        steps > 0 ==> r@.len() == steps,
        steps > 0 ==> forall|j: int|
            0 <= j < steps ==> #[trigger] r@[j] == (if black_on_white {
                equal_step(span as int, steps as int, steps - j)
            } else {
                255 - equal_step(span as int, steps as int, steps - j)
            }),
{
    let mut r: Vec<u8> = Vec::new();
    if steps <= 0 {
        return r;
    }
    let mut i: i64 = steps;
    while i > 0
        invariant
            0 <= span <= 255,
            0 < steps <= 255,
            0 <= i <= steps,
            r@.len() == steps - i,
            forall|j: int|
                0 <= j < r@.len() ==> #[trigger] r@[j] == (if black_on_white {
                    equal_step(span as int, steps as int, steps - j)
                } else {
                    255 - equal_step(span as int, steps as int, steps - j)
                }),
        decreases i,
    {
        assert(0 <= i * span <= 255 * 255) by (nonlinear_arith)
            requires
                0 <= i <= 255,
                0 <= span <= 255,
        ;
        let f0 = i * span / steps;
        assert(0 <= f0) by (nonlinear_arith)
            requires
                f0 == (i * span) as int / (steps as int),
                i * span >= 0,
                steps > 0,
        ;
        let f = if f0 < span {
            f0
        } else {
            span
        };
        r.push(
            if black_on_white {
                f as u8
            } else {
                (255 - f) as u8
            },
        );
        i = i - 1;
    }
    r
}

/// The items of `v` in `0..=255`, without repeats, in increasing order.
pub fn sorted_levels(v: &Vec<i32>) -> (r: Vec<u8>)
    ensures
        forall|i: int, j: int| 0 <= i < j < r@.len() ==> #[trigger] r@[i] < #[trigger] r@[j],
        forall|i: int| 0 <= i < r@.len() ==> v@.contains(#[trigger] r@[i] as i32),
        forall|k: int| 0 <= k < v@.len() && 0 <= #[trigger] v@[k] <= 255 ==> r@.contains(v@[k] as u8),
{
    let mut r: Vec<u8> = Vec::new();
    let mut k: usize = 0;
    while k < v.len()
        invariant
            k <= v@.len(),
            forall|i: int, j: int| 0 <= i < j < r@.len() ==> #[trigger] r@[i] < #[trigger] r@[j],
            forall|i: int| 0 <= i < r@.len() ==> v@.contains(#[trigger] r@[i] as i32),
            forall|q: int| 0 <= q < k && 0 <= #[trigger] v@[q] <= 255 ==> r@.contains(v@[q] as u8),
        decreases v@.len() - k,
    {
        let item = v[k];
        if 0 <= item && item <= 255 {
            let x = item as u8;
            let mut p: usize = 0;
            while p < r.len() && r[p] < x
                invariant
                    p <= r@.len(),
                    forall|q: int| 0 <= q < p ==> #[trigger] r@[q] < x,
                decreases r@.len() - p,
            {
                p = p + 1;
            }
            if p == r.len() || r[p] != x {
                let ghost old_r = r@;
                r.insert(p, x);
                proof {
                    assert(v@[k as int] == item);
                    assert forall|i: int, j: int| 0 <= i < j < r@.len() implies #[trigger] r@[i]
                        < #[trigger] r@[j] by {
                        if p < old_r.len() {
                            assert(x < old_r[p as int]);
                        }
                        if i < p && j > p {
                            assert(old_r[i] < x);
                        }
                    }
                    assert forall|i: int| 0 <= i < r@.len() implies v@.contains(
                        #[trigger] r@[i] as i32,
                    ) by {
                        if i == p {
                            assert(v@[k as int] == x as i32);
                        } else if i < p {
                            assert(r@[i] == old_r[i]);
                        } else {
                            assert(r@[i] == old_r[i - 1]);
                        }
                    }
                    assert forall|q: int| 0 <= q < k + 1 && 0 <= #[trigger] v@[q] <= 255 implies r@.contains(
                        v@[q] as u8,
                    ) by {
                        if q == k {
                            assert(r@[p as int] == x);
                        } else {
                            let w = choose|w: int| 0 <= w < old_r.len() && old_r[w] == v@[q] as u8;
                            if w < p {
                                assert(r@[w] == old_r[w]);
                            } else {
                                assert(r@[w + 1] == old_r[w]);
                            }
                        }
                    }
                }
            } else {
                proof {
                    assert(r@[p as int] == x);
                }
            }
        }
        k = k + 1;
    }
    r
}

/// `v` in reverse order.
pub fn reversed(v: &Vec<u8>) -> (r: Vec<u8>)
    ensures
        r@.len() == v@.len(),
        forall|i: int| 0 <= i < v@.len() ==> #[trigger] r@[i] == v@[v@.len() - 1 - i],
{
    let mut r: Vec<u8> = Vec::new();
    let mut i: usize = v.len();
    while i > 0
        invariant
            i <= v@.len(),
            r@.len() == v@.len() - i,
            forall|q: int| 0 <= q < r@.len() ==> #[trigger] r@[q] == v@[v@.len() - 1 - q],
        decreases i,
    {
        i = i - 1;
        r.push(v[i]);
    }
    r
}

/// `t` followed by `v`.
pub fn prepended(t: u8, v: &Vec<u8>) -> (r: Vec<u8>)
    ensures
        r@ == seq![t] + v@,
{
    let mut r: Vec<u8> = Vec::new();
    r.push(t);
    let mut i: usize = 0;
    while i < v.len()
        invariant
            i <= v@.len(),
            r@ == seq![t] + v@.subrange(0, i as int),
        decreases v@.len() - i,
    {
        r.push(v[i]);
        i = i + 1;
        proof {
            assert(r@ =~= seq![t] + v@.subrange(0, i as int));
        }
    }
    proof {
        assert(v@.subrange(0, v@.len() as int) =~= v@);
    }
    r
}

/// Layers made from an explicit threshold list `l` and the overall threshold `t`: the
/// levels are those of `l` in `0..=255` and `t`, each once, increasing when tracing dark on
/// light and decreasing otherwise; read backwards, the fills agree with their ranges.
pub open spec fn listed_layers(
    lum: Seq<u64>,
    order: Seq<usize>,
    strategy: FillStrategies,
    black_on_white: bool,
    l: Seq<i32>,
    t: Option<u8>,
    r: Seq<ColorStop>,
) -> bool {
    let v = stop_values(r);
    &&& layers_ok(lum, order, strategy, black_on_white, full_range_of(black_on_white, t), rev(r))
    &&& black_on_white ==> forall|i: int, j: int|
        0 <= i < j < v.len() ==> #[trigger] v[i] < #[trigger] v[j]
    &&& !black_on_white ==> forall|i: int, j: int|
        0 <= i < j < v.len() ==> #[trigger] v[i] > #[trigger] v[j]
    &&& t matches Some(t) && v.contains(t)
    &&& forall|x: u8| #![trigger v.contains(x)] v.contains(x) ==> t == Some(x) || l.contains(x as i32)
    &&& forall|k: int| 0 <= k < l.len() && 0 <= #[trigger] l[k] <= 255 ==> v.contains(l[k] as u8)
}

/// Thresholds `v` at `steps` equal steps over the levels up to threshold `t` (from `t` up
/// when tracing light on dark), the one nearest the threshold first.
pub open spec fn equal_layers(v: Seq<u8>, black_on_white: bool, t: int, steps: int) -> bool {
    let span = if black_on_white {
        t
    } else {
        255 - t
    };
    &&& v.len() == (if steps > 0 {
        steps
    } else {
        0
    })
    &&& forall|j: int|
        0 <= j < v.len() ==> #[trigger] v[j] == (if black_on_white {
            equal_step(span, steps, steps - j)
        } else {
            255 - equal_step(span, steps, steps - j)
        })
}

/// Thresholds `v` chosen by multilevel thresholding for `steps` layers, least intense first:
/// over all levels when the threshold is automatic, else `steps - 1` of them on the traced
/// side of threshold `t`, with `t` itself.
pub open spec fn auto_layers(
    lum: Seq<u64>,
    v: Seq<u8>,
    black_on_white: bool,
    auto_threshold: bool,
    t: int,
    steps: int,
) -> bool {
    exists|f: Seq<u8>|
        #![trigger multilevel_result(lum, steps, 0, 255, f)]
        #![trigger multilevel_result(lum, steps - 1, 0, t, f)]
        #![trigger multilevel_result(lum, steps - 1, t, 255, f)]
        if auto_threshold {
            multilevel_result(lum, steps, 0, 255, f) && v == (if black_on_white {
                rev(f)
            } else {
                f
            })
        } else if black_on_white {
            multilevel_result(lum, steps - 1, 0, t, f) && v == rev(f.push(t as u8))
        } else {
            multilevel_result(lum, steps - 1, t, 255, f) && v == seq![t as u8] + f
        }
}

/// `r` is what `get_ranges` makes for a posterizer in state `before`, leaving `after`.
pub open spec fn ranges_made(before: Posterizer, after: Posterizer, r: Seq<ColorStop>) -> bool {
    &&& (!(before.steps is Thresholds) ==> layers_ok(
            before.potrace.histogram.lum@,
            after.potrace.histogram.lum_sorted_indexes@,
            before.fill_strategy,
            before.potrace.params.black_on_white,
            full_range_of(before.potrace.params.black_on_white, after.calculated_threshold),
            r,
        ))
    &&& (!(before.steps is Thresholds) && before.range_distribution
            == RangeDistribution::Auto ==> auto_layers(
            before.potrace.histogram.lum@,
            stop_values(r),
            before.potrace.params.black_on_white,
            before.potrace.params.threshold is None,
            after.calculated_threshold->Some_0 as int,
            steps_for(
                before.steps,
                true,
                before.potrace.params.threshold is None,
                before.potrace.params.black_on_white,
                after.calculated_threshold,
            ),
        ))
    &&& (!(before.steps is Thresholds) && before.range_distribution
            == RangeDistribution::Equal ==> equal_layers(
            stop_values(r),
            before.potrace.params.black_on_white,
            after.calculated_threshold->Some_0 as int,
            steps_for(
                before.steps,
                false,
                before.potrace.params.threshold is None,
                before.potrace.params.black_on_white,
                after.calculated_threshold,
            ),
        ))
    &&& (before.steps matches Steps::Thresholds(l) ==> listed_layers(
            before.potrace.histogram.lum@,
            after.potrace.histogram.lum_sorted_indexes@,
            before.fill_strategy,
            before.potrace.params.black_on_white,
            l@,
            after.calculated_threshold,
            r,
        ))
}

/// `r` is `ranges` with, when the last range spans more than 25 levels and its fill is not
/// at full intensity, one more layer for the darkest pixels: its threshold lies within 25
/// levels of the intense end, and its fill is the mean level of the pixels between the
/// intense end and that threshold (-1 when there are none).
pub open spec fn extra_added(
    lum: Seq<u64>,
    black_on_white: bool,
    ranges: Seq<ColorStop>,
    r: Seq<ColorStop>,
) -> bool {
    let last = ranges[ranges.len() - 1];
    let from: int = if black_on_white {
        0
    } else {
        last.value as int
    };
    let to: int = if black_on_white {
        last.value as int
    } else {
        255
    };
    let full = if black_on_white {
        last.color == 0
    } else {
        last.color == 255
    };
    &&& r.len() == ranges.len() || r.len() == ranges.len() + 1
    &&& forall|i: int| 0 <= i < ranges.len() ==> #[trigger] r[i] == ranges[i]
    &&& (r.len() == ranges.len() + 1 <==> (to - from > 25 && !full))
    &&& r.len() == ranges.len() + 1 ==> {
        let e = r[ranges.len() as int];
        let (a, b) = if black_on_white {
            (0int, e.value as int)
        } else {
            (255 - e.value as int, 255int)
        };
        let count = crate::histogram::level_count(lum, a, b);
        &&& (black_on_white ==> e.value <= 25)
        &&& (!black_on_white ==> e.value >= 230)
        &&& extra_level(range_mean(lum, from, to), range_std_dev(lum, from, to)) == (if black_on_white {
            e.value as int
        } else {
            255 - e.value as int
        })
        &&& count == 0 ==> e.color == -1
        &&& count > 0 ==> e.color == crate::histogram::level_mass(lum, a, b) / count
    }
}

/// Mean level of the pixels with levels `a..=b` (0 when there are none).
pub open spec fn range_mean(lum: Seq<u64>, a: int, b: int) -> int {
    let count = crate::histogram::level_count(lum, a, b);
    if count > 0 {
        crate::histogram::level_mass(lum, a, b) / count
    } else {
        0
    }
}

/// The standard deviation, rounded down, that `get_stats` reports for `a..=b`.
pub open spec fn range_std_dev(lum: Seq<u64>, a: int, b: int) -> int {
    let count = crate::histogram::level_count(lum, a, b);
    if count > 0 {
        crate::histogram::floor_sqrt(crate::histogram::deviation_sum(lum, range_mean(lum, a, b), a, b + 1) / count)
    } else {
        0
    }
}

/// Distance of the extra layer's threshold from the intense end: mean plus deviation when
/// that is at most 25, else mean minus deviation when that is at most 25 (0 at least),
/// else 25.
pub open spec fn extra_level(mean: int, sd: int) -> int {
    let s = if mean + sd <= 25 {
        mean + sd
    } else if mean - sd <= 25 {
        mean - sd
    } else {
        25
    };
    if s < 0 {
        0
    } else {
        s
    }
}

/// Layers least intense first: explicit threshold lists come most intense first.
pub open spec fn drawing_order(steps: Steps, ranges: Seq<ColorStop>) -> Seq<ColorStop> {
    match steps {
        Steps::Thresholds(_) => rev(ranges),
        _ => ranges,
    }
}

/// `s` in reverse order.
pub open spec fn rev<T>(s: Seq<T>) -> Seq<T> {
    Seq::new(s.len(), |i: int| s[s.len() - 1 - i])
}

/// `v` in reverse order.
pub fn reversed_stops(v: &Vec<ColorStop>) -> (r: Vec<ColorStop>)
    ensures
        r@ == rev(v@),
{
    let mut r: Vec<ColorStop> = Vec::new();
    let mut i: usize = v.len();
    while i > 0
        invariant
            i <= v@.len(),
            r@.len() == v@.len() - i,
            forall|q: int| 0 <= q < r@.len() ==> #[trigger] r@[q] == v@[v@.len() - 1 - q],
        decreases i,
    {
        i = i - 1;
        r.push(v[i]);
    }
    assert(r@ =~= rev(v@));
    r
}

/// The layer thresholds `v` are `up` (dark on light) or `up` reversed: they hold the same
/// levels, increasing or decreasing.
proof fn lemma_reordered(up: Seq<u8>, v: Seq<u8>, black_on_white: bool)
    requires
        forall|i: int, j: int| 0 <= i < j < up.len() ==> #[trigger] up[i] < #[trigger] up[j],
        black_on_white ==> v == up,
        !black_on_white ==> v == rev(up),
    ensures
        forall|x: u8| #[trigger] v.contains(x) <==> up.contains(x),
        black_on_white ==> forall|i: int, j: int|
            0 <= i < j < v.len() ==> #[trigger] v[i] < #[trigger] v[j],
        !black_on_white ==> forall|i: int, j: int|
            0 <= i < j < v.len() ==> #[trigger] v[i] > #[trigger] v[j],
{
    assert forall|x: u8| #[trigger] v.contains(x) <==> up.contains(x) by {
        if v.contains(x) {
            let i = choose|i: int| 0 <= i < v.len() && v[i] == x;
            if !black_on_white {
                assert(up[up.len() - 1 - i] == x);
            }
        }
        if up.contains(x) {
            let i = choose|i: int| 0 <= i < up.len() && up[i] == x;
            if !black_on_white {
                assert(v[up.len() - 1 - i] == x);
            }
        }
    }
    if !black_on_white {
        assert forall|i: int, j: int| 0 <= i < j < v.len() implies #[trigger] v[i] > #[trigger] v[j] by {
            assert(v[i] == up[up.len() - 1 - i] && v[j] == up[up.len() - 1 - j]);
        }
    }
}

} // verus!
