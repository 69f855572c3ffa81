use vstd::prelude::*;
use crate::bitmap::{composite, pixel_lum};
use crate::constants::{TraceError, MAX_SIDE};

verus! {

/// Number of levels of a channel.
pub const COLOR_DEPTH: usize = 256;

/// Position of the class `column..=row` in the lookup table (columns of 256 entries).
pub fn index(column: usize, row: usize) -> (r: usize)
    requires
        column < COLOR_DEPTH,
        row < COLOR_DEPTH,
    ensures
        r == column * 256 + row,
        r < COLOR_DEPTH * COLOR_DEPTH,
{
    COLOR_DEPTH * column + row
}

/// `s[lo] + ... + s[hi - 1]`.
pub open spec fn sum_seq(s: Seq<u64>, lo: int, hi: int) -> int
    decreases hi - lo,
{
    if hi <= lo {
        0
    } else {
        sum_seq(s, lo, hi - 1) + s[hi - 1]
    }
}

/// `lo * s[lo] + ... + (hi - 1) * s[hi - 1]`.
pub open spec fn wsum_seq(s: Seq<u64>, lo: int, hi: int) -> int
    decreases hi - lo,
{
    if hi <= lo {
        0
    } else {
        wsum_seq(s, lo, hi - 1) + (hi - 1) * s[hi - 1]
    }
}

/// Number of the first `n` pixels whose composited luminance is `v`.
pub open spec fn count_lum(rgba: Seq<u8>, n: int, v: int) -> int
    decreases n,
{
    if n <= 0 {
        0
    } else {
        count_lum(rgba, n - 1, v) + if pixel_lum(rgba, n - 1) == v {
            1int
        } else {
            0int
        }
    }
}

/// Number of the first `n` pixels whose composited channel `ch` (0, 1 or 2) is `v`.
pub open spec fn count_channel(rgba: Seq<u8>, n: int, ch: int, v: int) -> int
    decreases n,
{
    if n <= 0 {
        0
    } else {
        count_channel(rgba, n - 1, ch, v) + if composite(
            rgba[4 * (n - 1) + ch] as int,
            rgba[4 * (n - 1) + 3] as int,
        ) == v {
            1int
        } else {
            0int
        }
    }
}

/// Order of levels by pixel count, ties by level.
pub open spec fn key_less(ch: Seq<u64>, a: int, b: int) -> bool {
    ch[a] < ch[b] || (ch[a] == ch[b] && a < b)
}

/// `r` lists the 256 levels by ascending pixel count.
pub open spec fn sorted_by_count(ch: Seq<u64>, r: Seq<usize>) -> bool {
    &&& r.len() == COLOR_DEPTH
    &&& forall|i: int| 0 <= i < r.len() ==> r[i] < COLOR_DEPTH
    &&& forall|i: int, j: int|
        0 <= i < j < r.len() ==> key_less(ch, #[trigger] r[i] as int, #[trigger] r[j] as int)
}

pub proof fn lemma_sum_split(s: Seq<u64>, lo: int, mid: int, hi: int)
    requires
        lo <= mid <= hi,
    ensures
        sum_seq(s, lo, hi) == sum_seq(s, lo, mid) + sum_seq(s, mid, hi),
        wsum_seq(s, lo, hi) == wsum_seq(s, lo, mid) + wsum_seq(s, mid, hi),
    decreases hi - mid,
{
    if hi > mid {
        lemma_sum_split(s, lo, mid, hi - 1);
    }
}

pub proof fn lemma_sum_update(s: Seq<u64>, k: int, lo: int, hi: int)
    requires
        0 <= lo <= k < hi <= s.len(),
        s[k] < u64::MAX,
    ensures
        sum_seq(s.update(k, (s[k] + 1) as u64), lo, hi) == sum_seq(s, lo, hi) + 1,
    decreases hi - lo,
{
    if hi - 1 > k {
        lemma_sum_update(s, k, lo, hi - 1);
    } else {
        let t = s.update(k, (s[k] + 1) as u64);
        assert forall|i: int| lo <= i < k implies s[i] == t[i] by {}
        lemma_sum_same(s, t, lo, k);
    }
}

pub proof fn lemma_sum_same(s: Seq<u64>, t: Seq<u64>, lo: int, hi: int)
    requires
        forall|i: int| lo <= i < hi ==> s[i] == t[i],
    ensures
        sum_seq(s, lo, hi) == sum_seq(t, lo, hi),
        wsum_seq(s, lo, hi) == wsum_seq(t, lo, hi),
    decreases hi - lo,
{
    if hi > lo {
        lemma_sum_same(s, t, lo, hi - 1);
    }
}

pub proof fn lemma_sum_bounds(s: Seq<u64>, lo: int, hi: int)
    requires
        0 <= lo,
        hi <= 256,
    ensures
        0 <= sum_seq(s, lo, hi),
        0 <= wsum_seq(s, lo, hi) <= 255 * sum_seq(s, lo, hi),
        forall|i: int| lo <= i < hi ==> s[i] <= sum_seq(s, lo, hi),
    decreases hi - lo,
{
    if hi > lo {
        lemma_sum_bounds(s, lo, hi - 1);
        assert((hi - 1) * s[hi - 1] <= 255 * s[hi - 1]) by (nonlinear_arith)
            requires
                hi - 1 <= 255,
                s[hi - 1] >= 0,
        ;
        assert(0 <= (hi - 1) * s[hi - 1]) by (nonlinear_arith)
            requires
                hi - 1 >= 0,
                s[hi - 1] >= 0,
        ;
    }
}

/// Pixel counts per level of the luminance channel.
#[derive(Clone, Debug)]
pub struct PixelsPerLevel {
    pub mean: u64,
    pub median: u64,
    pub peak: u64,
}

/// Statistics of the levels of a luminance range.
#[derive(Clone, Debug)]
pub struct Levels {
    pub mean: u8,
    pub median: u8,
    /// Standard deviation of the levels, rounded down.
    pub std_dev: u32,
    pub unique: u32,
}

/// Statistics of a luminance range.
#[derive(Clone, Debug)]
pub struct Stats {
    pub levels: Levels,
    pub pixels_per_level: PixelsPerLevel,
    pub pixels: u64,
}

/// A channel of a histogram.
#[derive(PartialEq, Eq, Structural, Clone, Copy, Debug)]
pub enum Mode {
    R,
    G,
    B,
    L,
}

/// Per-level pixel counts of an image, for the red, green, blue and luminance channels.
#[derive(Clone, Debug)]
pub struct Histogram {
    pub red: Vec<u64>,
    pub red_sorted_indexes: Vec<usize>,
    pub green: Vec<u64>,
    pub green_sorted_indexes: Vec<usize>,
    pub blue: Vec<u64>,
    pub blue_sorted_indexes: Vec<usize>,
    pub lum: Vec<u64>,
    pub lum_sorted_indexes: Vec<usize>,
    pub pixels: usize,
    pub lookup_table_h: Vec<u64>,
}

/// Adds one pixel to a channel's counts.
fn count_level(counts: &mut Vec<u64>, v: usize, Ghost(total): Ghost<int>)
    requires
        old(counts)@.len() == COLOR_DEPTH,
        v < COLOR_DEPTH,
        sum_seq(old(counts)@, 0, 256) == total,
        total < 0x4000_0000,
    ensures
        final(counts)@ == old(counts)@.update(v as int, (old(counts)@[v as int] + 1) as u64),
        sum_seq(final(counts)@, 0, 256) == total + 1,
{
    proof {
        lemma_sum_bounds(counts@, 0, 256);
        lemma_sum_update(counts@, v as int, 0, 256);
    }
    let c = counts[v];
    counts.set(v, c + 1);
}

impl Histogram {
    pub open spec fn wf(&self) -> bool {
        &&& self.red@.len() == COLOR_DEPTH
        &&& self.green@.len() == COLOR_DEPTH
        &&& self.blue@.len() == COLOR_DEPTH
        &&& self.lum@.len() == COLOR_DEPTH
        &&& self.pixels <= 0x4000_0000
        &&& sum_seq(self.lum@, 0, 256) == self.pixels
        &&& sorted_by_count(self.red@, self.red_sorted_indexes@)
        &&& sorted_by_count(self.green@, self.green_sorted_indexes@)
        &&& sorted_by_count(self.blue@, self.blue_sorted_indexes@)
        &&& sorted_by_count(self.lum@, self.lum_sorted_indexes@)
        &&& self.lookup_table_h@.len() == 0 || self.table_filled()
    }

    /// Every entry of the lookup table holds the between-class score of its range.
    pub open spec fn table_filled(&self) -> bool {
        &&& self.lookup_table_h@.len() == COLOR_DEPTH * COLOR_DEPTH
        &&& forall|c: int, r: int|
            0 <= c < 256 && 0 <= r < 256 ==> #[trigger] self.lookup_table_h@[c * 256 + r]
                == between_class(self.lum@, c, r)
    }

    pub open spec fn sorted_view(&self, channel: Mode) -> Seq<usize> {
        match channel {
            Mode::R => self.red_sorted_indexes@,
            Mode::G => self.green_sorted_indexes@,
            Mode::B => self.blue_sorted_indexes@,
            Mode::L => self.lum_sorted_indexes@,
        }
    }

    /// Counts the levels of a `width` by `height` RGBA buffer composited over white.
    pub fn new(width: usize, height: usize, rgba: &Vec<u8>) -> (h: Histogram)
        requires
            width <= MAX_SIDE,
            height <= MAX_SIDE,
            rgba@.len() == 4 * width * height,
        ensures
            h.wf(),
            h.pixels == width * height,
            sum_seq(h.red@, 0, 256) == h.pixels,
            sum_seq(h.green@, 0, 256) == h.pixels,
            sum_seq(h.blue@, 0, 256) == h.pixels,
            h.lookup_table_h@.len() == 0,
            forall|v: int|
                0 <= v < 256 ==> {
                    &&& h.lum@[v] == count_lum(rgba@, width * height, v)
                    &&& h.red@[v] == count_channel(rgba@, width * height, 0, v)
                    &&& h.green@[v] == count_channel(rgba@, width * height, 1, v)
                    &&& h.blue@[v] == count_channel(rgba@, width * height, 2, v)
                },
    {
        assert(width * height <= MAX_SIDE * MAX_SIDE) by (nonlinear_arith)
            requires
                width <= MAX_SIDE,
                height <= MAX_SIDE,
        ;
        let n: usize = width * height;
        assert(4 * width * height == 4 * n) by (nonlinear_arith)
            requires
                n == width * height,
        ;
        let mut red: Vec<u64> = vec![0u64; COLOR_DEPTH];
        let mut green: Vec<u64> = vec![0u64; COLOR_DEPTH];
        let mut blue: Vec<u64> = vec![0u64; COLOR_DEPTH];
        let mut lum: Vec<u64> = vec![0u64; COLOR_DEPTH];
        proof {
            assert(sum_seq(red@, 0, 256) == 0) by {
                lemma_sum_zero(red@, 0, 256);
            }
            lemma_sum_zero(green@, 0, 256);
            lemma_sum_zero(blue@, 0, 256);
            lemma_sum_zero(lum@, 0, 256);
        }
        let mut i: usize = 0;
        while i < n
            invariant
                n == width * height,
                n <= MAX_SIDE * MAX_SIDE,
                rgba@.len() == 4 * n,
                i <= n,
                red@.len() == 256,
                green@.len() == 256,
                blue@.len() == 256,
                lum@.len() == 256,
                sum_seq(red@, 0, 256) == i,
                sum_seq(green@, 0, 256) == i,
                sum_seq(blue@, 0, 256) == i,
                sum_seq(lum@, 0, 256) == i,
                forall|v: int| 0 <= v < 256 ==> #[trigger] lum@[v] == count_lum(rgba@, i as int, v),
                forall|v: int|
                    0 <= v < 256 ==> #[trigger] red@[v] == count_channel(rgba@, i as int, 0, v),
                forall|v: int|
                    0 <= v < 256 ==> #[trigger] green@[v] == count_channel(rgba@, i as int, 1, v),
                forall|v: int|
                    0 <= v < 256 ==> #[trigger] blue@[v] == count_channel(rgba@, i as int, 2, v),
            decreases n - i,
        {
            let ghost (lum0, red0, green0, blue0) = (lum@, red@, green@, blue@);
            let a = rgba[4 * i + 3];
            let r = crate::bitmap::composite_channel(rgba[4 * i], a);
            let g = crate::bitmap::composite_channel(rgba[4 * i + 1], a);
            let b = crate::bitmap::composite_channel(rgba[4 * i + 2], a);
            let l = crate::bitmap::rgba_luminance(rgba, i);
            count_level(&mut red, r as usize, Ghost(i as int));
            count_level(&mut green, g as usize, Ghost(i as int));
            count_level(&mut blue, b as usize, Ghost(i as int));
            count_level(&mut lum, l as usize, Ghost(i as int));
            proof {
                assert forall|v: int| 0 <= v < 256 implies #[trigger] lum@[v] == count_lum(
                    rgba@,
                    i + 1,
                    v,
                ) by {
                    assert(lum0[v] == count_lum(rgba@, i as int, v));
                    assert(count_lum(rgba@, i + 1, v) == count_lum(rgba@, i as int, v) + if pixel_lum(
                        rgba@,
                        i as int,
                    ) == v {
                        1int
                    } else {
                        0int
                    });
                    assert(l == pixel_lum(rgba@, i as int));
                    if v == l as int {
                        lemma_sum_bounds(lum0, 0, 256);
                        assert(lum@[v] == lum0[v] + 1);
                    } else {
                        assert(lum@[v] == lum0[v]);
                    }
                }
                assert forall|v: int| 0 <= v < 256 implies #[trigger] red@[v] == count_channel(
                    rgba@,
                    i + 1,
                    0,
                    v,
                ) by{
                    assert(red0[v] == count_channel(rgba@, i as int, 0, v));
                    assert(count_channel(rgba@, i + 1, 0, v) == count_channel(rgba@, i as int, 0, v)
                        + if composite(rgba@[4 * i + 0] as int, rgba@[4 * i + 3] as int) == v {
                        1int
                    } else {
                        0int
                    });
                    if v == r as int {
                        lemma_sum_bounds(red0, 0, 256);
                        assert(red@[v] == red0[v] + 1);
                    } else {
                        assert(red@[v] == red0[v]);
                    }
                }
                assert forall|v: int| 0 <= v < 256 implies #[trigger] green@[v] == count_channel(
                    rgba@,
                    i + 1,
                    1,
                    v,
                ) by{
                    assert(green0[v] == count_channel(rgba@, i as int, 1, v));
                    assert(count_channel(rgba@, i + 1, 1, v) == count_channel(rgba@, i as int, 1, v)
                        + if composite(rgba@[4 * i + 1] as int, rgba@[4 * i + 3] as int) == v {
                        1int
                    } else {
                        0int
                    });
                    if v == g as int {
                        lemma_sum_bounds(green0, 0, 256);
                        assert(green@[v] == green0[v] + 1);
                    } else {
                        assert(green@[v] == green0[v]);
                    }
                }
                assert forall|v: int| 0 <= v < 256 implies #[trigger] blue@[v] == count_channel(
                    rgba@,
                    i + 1,
                    2,
                    v,
                ) by{
                    assert(blue0[v] == count_channel(rgba@, i as int, 2, v));
                    assert(count_channel(rgba@, i + 1, 2, v) == count_channel(rgba@, i as int, 2, v)
                        + if composite(rgba@[4 * i + 2] as int, rgba@[4 * i + 3] as int) == v {
                        1int
                    } else {
                        0int
                    });
                    if v == b as int {
                        lemma_sum_bounds(blue0, 0, 256);
                        assert(blue@[v] == blue0[v] + 1);
                    } else {
                        assert(blue@[v] == blue0[v]);
                    }
                }
            }
            i = i + 1;
        }
        let red_sorted_indexes = Histogram::sort_indexes(&red);
        let green_sorted_indexes = Histogram::sort_indexes(&green);
        let blue_sorted_indexes = Histogram::sort_indexes(&blue);
        let lum_sorted_indexes = Histogram::sort_indexes(&lum);
        Histogram {
            red,
            red_sorted_indexes,
            green,
            green_sorted_indexes,
            blue,
            blue_sorted_indexes,
            lum,
            lum_sorted_indexes,
            pixels: n,
            lookup_table_h: Vec::new(),
        }
    }

    /// The 256 levels ordered by ascending pixel count, ties by ascending level.
    fn sort_indexes(channel: &Vec<u64>) -> (r: Vec<usize>)
        requires
            channel@.len() == COLOR_DEPTH,
        ensures
            sorted_by_count(channel@, r@),
    {
        let mut r: Vec<usize> = Vec::new();
        let mut i: usize = 0;
        while i < COLOR_DEPTH
            invariant
                channel@.len() == COLOR_DEPTH,
                i <= COLOR_DEPTH,
                r@.len() == i,
                forall|q: int| 0 <= q < r@.len() ==> r@[q] < i,
                forall|a: int, b: int|
                    0 <= a < b < r@.len() ==> key_less(
                        channel@,
                        #[trigger] r@[a] as int,
                        #[trigger] r@[b] as int,
                    ),
            decreases COLOR_DEPTH - i,
        {
            let mut p: usize = 0;
            while p < r.len() && (channel[r[p]] < channel[i] || (channel[r[p]] == channel[i]
                && r[p] < i))
                invariant
                    channel@.len() == COLOR_DEPTH,
                    i < COLOR_DEPTH,
                    p <= r@.len(),
                    forall|q: int| 0 <= q < r@.len() ==> r@[q] < i,
                    forall|q: int| 0 <= q < p ==> key_less(channel@, #[trigger] r@[q] as int, i as int),
                decreases r@.len() - p,
            {
                p = p + 1;
            }
            let ghost old_r = r@;
            proof {
                if p < old_r.len() {
                    assert(key_less(channel@, i as int, old_r[p as int] as int));
                    assert forall|q: int| p <= q < old_r.len() implies key_less(
                        channel@,
                        i as int,
                        #[trigger] old_r[q] as int,
                    ) by {
                        if q > p {
                            assert(key_less(channel@, old_r[p as int] as int, old_r[q] as int));
                        }
                    }
                }
            }
            r.insert(p, i);
            proof {
                assert forall|a: int, b: int| 0 <= a < b < r@.len() implies key_less(
                    channel@,
                    #[trigger] r@[a] as int,
                    #[trigger] r@[b] as int,
                ) by {
                    if b < p {
                        assert(r@[a] == old_r[a] && r@[b] == old_r[b]);
                    } else if b == p {
                        assert(r@[a] == old_r[a]);
                    } else if a < p {
                        assert(r@[a] == old_r[a] && r@[b] == old_r[b - 1]);
                        assert(key_less(channel@, i as int, old_r[b - 1] as int));
                    } else if a == p {
                        assert(r@[b] == old_r[b - 1]);
                    } else {
                        assert(r@[a] == old_r[a - 1] && r@[b] == old_r[b - 1]);
                    }
                }
            }
            i = i + 1;
        }
        r
    }

    /// Statistics of the luminance levels `level_min..=level_max`.
    pub fn get_stats(&self, level_min: i32, level_max: i32) -> (r: Result<Stats, TraceError>)
        requires
            self.wf(),
        ensures
            r is Err <==> normalized(Some(level_min), Some(level_max)) is None,
            r is Err ==> r == Err::<Stats, TraceError>(TraceError::InvalidParameters),
            r matches Ok(st) ==> {
                let (a, b) = normalized(Some(level_min), Some(level_max))->Some_0;
                let pixels = level_count(self.lum@, a, b);
                let mean = if pixels > 0 {
                    level_mass(self.lum@, a, b) / pixels
                } else {
                    0
                };
                &&& st.pixels == pixels
                &&& st.levels.mean == mean
                &&& st.levels.unique == unique_count(self.lum@, a, b + 1)
                &&& st.pixels_per_level.peak == peak_count(self.lum@, a, b + 1)
                &&& st.pixels_per_level.mean == if b > a {
                    pixels / (b - a)
                } else {
                    0
                }
                &&& st.pixels_per_level.median == if st.levels.unique > 0 {
                    pixels / (st.levels.unique as int)
                } else {
                    0
                }
                &&& (exists|k: int|
                    is_median_position(
                        self.lum@,
                        self.lum_sorted_indexes@,
                        a,
                        b,
                        pixels / 2,
                        k,
                    ) && self.lum_sorted_indexes@[k] == st.levels.median) || (st.levels.median == 0
                    && forall|k: int|
                    !#[trigger] is_median_position(
                        self.lum@,
                        self.lum_sorted_indexes@,
                        a,
                        b,
                        pixels / 2,
                        k,
                    ))
                &&& pixels == 0 ==> st.levels.std_dev == 0
                &&& pixels > 0 ==> is_floor_sqrt(
                    st.levels.std_dev as int,
                    deviation_sum(self.lum@, mean, a, b + 1) / pixels,
                )
            },
    {
        let (a, b) = match normalize_min_max(Some(level_min), Some(level_max)) {
            Ok(p) => p,
            Err(e) => {
                return Err(e);
            },
        };
        let lo = a as usize;
        let hi = b as usize;
        let ghost lum = self.lum@;
        proof {
            lemma_sum_bounds(lum, 0, 256);
        }
        let mut pixels: u64 = 0;
        let mut mass: u64 = 0;
        let mut unique: u32 = 0;
        let mut peak: u64 = 0;
        let mut i: usize = lo;
        while i <= hi
            invariant
                self.wf(),
                lum == self.lum@,
                lo <= hi <= 255,
                lo <= i <= hi + 1,
                pixels == sum_seq(lum, lo as int, i as int),
                mass == wsum_seq(lum, lo as int, i as int),
                unique == unique_count(lum, lo as int, i as int),
                peak == peak_count(lum, lo as int, i as int),
                unique <= i - lo,
                pixels <= 0x4000_0000,
                sum_seq(lum, 0, 256) <= 0x4000_0000,
                forall|v: int| 0 <= v < 256 ==> lum[v] <= 0x4000_0000,
                mass <= 255 * pixels,
            decreases hi + 1 - i,
        {
            proof {
                lemma_sum_split(lum, 0, lo as int, 256);
                lemma_sum_split(lum, lo as int, i as int, 256);
                lemma_sum_split(lum, i as int, i + 1, 256);
                lemma_sum_split(lum, lo as int, i + 1, 256);
                lemma_sum_bounds(lum, i + 1, 256);
                lemma_sum_bounds(lum, 0, lo as int);
                lemma_sum_bounds(lum, lo as int, i + 1);
            }
            let c = self.lum[i];
            assert(sum_seq(lum, lo as int, i + 1) <= 0x4000_0000);
            pixels = pixels + c;
            proof {
                assert((i as int) * (c as int) <= 255 * c) by (nonlinear_arith)
                    requires
                        i <= 255,
                ;
            }
            mass = mass + (i as u64) * c;
            if c != 0 {
                unique = unique + 1;
            }
            if c > peak {
                peak = c;
            }
            i = i + 1;
        }
        proof {
            lemma_sum_split(lum, 0, lo as int, 256);
            lemma_sum_bounds(lum, hi + 1, 256);
            lemma_sum_bounds(lum, 0, lo as int);
        }
        let mean: u64 = if pixels > 0 {
            proof {
                vstd::arithmetic::div_mod::lemma_div_is_ordered(
                    mass as int,
                    255 * pixels as int,
                    pixels as int,
                );
                vstd::arithmetic::div_mod::lemma_div_by_multiple(255, pixels as int);
            }
            mass / pixels
        } else {
            0
        };
        let mut dev: u64 = 0;
        let mut i: usize = lo;
        while i <= hi
            invariant
                lum == self.lum@,
                lum.len() == 256,
                lo <= hi <= 255,
                lo <= i <= hi + 1,
                mean <= 255,
                pixels == sum_seq(lum, lo as int, hi + 1),
                pixels <= 0x4000_0000,
                sum_seq(lum, 0, 256) <= 0x4000_0000,
                dev == deviation_sum(lum, mean as int, lo as int, i as int),
                dev <= 65025 * sum_seq(lum, lo as int, i as int),
            decreases hi + 1 - i,
        {
            proof {
                lemma_sum_split(lum, lo as int, i + 1, hi + 1);
                lemma_sum_bounds(lum, i + 1, hi + 1);
                lemma_sum_bounds(lum, lo as int, i as int);
            }
            let d: u64 = if i as u64 >= mean {
                i as u64 - mean
            } else {
                mean - i as u64
            };
            let c = self.lum[i];
            proof {
                lemma_sum_bounds(lum, 0, 256);
                assert(d * d <= 65025) by (nonlinear_arith)
                    requires
                        d <= 255,
                ;
                assert(d * d * c <= 65025 * c) by (nonlinear_arith)
                    requires
                        d * d <= 65025,
                ;
                lemma_sum_split(lum, 0, lo as int, 256);
                lemma_sum_split(lum, lo as int, hi + 1, 256);
                lemma_sum_bounds(lum, 0, lo as int);
                lemma_sum_bounds(lum, hi + 1, 256);
                assert((i - mean) * (i - mean) == d * d) by (nonlinear_arith)
                    requires
                        d == i - mean || d == mean - i,
                ;
            }
            dev = dev + d * d * c;
            i = i + 1;
        }
        let std_dev: u32 = if pixels > 0 {
            crate::utils::isqrt(dev / pixels)
        } else {
            0
        };
        let half: u64 = pixels / 2;
        let order = &self.lum_sorted_indexes;
        let mut cum: u64 = 0;
        let mut k: usize = 0;
        let mut median: u8 = 0;
        let mut found = false;
        while k < COLOR_DEPTH && !found
            invariant
                self.wf(),
                order@ == self.lum_sorted_indexes@,
                lum == self.lum@,
                lo <= hi <= 255,
                k <= COLOR_DEPTH,
                cum == cumulated(lum, order@, lo as int, hi as int, k as int),
                cum <= k * 0x4000_0000,
                sum_seq(lum, 0, 256) <= 0x4000_0000,
                found ==> exists|q: int|
                    is_median_position(lum, order@, lo as int, hi as int, half as int, q)
                        && order@[q] == median,
                !found ==> median == 0,
                !found ==> forall|q: int|
                    0 <= q < k && lo <= #[trigger] order@[q] <= hi ==> cumulated(
                        lum,
                        order@,
                        lo as int,
                        hi as int,
                        q + 1,
                    ) < half,
            decreases COLOR_DEPTH - k + if found {
                0int
            } else {
                1int
            },
        {
            let v = order[k];
            proof {
                lemma_sum_bounds(lum, 0, 256);
            }
            if lo <= v && v <= hi {
                cum = cum + self.lum[v];
                if cum >= half {
                    median = v as u8;
                    found = true;
                    proof {
                        assert(is_median_position(
                            lum,
                            order@,
                            lo as int,
                            hi as int,
                            half as int,
                            k as int,
                        ));
                    }
                }
            }
            k = k + 1;
        }
        proof {
            if !found {
                assert forall|q: int|
                    !#[trigger] is_median_position(
                        lum,
                        order@,
                        lo as int,
                        hi as int,
                        half as int,
                        q,
                    ) by {
                    if 0 <= q < order@.len() && lo <= order@[q] <= hi {
                        assert(cumulated(lum, order@, lo as int, hi as int, q + 1) < half);
                    }
                }
            }
        }
        let levels = Levels { mean: mean as u8, median, std_dev, unique };
        let ppl = PixelsPerLevel {
            mean: if hi > lo {
                pixels / ((hi - lo) as u64)
            } else {
                0
            },
            median: if unique > 0 {
                pixels / (unique as u64)
            } else {
                0
            },
            peak,
        };
        proof {
            if found {
                let k = choose|k: int|
                    is_median_position(lum, order@, lo as int, hi as int, half as int, k)
                        && order@[k] == median;
                assert(is_median_position(
                    lum,
                    order@,
                    lo as int,
                    hi as int,
                    (pixels as int) / 2,
                    k,
                ));
            } else {
                assert forall|q: int|
                    !#[trigger] is_median_position(
                        lum,
                        order@,
                        lo as int,
                        hi as int,
                        (pixels as int) / 2,
                        q,
                    ) by {
                    assert(!is_median_position(lum, order@, lo as int, hi as int, half as int, q));
                }
            }
        }
        Ok(Stats { levels, pixels_per_level: ppl, pixels })
    }

    /// Count of the neighbourhood of level `i`, offsets `-(tol / 2)..tol`.
    fn window_count(&self, i: usize, tol: u8) -> (r: u64)
        requires
            self.wf(),
            i <= 255,
            tol >= 1,
        ensures
            r == window(self.lum@, i as int, tol as int),
    {
        let j0: i64 = -((tol / 2) as i64);
        let n: u64 = 2 * ((tol / 2) as u64) + 1;
        let mut k: u64 = 0;
        let mut acc: u64 = 0;
        proof {
            lemma_sum_bounds(self.lum@, 0, 256);
        }
        while k < n
            invariant
                self.wf(),
                i <= 255,
                n == 2 * (tol / 2) + 1,
                j0 == -(tol / 2),
                k <= n,
                acc == window_sum(self.lum@, i as int, j0 as int, k as nat),
                acc <= k * 0x4000_0000,
                forall|v: int| 0 <= v < 256 ==> self.lum@[v] <= 0x4000_0000,
            decreases n - k,
        {
            let l: i64 = i as i64 + j0 + k as i64;
            if 0 <= l && l <= 255 {
                acc = acc + self.lum[l as usize];
            }
            k = k + 1;
        }
        acc
    }

    /// The level of `level_min..=level_max` whose neighbourhood (within `tolerance / 2`) holds
    /// the most pixels (ties: the larger own count, then the lower level), or -1 when no pixel
    /// has a level in the range.
    pub fn get_dominant_color(&self, level_min: i32, level_max: i32, tolerance: Option<u8>) -> (r:
        Result<i32, TraceError>)
        requires
            self.wf(),
        ensures
            r is Err <==> normalized(Some(level_min), Some(level_max)) is None,
            r is Err ==> r == Err::<i32, TraceError>(TraceError::InvalidParameters),
            r matches Ok(c) ==> is_dominant_color(
                self.lum@,
                normalized(Some(level_min), Some(level_max))->Some_0.0,
                normalized(Some(level_min), Some(level_max))->Some_0.1,
                tolerance_of(tolerance),
                c as int,
            ),
    {
        let (a, b) = match normalize_min_max(Some(level_min), Some(level_max)) {
            Ok(p) => p,
            Err(e) => {
                return Err(e);
            },
        };
        let tol: u8 = match tolerance {
            Some(t) => if t == 0 {
                1
            } else {
                t
            },
            None => 1,
        };
        let st = match self.get_stats(a as i32, b as i32) {
            Ok(st) => st,
            Err(e) => {
                return Err(e);
            },
        };
        if st.pixels == 0 {
            return Ok(-1);
        }
        let lo = a as usize;
        let hi = b as usize;
        let mut best_index: usize = lo;
        let mut best_value: u64 = self.window_count(lo, tol);
        let mut i: usize = lo + 1;
        while i <= hi
            invariant
                self.wf(),
                lo <= hi <= 255,
                lo < i <= hi + 1,
                lo <= best_index < i,
                tol >= 1,
                best_value == window(self.lum@, best_index as int, tol as int),
                forall|q: int|
                    lo <= q < i ==> #[trigger] dominates(
                        self.lum@,
                        tol as int,
                        best_index as int,
                        q,
                    ),
            decreases hi + 1 - i,
        {
            let v = self.window_count(i, tol);
            let ghost b0 = best_index as int;
            if v > best_value || (v == best_value && self.lum[i] > self.lum[best_index]) {
                best_index = i;
                best_value = v;
            }
            proof {
                assert forall|q: int| lo <= q < i + 1 implies #[trigger] dominates(
                    self.lum@,
                    tol as int,
                    best_index as int,
                    q,
                ) by {
                    if q < i {
                        assert(dominates(self.lum@, tol as int, b0, q));
                    }
                }
            }
            i = i + 1;
        }
        Ok(best_index as i32)
    }

    /// Fills the table of between-class scores of every class of levels, if not done yet.
    fn thresholding_build_lookup_table(&mut self)
        requires
            old(self).wf(),
        ensures
            final(self).wf(),
            final(self).table_filled(),
            final(self).lum@ == old(self).lum@,
            final(self).red@ == old(self).red@,
            final(self).green@ == old(self).green@,
            final(self).blue@ == old(self).blue@,
            final(self).pixels == old(self).pixels,
            final(self).lum_sorted_indexes@ == old(self).lum_sorted_indexes@,
    {
        if self.lookup_table_h.len() != 0 {
            return;
        }
        let ghost lum = self.lum@;
        proof {
            lemma_sum_bounds(lum, 0, 256);
        }
        let mut cp: Vec<u64> = Vec::new();
        let mut cs: Vec<u64> = Vec::new();
        cp.push(0);
        cs.push(0);
        let mut i: usize = 0;
        while i < COLOR_DEPTH
            invariant
                lum == self.lum@,
                lum.len() == 256,
                sum_seq(lum, 0, 256) <= 0x4000_0000,
                i <= 256,
                cp@.len() == i + 1,
                cs@.len() == i + 1,
                forall|q: int| 0 <= q <= i ==> #[trigger] cp@[q] == sum_seq(lum, 0, q),
                forall|q: int| 0 <= q <= i ==> #[trigger] cs@[q] == wsum_seq(lum, 0, q),
            decreases 256 - i,
        {
            proof {
                lemma_sum_split(lum, 0, i + 1, 256);
                lemma_sum_bounds(lum, 0, i + 1);
                lemma_sum_bounds(lum, i + 1, 256);
            }
            let c = self.lum[i];
            let a = cp[i] + c;
            let b = cs[i] + (i as u64) * c;
            cp.push(a);
            cs.push(b);
            i = i + 1;
        }
        let mut table: Vec<u64> = Vec::new();
        let mut c: usize = 0;
        while c < COLOR_DEPTH
            invariant
                lum == self.lum@,
                lum.len() == 256,
                sum_seq(lum, 0, 256) <= 0x4000_0000,
                cp@.len() == 257,
                cs@.len() == 257,
                forall|q: int| 0 <= q <= 256 ==> #[trigger] cp@[q] == sum_seq(lum, 0, q),
                forall|q: int| 0 <= q <= 256 ==> #[trigger] cs@[q] == wsum_seq(lum, 0, q),
                c <= 256,
                table@.len() == c * 256,
                forall|x: int, y: int|
                    0 <= x < c && 0 <= y < 256 ==> #[trigger] table@[x * 256 + y]
                        == between_class(lum, x, y),
            decreases 256 - c,
        {
            let mut r: usize = 0;
            while r < COLOR_DEPTH
                invariant
                    lum == self.lum@,
                    lum.len() == 256,
                    sum_seq(lum, 0, 256) <= 0x4000_0000,
                    cp@.len() == 257,
                    cs@.len() == 257,
                    forall|q: int| 0 <= q <= 256 ==> #[trigger] cp@[q] == sum_seq(lum, 0, q),
                    forall|q: int| 0 <= q <= 256 ==> #[trigger] cs@[q] == wsum_seq(lum, 0, q),
                    c < 256,
                    r <= 256,
                    table@.len() == c * 256 + r,
                    forall|x: int, y: int|
                        0 <= x < c && 0 <= y < 256 ==> #[trigger] table@[x * 256 + y]
                            == between_class(lum, x, y),
                    forall|y: int| 0 <= y < r ==> #[trigger] table@[c * 256 + y] == between_class(
                        lum,
                        c as int,
                        y,
                    ),
                decreases 256 - r,
            {
                let h: u64 = if c <= r {
                    proof {
                        lemma_sum_split(lum, 0, c as int, r + 1);
                        lemma_sum_split(lum, 0, r + 1, 256);
                        lemma_sum_bounds(lum, c as int, r + 1);
                        lemma_sum_bounds(lum, r + 1, 256);
                        lemma_sum_bounds(lum, 0, c as int);
                        lemma_between_class_bound(lum, c as int, r as int);
                    }
                    let pc = cp[r + 1] - cp[c];
                    let sc = cs[r + 1] - cs[c];
                    if pc > 0 {
                        proof {
                            assert(sc * sc <= 0x10000_0000_0000_0000_0000) by (nonlinear_arith)
                                requires
                                    0 <= sc <= 255 * 0x4000_0000,
                            ;
                        }
                        ((sc as u128) * (sc as u128) / (pc as u128)) as u64
                    } else {
                        0
                    }
                } else {
                    0
                };
                let ghost old_table = table@;
                table.push(h);
                proof {
                    assert forall|x: int, y: int|
                        0 <= x < c && 0 <= y < 256 implies #[trigger] table@[x * 256 + y]
                        == between_class(lum, x, y) by {
                        assert(x * 256 + y < c * 256) by (nonlinear_arith)
                            requires
                                0 <= x < c,
                                0 <= y < 256,
                        ;
                        assert(table@[x * 256 + y] == old_table[x * 256 + y]);
                    }
                }
                r = r + 1;
            }
            c = c + 1;
        }
        self.lookup_table_h = table;
    }

    /// Thresholds `t_1 < ... < t_k` inside `level_min..=level_max` that maximise the total
    /// between-class score of the classes they cut; `k` is `amount` when the range is wide
    /// enough, and no thresholds come back when every choice scores 0.
    pub fn multilevel_thresholding(
        &mut self,
        amount: i32,
        level_min: Option<i32>,
        level_max: Option<i32>,
    ) -> (r: Result<Vec<u8>, TraceError>)
        requires
            old(self).wf(),
        ensures
            final(self).wf(),
            final(self).lum@ == old(self).lum@,
            final(self).red@ == old(self).red@,
            final(self).green@ == old(self).green@,
            final(self).blue@ == old(self).blue@,
            final(self).pixels == old(self).pixels,
            final(self).lum_sorted_indexes@ == old(self).lum_sorted_indexes@,
            r is Err <==> normalized(level_min, level_max) is None,
            r is Err ==> r == Err::<Vec<u8>, TraceError>(TraceError::InvalidParameters),
            r matches Ok(t) ==> multilevel_result(
                old(self).lum@,
                amount as int,
                normalized(level_min, level_max)->Some_0.0,
                normalized(level_min, level_max)->Some_0.1,
                t@,
            ),
    {
        let (a, b) = match normalize_min_max(level_min, level_max) {
            Ok(p) => p,
            Err(e) => {
                return Err(e);
            },
        };
        let lo = a as i64;
        let hi = b as i64;
        let amt: i64 = if hi - lo - 2 < amount as i64 {
            hi - lo - 2
        } else {
            amount as i64
        };
        if amt < 1 {
            return Ok(Vec::new());
        }
        self.thresholding_build_lookup_table();
        let ghost lum = self.lum@;
        let k = amt as usize;
        let lo_u = lo as usize;
        let hi_u = hi as usize;
        proof {
            lemma_sum_bounds(lum, 0, 256);
        }
        // best[d * 256 + s] = best_split(d, s, s + 1) for lo <= s < hi
        let mut best: Vec<i64> = Vec::new();
        let mut d: usize = 0;
        while d <= k
            invariant
                self.wf(),
                self.table_filled(),
                lum == self.lum@,
                sum_seq(lum, 0, 256) <= 0x4000_0000,
                0 <= lo_u < hi_u <= 255,
                1 <= k <= hi_u - lo_u - 2,
                d <= k + 1,
                best@.len() == d * 256,
                forall|e: int, q: int|
                    0 <= e < d && lo_u <= q < hi_u ==> #[trigger] best@[e * 256 + q]
                        == best_split(lum, hi_u as int, e as nat, q, q + 1),
            decreases k + 1 - d,
        {
            let mut q: usize = 0;
            while q < COLOR_DEPTH
                invariant
                    self.wf(),
                    self.table_filled(),
                    lum == self.lum@,
                    sum_seq(lum, 0, 256) <= 0x4000_0000,
                    0 <= lo_u < hi_u <= 255,
                    1 <= k <= hi_u - lo_u - 2,
                    d <= k,
                    q <= 256,
                    best@.len() == d * 256 + q,
                    forall|e: int, x: int|
                        0 <= e < d && lo_u <= x < hi_u ==> #[trigger] best@[e * 256 + x]
                            == best_split(lum, hi_u as int, e as nat, x, x + 1),
                    forall|x: int|
                        lo_u <= x < q && x < hi_u ==> #[trigger] best@[d * 256 + x] == best_split(
                            lum,
                            hi_u as int,
                            d as nat,
                            x,
                            x + 1,
                        ),
                decreases 256 - q,
            {
                let mut v: i64 = -1;
                if lo_u <= q && q < hi_u {
                    if d == 0 {
                        proof {
                            lemma_between_class_bound(lum, q + 1, hi_u as int);
                        }
                        v = self.lookup_table_h[index(q + 1, hi_u)] as i64;
                    } else {
                        let mut i: usize = hi_u - d;
                        while i > q + 1
                            invariant
                                self.wf(),
                                self.table_filled(),
                                lum == self.lum@,
                                sum_seq(lum, 0, 256) <= 0x4000_0000,
                                lo_u <= q < hi_u <= 255,
                                1 <= d <= k,
                                q + 1 <= i <= hi_u - d || (i == hi_u - d && i < q + 1),
                                best@.len() == d * 256 + q,
                                forall|e: int, x: int|
                                    0 <= e < d && lo_u <= x < hi_u ==> #[trigger] best@[e * 256
                                        + x] == best_split(lum, hi_u as int, e as nat, x, x + 1),
                                v == best_split(lum, hi_u as int, d as nat, q as int, i as int),
                                -1 <= v <= (d + 1) * SCORE_MAX,
                            decreases i,
                        {
                            i = i - 1;
                            proof {
                                lemma_between_class_bound(lum, q + 1, i as int);
                                lemma_best_split_bound(
                                    lum,
                                    hi_u as int,
                                    (d - 1) as nat,
                                    i as int,
                                    i + 1,
                                );
                                lemma_best_split_bound(lum, hi_u as int, d as nat, q as int, i as int);
                                assert(d * SCORE_MAX <= 256 * SCORE_MAX) by (nonlinear_arith)
                                    requires
                                        d <= 256,
                                ;
                            }
                            let here = self.lookup_table_h[index(q + 1, i)] as i64 + best[(d - 1)
                                * 256 + i];
                            if here >= v {
                                v = here;
                            }
                        }
                    }
                }
                best.push(v);
                q = q + 1;
            }
            d = d + 1;
        }
        let mut t: Vec<u8> = Vec::new();
        let target = best[k * 256 + lo_u];
        if target == 0 {
            return Ok(t);
        }
        let mut s: usize = lo_u;
        let mut j: usize = 0;
        while j < k
            invariant
                self.wf(),
                self.table_filled(),
                lum == self.lum@,
                0 <= lo_u < hi_u <= 255,
                1 <= k <= hi_u - lo_u - 2,
                j <= k,
                t@.len() == j,
                s == prev_stop(t@, lo_u as int, j as int),
                lo_u <= s < hi_u - (k - j),
                valid_stops(t@, j as int, lo_u as int, hi_u - (k - j)),
                best@.len() == (k + 1) * 256,
                sum_seq(lum, 0, 256) <= 0x4000_0000,
                forall|e: int, x: int|
                    0 <= e <= k && lo_u <= x < hi_u ==> #[trigger] best@[e * 256 + x]
                        == best_split(lum, hi_u as int, e as nat, x, x + 1),
                forall|q: int|
                    0 <= q < j ==> #[trigger] best_split(
                        lum,
                        hi_u as int,
                        (k - q) as nat,
                        prev_stop(t@, lo_u as int, q),
                        prev_stop(t@, lo_u as int, q) + 1,
                    ) == between_class(lum, prev_stop(t@, lo_u as int, q) + 1, t@[q] as int)
                        + best_split(lum, hi_u as int, (k - q - 1) as nat, t@[q] as int, t@[q] + 1),
                forall|q: int|
                    0 <= q < j ==> #[trigger] first_choice(
                        lum,
                        hi_u as int,
                        t@,
                        lo_u as int,
                        k as int,
                        q,
                    ),
            decreases k - j,
        {
            let dd = k - j;
            assert(dd * 256 + s < (k + 1) * 256) by (nonlinear_arith)
                requires
                    dd <= k,
                    s < 256,
            ;
            let goal = best[dd * 256 + s];
            proof {
                lemma_achieved(lum, hi_u as int, dd as nat, s as int, s + 1);
                assert forall|y: int| s < y < hi_u implies -1 <= #[trigger] best@[(dd - 1) * 256 + y]
                    <= 256 * SCORE_MAX by {
                    lemma_best_split_bound(lum, hi_u as int, (dd - 1) as nat, y, y + 1);
                    assert((dd - 1 + 1) * SCORE_MAX <= 256 * SCORE_MAX) by (nonlinear_arith)
                        requires
                            dd <= 256,
                    ;
                }
                assert forall|y: int| 0 <= y < 256 implies #[trigger] self.lookup_table_h@[(s + 1)
                    * 256 + y] <= SCORE_MAX by {
                    lemma_between_class_bound(lum, s + 1, y);
                }
                assert((dd - 1) * 256 + 256 <= (k + 1) * 256) by (nonlinear_arith)
                    requires
                        dd <= k,
                ;
            }
            let mut x: usize = s + 1;
            while (self.lookup_table_h[(s + 1) * 256 + x] as i64) + best[(dd - 1) * 256 + x] != goal
                invariant
                    self.wf(),
                    self.table_filled(),
                    lum == self.lum@,
                    0 <= lo_u <= s,
                    s + 1 <= x,
                    1 <= dd <= k,
                    s < hi_u - dd,
                    hi_u <= 255,
                    goal == best_split(lum, hi_u as int, dd as nat, s as int, s + 1),
                    best@.len() == (k + 1) * 256,
                    (dd - 1) * 256 + 256 <= (k + 1) * 256,
                    forall|y: int|
                        s < y < hi_u ==> -1 <= #[trigger] best@[(dd - 1) * 256 + y] <= 256
                            * SCORE_MAX,
                    forall|y: int|
                        0 <= y < 256 ==> #[trigger] self.lookup_table_h@[(s + 1) * 256 + y]
                            <= SCORE_MAX,
                    forall|e: int, y: int|
                        0 <= e <= k && lo_u <= y < hi_u ==> #[trigger] best@[e * 256 + y]
                            == best_split(lum, hi_u as int, e as nat, y, y + 1),
                    exists|y: int|
                        x <= y < hi_u - dd && goal == #[trigger] between_class(lum, s + 1, y)
                            + best_split(lum, hi_u as int, (dd - 1) as nat, y, y + 1),
                    forall|y: int|
                        s < y < x ==> goal != #[trigger] between_class(lum, s + 1, y) + best_split(
                            lum,
                            hi_u as int,
                            (dd - 1) as nat,
                            y,
                            y + 1,
                        ),
                decreases hi_u - x,
            {
                x = x + 1;
            }
            let ghost old_t = t@;
            t.push(x as u8);
            proof {
                assert(prev_stop(t@, lo_u as int, j + 1) == x);
                assert forall|q: int| 0 <= q < j implies prev_stop(t@, lo_u as int, q) == prev_stop(
                    old_t,
                    lo_u as int,
                    q,
                ) by {}
                assert forall|q: int| 0 <= q < j + 1 implies #[trigger] first_choice(
                    lum,
                    hi_u as int,
                    t@,
                    lo_u as int,
                    k as int,
                    q,
                ) by {
                    if q < j {
                        assert(first_choice(lum, hi_u as int, old_t, lo_u as int, k as int, q));
                        assert(t@[q] == old_t[q]);
                    }
                }
            }
            s = x;
            j = j + 1;
        }
        proof {
            lemma_stops_score_eq(lum, t@, k as int, lo_u as int, hi_u as int, 0);
        }
        Ok(t)
    }

    /// The single threshold of `multilevel_thresholding(1, ..)`, if there is one.
    pub fn auto_threshold(&mut self, level_min: Option<i32>, level_max: Option<i32>) -> (r: Result<
        Option<u8>,
        TraceError,
    >)
        requires
            old(self).wf(),
        ensures
            final(self).wf(),
            final(self).lum@ == old(self).lum@,
            final(self).pixels == old(self).pixels,
            final(self).lum_sorted_indexes@ == old(self).lum_sorted_indexes@,
            r is Err <==> normalized(level_min, level_max) is None,
            r matches Ok(o) ==> {
                let (lo, hi) = normalized(level_min, level_max)->Some_0;
                &&& o is None <==> (hi - lo - 2 < 1 || best_split(old(self).lum@, hi, 1, lo, lo + 1)
                    == 0)
                &&& o matches Some(v) ==> lo < v < hi - 1 && stops_score(
                    old(self).lum@,
                    seq![v],
                    lo,
                    hi,
                    0,
                ) == best_split(old(self).lum@, hi, 1, lo, lo + 1)
                    && is_greedy_split(old(self).lum@, seq![v], 1, lo, hi)
            },
    {
        let t = match self.multilevel_thresholding(1, level_min, level_max) {
            Ok(t) => t,
            Err(e) => {
                return Err(e);
            },
        };
        if t.len() == 0 {
            Ok(None)
        } else {
            proof {
                assert(t@ =~= seq![t@[0]]);
                assert(prev_stop(t@, normalized(level_min, level_max)->Some_0.0, 0) < t@[0]);
            }
            Ok(Some(t[0]))
        }
    }

    /// The levels of `channel` ordered by ascending pixel count, ties by ascending level.
    pub fn get_sorted_indexes(&self, channel: Mode) -> (r: &Vec<usize>)
        requires
            self.wf(),
        ensures
            r@ == self.sorted_view(channel),
    {
        match channel {
            Mode::R => &self.red_sorted_indexes,
            Mode::G => &self.green_sorted_indexes,
            Mode::B => &self.blue_sorted_indexes,
            Mode::L => &self.lum_sorted_indexes,
        }
    }
}

pub proof fn lemma_sum_zero(s: Seq<u64>, lo: int, hi: int)
    requires
        forall|i: int| lo <= i < hi ==> s[i] == 0,
    ensures
        sum_seq(s, lo, hi) == 0,
        wsum_seq(s, lo, hi) == 0,
    decreases hi - lo,
{
    if hi > lo {
        lemma_sum_zero(s, lo, hi - 1);
    }
}

/// Pixels of levels `c..=r`.
pub open spec fn level_count(lum: Seq<u64>, c: int, r: int) -> int {
    sum_seq(lum, c, r + 1)
}

/// Sum of the levels of the pixels of levels `c..=r`.
pub open spec fn level_mass(lum: Seq<u64>, c: int, r: int) -> int {
    wsum_seq(lum, c, r + 1)
}

/// Between-class score `S^2 / P` of the class of levels `c..=r` (0 when empty).
pub open spec fn between_class(lum: Seq<u64>, c: int, r: int) -> int {
    if c <= r && level_count(lum, c, r) > 0 {
        level_mass(lum, c, r) * level_mass(lum, c, r) / level_count(lum, c, r)
    } else {
        0
    }
}

/// `r` is the square root of `n`, rounded down.
pub open spec fn is_floor_sqrt(r: int, n: int) -> bool {
    0 <= r && r * r <= n && n < (r + 1) * (r + 1)
}

/// Number of nonempty levels among `lo..hi`.
pub open spec fn unique_count(s: Seq<u64>, lo: int, hi: int) -> int
    decreases hi - lo,
{
    if hi <= lo {
        0
    } else {
        unique_count(s, lo, hi - 1) + if s[hi - 1] != 0 {
            1int
        } else {
            0int
        }
    }
}

/// Largest count among `lo..hi` (0 when empty).
pub open spec fn peak_count(s: Seq<u64>, lo: int, hi: int) -> int
    decreases hi - lo,
{
    if hi <= lo {
        0
    } else {
        let p = peak_count(s, lo, hi - 1);
        if s[hi - 1] > p {
            s[hi - 1] as int
        } else {
            p
        }
    }
}

/// Sum of `(i - mean)^2 * s[i]` over `lo..hi`.
pub open spec fn deviation_sum(s: Seq<u64>, mean: int, lo: int, hi: int) -> int
    decreases hi - lo,
{
    if hi <= lo {
        0
    } else {
        deviation_sum(s, mean, lo, hi - 1) + (hi - 1 - mean) * (hi - 1 - mean) * s[hi - 1]
    }
}

/// Pixels of the levels in `lo..=hi` among the first `k` entries of `order`.
pub open spec fn cumulated(s: Seq<u64>, order: Seq<usize>, lo: int, hi: int, k: int) -> int
    decreases k,
{
    if k <= 0 {
        0
    } else {
        cumulated(s, order, lo, hi, k - 1) + if lo <= order[k - 1] <= hi {
            s[order[k - 1] as int] as int
        } else {
            0int
        }
    }
}

/// `k` is the first position of `order` in `lo..=hi` where the cumulated count reaches `half`.
pub open spec fn is_median_position(
    s: Seq<u64>,
    order: Seq<usize>,
    lo: int,
    hi: int,
    half: int,
    k: int,
) -> bool {
    &&& 0 <= k < order.len()
    &&& lo <= order[k] <= hi
    &&& cumulated(s, order, lo, hi, k + 1) >= half
    &&& forall|q: int|
        0 <= q < k && lo <= #[trigger] order[q] <= hi ==> cumulated(s, order, lo, hi, q + 1)
            < half
}

/// Count of the levels `i + j0 .. i + j0 + n` that lie in `0..=255`.
pub open spec fn window_sum(s: Seq<u64>, i: int, j0: int, n: nat) -> int
    decreases n,
{
    if n == 0 {
        0
    } else {
        let l = i + j0 + n - 1;
        window_sum(s, i, j0, (n - 1) as nat) + if 0 <= l <= 255 {
            s[l] as int
        } else {
            0int
        }
    }
}

/// Neighbourhood width used for a requested tolerance (0 or none count as 1).
pub open spec fn tolerance_of(tolerance: Option<u8>) -> int {
    match tolerance {
        Some(t) => if t == 0 {
            1
        } else {
            t as int
        },
        None => 1,
    }
}

/// `c` is the dominant level of `a..=b`: -1 when no pixel has a level in the range, else
/// the level of the range that dominates all others.
pub open spec fn is_dominant_color(s: Seq<u64>, a: int, b: int, tol: int, c: int) -> bool {
    &&& (c == -1 <==> level_count(s, a, b) == 0)
    &&& c != -1 ==> a <= c <= b && forall|i: int|
        a <= i <= b ==> #[trigger] dominates(s, tol, c, i)
}

/// Neighbourhood count of level `i`: the levels within `tol / 2` of it.
pub open spec fn window(s: Seq<u64>, i: int, tol: int) -> int {
    window_sum(s, i, -(tol / 2), (2 * (tol / 2) + 1) as nat)
}

/// Level `r` beats level `i`: larger window, then larger count, then lower level.
pub open spec fn dominates(s: Seq<u64>, tol: int, r: int, i: int) -> bool {
    window(s, r, tol) > window(s, i, tol) || (window(s, r, tol) == window(s, i, tol) && (s[r]
        > s[i] || (s[r] == s[i] && r <= i)))
}

/// A luminance range clamped into `0..=255`, or `None` when it is inverted.
pub open spec fn normalized(level_min: Option<i32>, level_max: Option<i32>) -> Option<(int, int)> {
    let lo = crate::utils::clamp_spec(
        match level_min {
            Some(v) => v as int,
            None => 0,
        },
        0,
        255,
    );
    let hi = crate::utils::clamp_spec(
        match level_max {
            Some(v) => v as int,
            None => 255,
        },
        0,
        255,
    );
    if lo <= hi {
        Some((lo, hi))
    } else {
        None
    }
}

/// Clamps a luminance range into `0..=255`; an inverted range is refused.
pub fn normalize_min_max(level_min: Option<i32>, level_max: Option<i32>) -> (r: Result<
    (u8, u8),
    TraceError,
>)
    ensures
        r matches Ok(p) ==> normalized(level_min, level_max) == Some((p.0 as int, p.1 as int)),
        r is Err ==> normalized(level_min, level_max) is None && r == Err::<(u8, u8), TraceError>(
            TraceError::InvalidParameters,
        ),
{
    let lo = crate::utils::clamp(
        match level_min {
            Some(v) => v,
            None => 0,
        },
        0,
        255,
    );
    let hi = crate::utils::clamp(
        match level_max {
            Some(v) => v,
            None => 255,
        },
        0,
        255,
    );
    if lo > hi {
        Err(TraceError::InvalidParameters)
    } else {
        Ok((lo as u8, hi as u8))
    }
}

/// Largest between-class score any class can have.
pub const SCORE_MAX: u64 = 0x4000_0000_0000;

/// Best total score of `d` further thresholds after threshold `s`, the next one at `i` or
/// above, the last class ending at `hi`; -1 when no such choice exists.
pub open spec fn best_split(lum: Seq<u64>, hi: int, d: nat, s: int, i: int) -> int
    decreases d, (if hi > i {
        hi - i
    } else {
        0
    }),
{
    if d == 0 {
        between_class(lum, s + 1, hi)
    } else if i >= hi - d {
        -1
    } else {
        let here = between_class(lum, s + 1, i) + best_split(lum, hi, (d - 1) as nat, i, i + 1);
        let later = best_split(lum, hi, d, s, i + 1);
        if here >= later {
            here
        } else {
            later
        }
    }
}

/// The threshold before position `j` (`lo` before the first).
pub open spec fn prev_stop(t: Seq<u8>, lo: int, j: int) -> int {
    if j == 0 {
        lo
    } else {
        t[j - 1] as int
    }
}

/// `t` holds `k` thresholds, strictly increasing above `lo`, each leaving room for the
/// classes after it below `hi`.
pub open spec fn valid_stops(t: Seq<u8>, k: int, lo: int, hi: int) -> bool {
    &&& t.len() == k
    &&& forall|j: int| 0 <= j < k ==> prev_stop(t, lo, j) < #[trigger] t[j] < hi - (k - j)
}

/// Total between-class score of the classes cut by `t` from position `j` on.
pub open spec fn stops_score(lum: Seq<u64>, t: Seq<u8>, lo: int, hi: int, j: int) -> int
    decreases t.len() - j,
{
    if j >= t.len() {
        between_class(lum, prev_stop(t, lo, j) + 1, hi)
    } else {
        between_class(lum, prev_stop(t, lo, j) + 1, t[j] as int) + stops_score(
            lum,
            t,
            lo,
            hi,
            j + 1,
        )
    }
}

/// `t` is what multilevel thresholding gives for `amount` thresholds in `lo..=hi`: none
/// when the range is too narrow or every choice scores 0, else the lowest (lexicographic)
/// valid choice reaching the best split.
pub open spec fn multilevel_result(lum: Seq<u64>, amount: int, lo: int, hi: int, t: Seq<u8>) -> bool {
    let k = threshold_count(amount, lo, hi);
    &&& k < 1 ==> t.len() == 0
    &&& k >= 1 && best_split(lum, hi, k as nat, lo, lo + 1) == 0 ==> t.len() == 0
    &&& k >= 1 && best_split(lum, hi, k as nat, lo, lo + 1) != 0 ==> {
        &&& valid_stops(t, k, lo, hi)
        &&& stops_score(lum, t, lo, hi, 0) == best_split(lum, hi, k as nat, lo, lo + 1)
        &&& is_greedy_split(lum, t, k, lo, hi)
    }
}

/// Number of thresholds searched for `amount` requested in `lo..=hi`.
pub open spec fn threshold_count(amount: int, lo: int, hi: int) -> int {
    if hi - lo - 2 < amount {
        hi - lo - 2
    } else {
        amount
    }
}

pub proof fn lemma_between_class_bound(lum: Seq<u64>, c: int, r: int)
    requires
        lum.len() == 256,
        sum_seq(lum, 0, 256) <= 0x4000_0000,
        0 <= c,
        r <= 255,
    ensures
        0 <= between_class(lum, c, r) <= SCORE_MAX,
{
    if c <= r && level_count(lum, c, r) > 0 {
        let p = level_count(lum, c, r);
        let m = level_mass(lum, c, r);
        lemma_sum_bounds(lum, c, r + 1);
        lemma_sum_split(lum, 0, c, 256);
        lemma_sum_split(lum, c, r + 1, 256);
        lemma_sum_bounds(lum, 0, c);
        lemma_sum_bounds(lum, r + 1, 256);
        assert(m * m <= 65025 * p * p) by (nonlinear_arith)
            requires
                0 <= m <= 255 * p,
        ;
        assert(0 <= m * m) by (nonlinear_arith);
        vstd::arithmetic::div_mod::lemma_div_is_ordered(m * m, 65025 * p * p, p);
        assert(65025 * p * p == (65025 * p) * p) by (nonlinear_arith);
        vstd::arithmetic::div_mod::lemma_div_by_multiple(65025 * p, p);
        vstd::arithmetic::div_mod::lemma_div_pos_is_pos(m * m, p);
        assert(65025 * p <= SCORE_MAX) by (nonlinear_arith)
            requires
                p <= 0x4000_0000,
        ;
    }
}

pub proof fn lemma_best_split_bound(lum: Seq<u64>, hi: int, d: nat, s: int, i: int)
    requires
        lum.len() == 256,
        sum_seq(lum, 0, 256) <= 0x4000_0000,
        0 <= s < i,
        hi <= 255,
    ensures
        -1 <= best_split(lum, hi, d, s, i) <= (d + 1) * SCORE_MAX,
    decreases d, (if hi > i {
        hi - i
    } else {
        0
    }),
{
    if d == 0 {
        lemma_between_class_bound(lum, s + 1, hi);
    } else if i < hi - d {
        lemma_between_class_bound(lum, s + 1, i);
        lemma_best_split_bound(lum, hi, (d - 1) as nat, i, i + 1);
        lemma_best_split_bound(lum, hi, d, s, i + 1);
        assert(d * SCORE_MAX + SCORE_MAX == (d + 1) * SCORE_MAX) by (nonlinear_arith);
    }
}

/// Every candidate `x` for the next threshold scores at most the best split.
pub proof fn lemma_term_le(lum: Seq<u64>, hi: int, d: nat, s: int, i: int, x: int)
    requires
        d > 0,
        i <= x < hi - d,
    ensures
        between_class(lum, s + 1, x) + best_split(lum, hi, (d - 1) as nat, x, x + 1)
            <= best_split(lum, hi, d, s, i),
    decreases x - i,
{
    if x > i {
        lemma_term_le(lum, hi, d, s, i + 1, x);
    }
}

/// The best split is reached by some candidate.
pub proof fn lemma_achieved(lum: Seq<u64>, hi: int, d: nat, s: int, i: int)
    requires
        d > 0,
        i < hi - d,
    ensures
        exists|x: int|
            i <= x < hi - d && best_split(lum, hi, d, s, i) == #[trigger] between_class(
                lum,
                s + 1,
                x,
            ) + best_split(lum, hi, (d - 1) as nat, x, x + 1),
    decreases hi - d - i,
{
    let here = between_class(lum, s + 1, i) + best_split(lum, hi, (d - 1) as nat, i, i + 1);
    if i + 1 < hi - d {
        lemma_achieved(lum, hi, d, s, i + 1);
        if here >= best_split(lum, hi, d, s, i + 1) {
            assert(best_split(lum, hi, d, s, i) == here);
        } else {
            let x = choose|x: int|
                i + 1 <= x < hi - d && best_split(lum, hi, d, s, i + 1) == #[trigger] between_class(
                    lum,
                    s + 1,
                    x,
                ) + best_split(lum, hi, (d - 1) as nat, x, x + 1);
            assert(i <= x < hi - d);
        }
    } else {
        assert(best_split(lum, hi, d, s, i + 1) == -1);
        lemma_best_split_nonneg_or_empty(lum, hi, (d - 1) as nat, i, i + 1);
        lemma_between_class_nonneg(lum, s + 1, i);
        assert(best_split(lum, hi, d, s, i) == here);
    }
}

pub proof fn lemma_best_split_nonneg_or_empty(lum: Seq<u64>, hi: int, d: nat, s: int, i: int)
    requires
        i <= hi - d,
    ensures
        best_split(lum, hi, d, s, i) >= 0 || i == hi - d && d > 0,
    decreases d, (if hi > i {
        hi - i
    } else {
        0
    }),
{
    if d == 0 {
        lemma_between_class_nonneg(lum, s + 1, hi);
    } else if i < hi - d {
        lemma_between_class_nonneg(lum, s + 1, i);
        lemma_best_split_nonneg_or_empty(lum, hi, (d - 1) as nat, i, i + 1);
    }
}

pub proof fn lemma_between_class_nonneg(lum: Seq<u64>, c: int, r: int)
    ensures
        between_class(lum, c, r) >= 0,
{
    if c <= r && level_count(lum, c, r) > 0 {
        let m = level_mass(lum, c, r);
        assert(m * m >= 0) by (nonlinear_arith);
        vstd::arithmetic::div_mod::lemma_div_pos_is_pos(m * m, level_count(lum, c, r));
    }
}

/// No valid choice of thresholds scores above the best split.
pub proof fn lemma_stops_score_le(lum: Seq<u64>, t: Seq<u8>, k: int, lo: int, hi: int, j: int)
    requires
        valid_stops(t, k, lo, hi),
        0 <= j <= k,
    ensures
        stops_score(lum, t, lo, hi, j) <= best_split(
            lum,
            hi,
            (k - j) as nat,
            prev_stop(t, lo, j),
            prev_stop(t, lo, j) + 1,
        ),
    decreases k - j,
{
    if j < k {
        lemma_stops_score_le(lum, t, k, lo, hi, j + 1);
        let p = prev_stop(t, lo, j);
        assert(p < t[j] < hi - (k - j));
        lemma_term_le(lum, hi, (k - j) as nat, p, p + 1, t[j] as int);
        assert(prev_stop(t, lo, j + 1) == t[j]);
    }
}

/// The score of thresholds that follow the best split step by step is the best split.
pub proof fn lemma_stops_score_eq(lum: Seq<u64>, t: Seq<u8>, k: int, lo: int, hi: int, j: int)
    requires
        t.len() == k,
        0 <= j <= k,
        forall|q: int|
            0 <= q < k ==> #[trigger] best_split(
                lum,
                hi,
                (k - q) as nat,
                prev_stop(t, lo, q),
                prev_stop(t, lo, q) + 1,
            ) == between_class(lum, prev_stop(t, lo, q) + 1, t[q] as int) + best_split(
                lum,
                hi,
                (k - q - 1) as nat,
                t[q] as int,
                t[q] + 1,
            ),
    ensures
        stops_score(lum, t, lo, hi, j) == best_split(
            lum,
            hi,
            (k - j) as nat,
            prev_stop(t, lo, j),
            prev_stop(t, lo, j) + 1,
        ),
    decreases k - j,
{
    if j < k {
        lemma_stops_score_eq(lum, t, k, lo, hi, j + 1);
        assert(prev_stop(t, lo, j + 1) == t[j]);
        assert(best_split(
            lum,
            hi,
            (k - j) as nat,
            prev_stop(t, lo, j),
            prev_stop(t, lo, j) + 1,
        ) == between_class(lum, prev_stop(t, lo, j) + 1, t[j] as int) + best_split(
            lum,
            hi,
            (k - j - 1) as nat,
            t[j] as int,
            t[j] + 1,
        ));
    }
}

/// Thresholds found for a range lie strictly inside it, in strictly increasing order.
pub proof fn lemma_thresholds_in_range(t: Seq<u8>, k: int, lo: int, hi: int)
    requires
        valid_stops(t, k, lo, hi),
    ensures
        forall|j: int| 0 <= j < k ==> lo < #[trigger] t[j] < hi,
        forall|i: int, j: int| 0 <= i < j < k ==> #[trigger] t[i] < #[trigger] t[j],
{
    assert forall|i: int, j: int| 0 <= i < j < k implies #[trigger] t[i] < #[trigger] t[j] by {
        lemma_stops_increasing(t, k, lo, hi, i, j);
    }
    assert forall|j: int| 0 <= j < k implies lo < #[trigger] t[j] < hi by {
        if j > 0 {
            lemma_stops_increasing(t, k, lo, hi, 0, j);
        }
    }
}

proof fn lemma_stops_increasing(t: Seq<u8>, k: int, lo: int, hi: int, i: int, j: int)
    requires
        valid_stops(t, k, lo, hi),
        0 <= i < j < k,
    ensures
        t[i] < t[j],
    decreases j - i,
{
    assert(prev_stop(t, lo, j) < t[j]);
    if j > i + 1 {
        lemma_stops_increasing(t, k, lo, hi, i, j - 1);
    }
}

/// The luminance counts add up to the number of pixels, and the statistics of the full
/// range `0..=255` count every pixel.
pub proof fn lemma_histogram_counts_all_pixels(h: &Histogram)
    requires
        h.wf(),
    ensures
        sum_seq(h.lum@, 0, 256) == h.pixels,
        level_count(h.lum@, 0, 255) == h.pixels,
        normalized(Some(0), Some(255)) == Some((0int, 255int)),
{
}

/// Threshold `q` of `t` is the lowest candidate that reaches the best split after the
/// thresholds before it.
pub open spec fn first_choice(lum: Seq<u64>, hi: int, t: Seq<u8>, lo: int, k: int, q: int) -> bool {
    forall|x: int|
        prev_stop(t, lo, q) < x < t[q] ==> best_split(
            lum,
            hi,
            (k - q) as nat,
            prev_stop(t, lo, q),
            prev_stop(t, lo, q) + 1,
        ) != #[trigger] between_class(lum, prev_stop(t, lo, q) + 1, x) + best_split(
            lum,
            hi,
            (k - q - 1) as nat,
            x,
            x + 1,
        )
}

/// `t` follows the best split threshold by threshold, always taking the lowest candidate
/// that reaches it.
pub open spec fn is_greedy_split(lum: Seq<u64>, t: Seq<u8>, k: int, lo: int, hi: int) -> bool {
    &&& t.len() == k
    &&& forall|q: int|
        0 <= q < k ==> #[trigger] best_split(
            lum,
            hi,
            (k - q) as nat,
            prev_stop(t, lo, q),
            prev_stop(t, lo, q) + 1,
        ) == between_class(lum, prev_stop(t, lo, q) + 1, t[q] as int) + best_split(
            lum,
            hi,
            (k - q - 1) as nat,
            t[q] as int,
            t[q] + 1,
        )
    &&& forall|q: int| 0 <= q < k ==> #[trigger] first_choice(lum, hi, t, lo, k, q)
}

/// Of all valid thresholds scoring the best split, the greedy ones come first in
/// lexicographic order: any valid choice below them scores less.
pub proof fn lemma_greedy_split_is_least(
    lum: Seq<u64>,
    t: Seq<u8>,
    u: Seq<u8>,
    k: int,
    lo: int,
    hi: int,
    p: int,
)
    requires
        is_greedy_split(lum, t, k, lo, hi),
        valid_stops(u, k, lo, hi),
        0 <= p < k,
        forall|q: int| 0 <= q < p ==> u[q] == t[q],
        u[p] < t[p],
    ensures
        stops_score(lum, u, lo, hi, 0) < best_split(lum, hi, k as nat, lo, lo + 1),
{
    lemma_greedy_below(lum, t, u, k, lo, hi, p, 0);
}

proof fn lemma_greedy_below(
    lum: Seq<u64>,
    t: Seq<u8>,
    u: Seq<u8>,
    k: int,
    lo: int,
    hi: int,
    p: int,
    j: int,
)
    requires
        is_greedy_split(lum, t, k, lo, hi),
        valid_stops(u, k, lo, hi),
        0 <= p < k,
        forall|q: int| 0 <= q < p ==> u[q] == t[q],
        u[p] < t[p],
        0 <= j <= p,
    ensures
        stops_score(lum, u, lo, hi, j) < best_split(
            lum,
            hi,
            (k - j) as nat,
            prev_stop(t, lo, j),
            prev_stop(t, lo, j) + 1,
        ),
    decreases p - j,
{
    assert(prev_stop(u, lo, j) == prev_stop(t, lo, j));
    let pv = prev_stop(t, lo, j);
    if j == p {
        lemma_stops_score_le(lum, u, k, lo, hi, j + 1);
        assert(prev_stop(u, lo, j + 1) == u[j]);
        assert(pv < u[j] < hi - (k - j));
        lemma_term_le(lum, hi, (k - j) as nat, pv, pv + 1, u[j] as int);
        assert(first_choice(lum, hi, t, lo, k, j));
        assert(best_split(lum, hi, (k - j) as nat, pv, pv + 1) != between_class(
            lum,
            pv + 1,
            u[j] as int,
        ) + best_split(lum, hi, (k - j - 1) as nat, u[j] as int, u[j] + 1));
    } else {
        lemma_greedy_below(lum, t, u, k, lo, hi, p, j + 1);
        assert(u[j] == t[j]);
        assert(prev_stop(t, lo, j + 1) == t[j]);
        assert(best_split(lum, hi, (k - j) as nat, pv, pv + 1) == between_class(
            lum,
            pv + 1,
            t[j] as int,
        ) + best_split(lum, hi, (k - j - 1) as nat, t[j] as int, t[j] + 1));
    }
}

/// The square root of `n`, rounded down.
pub open spec fn floor_sqrt(n: int) -> int {
    choose|r: int| #[trigger] is_floor_sqrt(r, n)
}

/// A square root rounded down is unique.
pub proof fn lemma_floor_sqrt_unique(a: int, b: int, n: int)
    requires
        is_floor_sqrt(a, n),
        is_floor_sqrt(b, n),
    ensures
        a == b,
{
    if a < b {
        assert((a + 1) * (a + 1) <= b * b) by (nonlinear_arith)
            requires
                0 <= a,
                a + 1 <= b,
        ;
    } else if b < a {
        assert((b + 1) * (b + 1) <= a * a) by (nonlinear_arith)
            requires
                0 <= b,
                b + 1 <= a,
        ;
    }
}

} // verus!
