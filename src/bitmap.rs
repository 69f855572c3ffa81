use vstd::prelude::*;
use crate::constants::{SupportedTurnpolicyValues, TraceError, MAX_SIDE};
use crate::path::{Path, Sign};
use crate::point::Point;
use crate::utils::{lum_of, luminance};

verus! {

/// Channel `c` of a pixel with alpha `a`, composited over opaque white and rounded.
pub open spec fn composite(c: int, a: int) -> int {
    (255 * (255 - a) + c * a + 127) / 255
}

/// Luminance of pixel `i` of an RGBA buffer after compositing over white.
pub open spec fn pixel_lum(rgba: Seq<u8>, i: int) -> int {
    let a = rgba[4 * i + 3] as int;
    lum_of(
        composite(rgba[4 * i] as int, a),
        composite(rgba[4 * i + 1] as int, a),
        composite(rgba[4 * i + 2] as int, a),
    )
}

/// Binarization rule: 1 marks a pixel to trace.
pub open spec fn binary_value(v: int, black_on_white: bool, threshold: int) -> u8 {
    if (black_on_white && v > threshold) || (!black_on_white && v < threshold) {
        0
    } else {
        1
    }
}

/// Offset of the pixel that lies ahead-left (or ahead-right) of a walker step.
pub open spec fn half_down(v: int) -> int {
    if v > 0 {
        0
    } else {
        -1
    }
}

pub open spec fn unit_dir(dx: int, dy: int) -> bool {
    (dx == 0 && (dy == 1 || dy == -1)) || (dy == 0 && (dx == 1 || dx == -1))
}

pub open spec fn vote(b: bool) -> int {
    if b {
        1
    } else {
        -1
    }
}

/// Size bound of any closed contour in a `w` by `h` grid: twice its number of vertices.
pub open spec fn contour_limit(w: int, h: int) -> int {
    2 * ((w + 1) * (h + 1))
}

/// Number of spans flipped over cell `(col, row)` by the first `n` points of a contour.
pub open spec fn xor_flips(pts: Seq<Point>, max_x: int, n: nat, col: int, row: int) -> int
    decreases n,
{
    if n <= 1 {
        0
    } else {
        let a = pts[n - 2];
        let b = pts[n - 1];
        let lo = if a.y < b.y {
            a.y
        } else {
            b.y
        };
        xor_flips(pts, max_x, (n - 1) as nat, col, row) + if a.y != b.y && lo == row && b.x <= col
            < max_x {
            1int
        } else {
            0int
        }
    }
}

/// A binary value flipped `k` times.
pub open spec fn flipped(v: u8, k: int) -> u8 {
    if k % 2 == 1 {
        (1 - v) as u8
    } else {
        v
    }
}

/// Sets the bounding box of a nonempty contour from its points.
fn set_bounding_box(path: &mut Path)
    requires
        old(path).pt@.len() >= 1,
    ensures
        final(path).pt@ == old(path).pt@,
        final(path).len == old(path).len,
        final(path).area == old(path).area,
        final(path).sign == old(path).sign,
        forall|j: int|
            #![trigger final(path).pt@[j]]
            0 <= j < final(path).pt@.len() ==> final(path).min_x <= final(path).pt@[j].x
                <= final(path).max_x && final(path).min_y <= final(path).pt@[j].y
                <= final(path).max_y,
        exists|j: int| 0 <= j < final(path).pt@.len() && final(path).pt@[j].x == final(path).min_x,
        exists|j: int| 0 <= j < final(path).pt@.len() && final(path).pt@[j].x == final(path).max_x,
        exists|j: int| 0 <= j < final(path).pt@.len() && final(path).pt@[j].y == final(path).min_y,
        exists|j: int| 0 <= j < final(path).pt@.len() && final(path).pt@[j].y == final(path).max_y,
{
    let n = path.pt.len();
    let mut min_x = path.pt[0].x;
    let mut max_x = path.pt[0].x;
    let mut min_y = path.pt[0].y;
    let mut max_y = path.pt[0].y;
    let ghost (mut a, mut b, mut c, mut d) = (0int, 0int, 0int, 0int);
    let mut i: usize = 1;
    while i < n
        invariant
            n == path.pt@.len(),
            1 <= i <= n,
            forall|j: int|
                #![trigger path.pt@[j]]
                0 <= j < i ==> min_x <= path.pt@[j].x <= max_x && min_y <= path.pt@[j].y <= max_y,
            0 <= a < i && path.pt@[a].x == min_x,
            0 <= b < i && path.pt@[b].x == max_x,
            0 <= c < i && path.pt@[c].y == min_y,
            0 <= d < i && path.pt@[d].y == max_y,
        decreases n - i,
    {
        let p = path.pt[i];
        if p.x < min_x {
            min_x = p.x;
            proof {
                a = i as int;
            }
        }
        if p.x > max_x {
            max_x = p.x;
            proof {
                b = i as int;
            }
        }
        if p.y < min_y {
            min_y = p.y;
            proof {
                c = i as int;
            }
        }
        if p.y > max_y {
            max_y = p.y;
            proof {
                d = i as int;
            }
        }
        i = i + 1;
    }
    path.min_x = min_x;
    path.max_x = max_x;
    path.min_y = min_y;
    path.max_y = max_y;
    assert(path.pt@[a].x == path.min_x);
    assert(path.pt@[b].x == path.max_x);
    assert(path.pt@[c].y == path.min_y);
    assert(path.pt@[d].y == path.max_y);
}

/// Composite channel `c` with alpha `a` over white.
pub(crate) fn composite_channel(c: u8, a: u8) -> (r: u8)
    ensures
        r == composite(c as int, a as int),
{
    let ai = a as u32;
    let ci = c as u32;
    assert(ci * ai <= 255 * ai <= 255 * 255) by (nonlinear_arith)
        requires
            ci <= 255,
            ai <= 255,
    ;
    let v: u32 = 255 * (255 - ai) + ci * ai + 127;
    assert(v / 255 <= 255);
    (v / 255) as u8
}

/// Luminance of pixel `i` of an RGBA buffer after compositing over white.
pub fn rgba_luminance(rgba: &Vec<u8>, i: usize) -> (l: u8)
    requires
        4 * i + 3 < rgba@.len(),
    ensures
        l == pixel_lum(rgba@, i as int),
{
    let n = rgba.len();
    let a = rgba[4 * i + 3];
    let r = composite_channel(rgba[4 * i], a);
    let g = composite_channel(rgba[4 * i + 1], a);
    let b = composite_channel(rgba[4 * i + 2], a);
    luminance(r, g, b) as u8
}

/// A grid of bytes: luminance levels, or 0/1 after binarization.
#[derive(Clone, Debug)]
pub struct Bitmap {
    pub width: usize,
    pub height: usize,
    pub size: usize,
    pub data: Vec<u8>,
}

impl Bitmap {
    pub open spec fn wf(&self) -> bool {
        &&& self.width <= MAX_SIDE
        &&& self.height <= MAX_SIDE
        &&& self.size == self.width * self.height
        &&& self.data@.len() == self.size
    }

    pub open spec fn is_binary(&self) -> bool {
        forall|i: int| 0 <= i < self.data@.len() ==> self.data@[i] <= 1
    }

    pub open spec fn in_grid(&self, x: int, y: int) -> bool {
        0 <= x < self.width && 0 <= y < self.height
    }

    /// The cell at `(x, y)` lies inside the grid and holds 1.
    pub open spec fn fg(&self, x: int, y: int) -> bool {
        self.in_grid(x, y) && self.data@[y * self.width + x] == 1
    }

    /// One ring of the majority vote around vertex `(x, y)`: the first `n` offsets.
    pub open spec fn ring_sum(&self, x: int, y: int, i: int, n: nat) -> int
        decreases n,
    {
        if n == 0 {
            0
        } else {
            let a = -i + n;
            self.ring_sum(x, y, i, (n - 1) as nat) + vote(self.fg(x + a, y + i - 1)) + vote(
                self.fg(x + i - 1, y + a - 1),
            ) + vote(self.fg(x + a - 1, y - i)) + vote(self.fg(x - i, y + a))
        }
    }

    pub open spec fn ring(&self, x: int, y: int, i: int) -> int {
        self.ring_sum(x, y, i, (2 * i - 1) as nat)
    }

    /// Weighted vote of the rings of radius 2, 3 and 4 around `(x, y)`.
    pub open spec fn majority_spec(&self, x: int, y: int) -> bool {
        if self.ring(x, y, 2) != 0 {
            self.ring(x, y, 2) > 0
        } else if self.ring(x, y, 3) != 0 {
            self.ring(x, y, 3) > 0
        } else {
            self.ring(x, y, 4) > 0
        }
    }

    /// Direction after a walker step that arrived at `(x, y)` heading `(dx, dy)`.
    #[verifier::opaque]
    pub open spec fn turn(
        &self,
        x: int,
        y: int,
        dx: int,
        dy: int,
        policy: SupportedTurnpolicyValues,
        sign: Sign,
    ) -> (int, int) {
        let l = self.fg(x + half_down(dx + dy), y + half_down(dy - dx));
        let r = self.fg(x + half_down(dx - dy), y + half_down(dy + dx));
        if r && !l {
            if policy == SupportedTurnpolicyValues::Right || (policy
                == SupportedTurnpolicyValues::Black && sign == Sign::Plus) || (policy
                == SupportedTurnpolicyValues::White && sign == Sign::Minus) || (policy
                == SupportedTurnpolicyValues::Majority && self.majority_spec(x, y)) || (policy
                == SupportedTurnpolicyValues::Minority && !self.majority_spec(x, y)) {
                (-dy, dx)
            } else {
                (dy, -dx)
            }
        } else if r {
            (-dy, dx)
        } else if !l {
            (dy, -dx)
        } else {
            (dx, dy)
        }
    }

    /// Position and direction of the contour walker after `k` steps from `(sx, sy)`.
    pub open spec fn walk(
        &self,
        sx: int,
        sy: int,
        policy: SupportedTurnpolicyValues,
        sign: Sign,
        k: nat,
    ) -> (int, int, int, int)
        decreases k,
    {
        if k == 0 {
            (sx, sy, 0, 1)
        } else {
            let s = self.walk(sx, sy, policy, sign, (k - 1) as nat);
            let d = self.turn(s.0 + s.2, s.1 + s.3, s.2, s.3, policy, sign);
            (s.0 + s.2, s.1 + s.3, d.0, d.1)
        }
    }

    /// Twice the signed area swept by the first `k` walker steps.
    pub open spec fn walk_area(
        &self,
        sx: int,
        sy: int,
        policy: SupportedTurnpolicyValues,
        sign: Sign,
        k: nat,
    ) -> int
        decreases k,
    {
        if k == 0 {
            0
        } else {
            let s = self.walk(sx, sy, policy, sign, (k - 1) as nat);
            self.walk_area(sx, sy, policy, sign, (k - 1) as nat) - (s.0 + s.2) * s.3
        }
    }

    /// The walker is back at its start after step `k`.
    pub open spec fn walk_at_start(
        &self,
        sx: int,
        sy: int,
        policy: SupportedTurnpolicyValues,
        sign: Sign,
        k: nat,
    ) -> bool {
        let s = self.walk(sx, sy, policy, sign, k);
        s.0 == sx && s.1 == sy
    }

    pub open spec fn walk_on_grid(
        &self,
        sx: int,
        sy: int,
        policy: SupportedTurnpolicyValues,
        sign: Sign,
        k: nat,
    ) -> bool {
        let s = self.walk(sx, sy, policy, sign, k);
        0 <= s.0 <= self.width && 0 <= s.1 <= self.height
    }

    /// Builds the luminance bitmap of a `width` by `height` RGBA buffer.
    pub fn new(width: usize, height: usize, rgba: &Vec<u8>) -> (r: Result<Bitmap, TraceError>)
        ensures
            r.is_ok() <==> (width <= MAX_SIDE && height <= MAX_SIDE && rgba@.len() == 4 * width
                * height),
            r.is_err() ==> r == Err::<Bitmap, TraceError>(TraceError::InvalidParameters),
            r matches Ok(bm) ==> {
                &&& bm.wf()
                &&& bm.width == width
                &&& bm.height == height
                &&& forall|i: int| 0 <= i < bm.size ==> bm.data@[i] == pixel_lum(rgba@, i)
            },
    {
        if width > MAX_SIDE || height > MAX_SIDE {
            return Err(TraceError::InvalidParameters);
        }
        assert(width * height <= MAX_SIDE * MAX_SIDE) by (nonlinear_arith)
            requires
                width <= MAX_SIDE,
                height <= MAX_SIDE,
        ;
        let size: usize = width * height;
        assert(4 * width * height == 4 * size) by (nonlinear_arith)
            requires
                size == width * height,
        ;
        if rgba.len() as u64 != 4 * (size as u64) {
            return Err(TraceError::InvalidParameters);
        }
        let mut data: Vec<u8> = Vec::with_capacity(size);
        let mut i: usize = 0;
        while i < size
            invariant
                size == width * height,
                rgba@.len() == 4 * size,
                i <= size,
                data@.len() == i,
                forall|j: int| 0 <= j < i ==> data@[j] == pixel_lum(rgba@, j),
            decreases size - i,
        {
            data.push(rgba_luminance(rgba, i));
            i = i + 1;
        }
        Ok(Bitmap { width, height, size, data })
    }

    /// Value at `(x, y)`, or `None` outside the grid.
    pub fn get_value_at(&self, x: i64, y: i64) -> (r: Option<u8>)
        requires
            self.wf(),
        ensures
            r == (if self.in_grid(x as int, y as int) {
                Some(self.data@[y * self.width + x])
            } else {
                None
            }),
    {
        match self.point_to_index(x, y) {
            Some(i) => Some(self.data[i]),
            None => None,
        }
    }

    /// The cell at `(x, y)` is foreground.
    pub fn at(&self, x: i64, y: i64) -> (r: bool)
        requires
            self.wf(),
        ensures
            r == self.fg(x as int, y as int),
    {
        match self.get_value_at(x, y) {
            Some(v) => v == 1,
            None => false,
        }
    }

    /// Grid coordinates of the cell at row-major `index`.
    pub fn index_to_point(&self, index: usize) -> (p: Point)
        requires
            self.wf(),
            index < self.size,
        ensures
            p.x == index % self.width,
            p.y == index / self.width,
            self.in_grid(p.x as int, p.y as int),
    {
        let w = self.width;
        proof {
            if w == 0 {
                assert(self.size == 0) by (nonlinear_arith)
                    requires
                        self.size == w * self.height,
                        w == 0,
                ;
            }
            vstd::arithmetic::div_mod::lemma_fundamental_div_mod(index as int, w as int);
            vstd::arithmetic::div_mod::lemma_mod_bound(index as int, w as int);
            assert(index / w < self.height) by (nonlinear_arith)
                requires
                    index < w * self.height,
                    index == w * (index / w) + index % w,
                    0 <= index % w,
                    w > 0,
            ;
        }
        Point::new((index % w) as i64, (index / w) as i64)
    }

    /// Row-major index of `(x, y)`, or `None` outside the grid.
    pub fn point_to_index(&self, x: i64, y: i64) -> (r: Option<usize>)
        requires
            self.wf(),
        ensures
            r is Some <==> self.in_grid(x as int, y as int),
            r matches Some(i) ==> i == y * self.width + x && i < self.size,
    {
        if x < 0 || y < 0 || x >= self.width as i64 || y >= self.height as i64 {
            return None;
        }
        assert(y * self.width + x < self.width * self.height) by (nonlinear_arith)
            requires
                0 <= x < self.width,
                0 <= y < self.height,
        ;
        Some((y as usize) * self.width + (x as usize))
    }

    /// The bitmap of cells to trace at `threshold`: 1 where the level is not past it.
    pub fn generate_binary_bitmap(&self, black_on_white: bool, threshold: u8) -> (bm: Bitmap)
        requires
            self.wf(),
        ensures
            bm.wf(),
            bm.is_binary(),
            bm.width == self.width,
            bm.height == self.height,
            forall|i: int|
                0 <= i < self.size ==> bm.data@[i] == binary_value(
                    self.data@[i] as int,
                    black_on_white,
                    threshold as int,
                ),
    {
        let mut data: Vec<u8> = Vec::with_capacity(self.size);
        let mut i: usize = 0;
        while i < self.size
            invariant
                self.wf(),
                i <= self.size,
                data@.len() == i,
                forall|j: int|
                    0 <= j < i ==> data@[j] == binary_value(
                        self.data@[j] as int,
                        black_on_white,
                        threshold as int,
                    ),
            decreases self.size - i,
        {
            let v = self.data[i];
            let past = if black_on_white {
                v > threshold
            } else {
                v < threshold
            };
            data.push(if past { 0u8 } else { 1u8 });
            i = i + 1;
        }
        Bitmap { width: self.width, height: self.height, size: self.size, data }
    }

    /// A copy of the bitmap.
    pub fn copy(&self) -> (r: Bitmap)
        ensures
            r.width == self.width,
            r.height == self.height,
            r.size == self.size,
            r.data@ == self.data@,
    {
        Bitmap { width: self.width, height: self.height, size: self.size, data: self.data.clone() }
    }

    pub fn get_raw_pixels(&self) -> (r: Vec<u8>)
        ensures
            r@ == self.data@,
    {
        self.data.clone()
    }

    /// First cell holding 1 at or after `point` in row-major order.
    pub fn find_next(&self, point: Point) -> (r: Option<Point>)
        requires
            self.wf(),
            self.in_grid(point.x as int, point.y as int),
        ensures
            r matches Some(p) ==> {
                &&& self.in_grid(p.x as int, p.y as int)
                &&& point.y * self.width + point.x <= p.y * self.width + p.x
                &&& self.data@[p.y * self.width + p.x] == 1
                &&& forall|j: int|
                    point.y * self.width + point.x <= j < p.y * self.width + p.x
                        ==> self.data@[j] != 1
            },
            r is None ==> forall|j: int|
                point.y * self.width + point.x <= j < self.size ==> self.data@[j] != 1,
    {
        let start = self.point_to_index(point.x, point.y).unwrap();
        let mut i: usize = start;
        while i < self.size && self.data[i] != 1
            invariant
                self.wf(),
                start <= i <= self.size,
                start == point.y * self.width + point.x,
                forall|j: int| start <= j < i ==> self.data@[j] != 1,
            decreases self.size - i,
        {
            i = i + 1;
        }
        if i < self.size {
            let p = self.index_to_point(i);
            proof {
                vstd::arithmetic::div_mod::lemma_fundamental_div_mod(i as int, self.width as int);
                assert(p.y * self.width + p.x == i) by (nonlinear_arith)
                    requires
                        p.x == i % self.width,
                        p.y == i / self.width,
                        i == self.width * (i / self.width) + i % self.width,
                ;
            }
            Some(p)
        } else {
            None
        }
    }

    /// Weighted vote over square rings around vertex `(x, y)`, used to settle ambiguous turns.
    pub fn majority(&self, x: i64, y: i64) -> (r: bool)
        requires
            self.wf(),
            0 <= x <= MAX_SIDE,
            0 <= y <= MAX_SIDE,
        ensures
            r == self.majority_spec(x as int, y as int),
    {
        let mut i: i64 = 2;
        while i < 5
            invariant
                2 <= i <= 5,
                self.wf(),
                0 <= x <= MAX_SIDE,
                0 <= y <= MAX_SIDE,
                forall|k: int| 2 <= k < i ==> self.ring(x as int, y as int, k) == 0,
            decreases 5 - i,
        {
            let mut ct: i64 = 0;
            let mut a: i64 = -i + 1;
            while a <= i - 1
                invariant
                    2 <= i < 5,
                    -i + 1 <= a <= i,
                    self.wf(),
                    0 <= x <= MAX_SIDE,
                    0 <= y <= MAX_SIDE,
                    -4 * (a + i - 1) <= ct <= 4 * (a + i - 1),
                    ct == self.ring_sum(x as int, y as int, i as int, (a + i - 1) as nat),
                decreases i - a,
            {
                let v1: i64 = if self.at(x + a, y + i - 1) { 1 } else { -1 };
                let v2: i64 = if self.at(x + i - 1, y + a - 1) { 1 } else { -1 };
                let v3: i64 = if self.at(x + a - 1, y - i) { 1 } else { -1 };
                let v4: i64 = if self.at(x - i, y + a) { 1 } else { -1 };
                ct = ct + v1 + v2 + v3 + v4;
                a = a + 1;
            }
            if ct > 0 {
                return true;
            }
            if ct < 0 {
                return false;
            }
            i = i + 1;
        }
        false
    }

    /// `p` is the contour the walk from `point` traces: its points up to the first return to
    /// `point`, all on the grid, with the area, sign and bounding box that go with them.
    pub open spec fn walked(
        &self,
        point: Point,
        turn_policy: SupportedTurnpolicyValues,
        sign: Sign,
        p: Path,
    ) -> bool {
        &&& p.len == p.pt@.len()
        &&& 1 <= p.len <= contour_limit(self.width as int, self.height as int)
        &&& p.sign == sign
        &&& forall|j: int|
            #![trigger p.pt@[j]]
            0 <= j < p.len ==> p.pt@[j].x == self.walk(
                point.x as int,
                point.y as int,
                turn_policy,
                sign,
                j as nat,
            ).0 && p.pt@[j].y == self.walk(
                point.x as int,
                point.y as int,
                turn_policy,
                sign,
                j as nat,
            ).1
        &&& self.walk_at_start(point.x as int, point.y as int, turn_policy, sign, p.len as nat)
        &&& forall|j: int|
            1 <= j < p.len ==> !#[trigger] self.walk_at_start(
                point.x as int,
                point.y as int,
                turn_policy,
                sign,
                j as nat,
            )
        &&& forall|j: int|
            0 <= j <= p.len ==> #[trigger] self.walk_on_grid(
                point.x as int,
                point.y as int,
                turn_policy,
                sign,
                j as nat,
            )
        &&& p.area == self.walk_area(point.x as int, point.y as int, turn_policy, sign, p.len as nat)
        &&& p.pt@[0] == point
        &&& forall|j: int|
            #![trigger p.pt@[j]]
            0 <= j < p.len - 1 ==> crate::point::unit_step(p.pt@[j], p.pt@[j + 1])
        &&& crate::point::unit_step(p.pt@[p.len - 1], p.pt@[0])
        &&& forall|j: int|
            #![trigger p.pt@[j]]
            0 <= j < p.len ==> 0 <= p.pt@[j].x <= self.width && 0 <= p.pt@[j].y
                <= self.height
        &&& forall|j: int|
            #![trigger p.pt@[j]]
            0 <= j < p.len ==> p.min_x <= p.pt@[j].x <= p.max_x && p.min_y <= p.pt@[j].y
                <= p.max_y
        &&& exists|j: int| 0 <= j < p.len && p.pt@[j].x == p.min_x
        &&& exists|j: int| 0 <= j < p.len && p.pt@[j].x == p.max_x
        &&& exists|j: int| 0 <= j < p.len && p.pt@[j].y == p.min_y
        &&& exists|j: int| 0 <= j < p.len && p.pt@[j].y == p.max_y
    }

    /// The walk from `point` leaves the grid before it returns, or does not return within the
    /// contour limit.
    pub open spec fn walk_fails(
        &self,
        point: Point,
        turn_policy: SupportedTurnpolicyValues,
        sign: Sign,
    ) -> bool {
        (exists|j: int|
            1 <= j <= contour_limit(self.width as int, self.height as int) && !#[trigger] self.walk_on_grid(
                point.x as int,
                point.y as int,
                turn_policy,
                sign,
                j as nat,
            ) && forall|i: int|
                1 <= i < j ==> !#[trigger] self.walk_at_start(
                    point.x as int,
                    point.y as int,
                    turn_policy,
                    sign,
                    i as nat,
                )) || (forall|i: int|
            1 <= i <= contour_limit(self.width as int, self.height as int)
                ==> !#[trigger] self.walk_at_start(
                point.x as int,
                point.y as int,
                turn_policy,
                sign,
                i as nat,
            ))
    }

    /// Direction of the walker after it arrived at `(x, y)` heading `(dirx, diry)`.
    fn next_dir(
        &self,
        x: i64,
        y: i64,
        dirx: i64,
        diry: i64,
        turn_policy: SupportedTurnpolicyValues,
        sign: Sign,
    ) -> (r: (i64, i64))
        requires
            self.wf(),
            0 <= x <= MAX_SIDE,
            0 <= y <= MAX_SIDE,
            unit_dir(dirx as int, diry as int),
        ensures
            (r.0 as int, r.1 as int) == self.turn(
                x as int,
                y as int,
                dirx as int,
                diry as int,
                turn_policy,
                sign,
            ),
            unit_dir(r.0 as int, r.1 as int),
    {
        reveal(Bitmap::turn);
        let l = self.at(
            x + if dirx + diry > 0 {
                0
            } else {
                -1
            },
            y + if diry - dirx > 0 {
                0
            } else {
                -1
            },
        );
        let rt = self.at(
            x + if dirx - diry > 0 {
                0
            } else {
                -1
            },
            y + if diry + dirx > 0 {
                0
            } else {
                -1
            },
        );
        if rt && !l {
            let right = match turn_policy {
                SupportedTurnpolicyValues::Right => true,
                SupportedTurnpolicyValues::Black => sign == Sign::Plus,
                SupportedTurnpolicyValues::White => sign == Sign::Minus,
                SupportedTurnpolicyValues::Majority => self.majority(x, y),
                SupportedTurnpolicyValues::Minority => !self.majority(x, y),
                SupportedTurnpolicyValues::Left => false,
            };
            if right {
                (-diry, dirx)
            } else {
                (diry, -dirx)
            }
        } else if rt {
            (-diry, dirx)
        } else if !l {
            (diry, -dirx)
        } else {
            (dirx, diry)
        }
    }

    proof fn lemma_walk_unit(
        &self,
        sx: int,
        sy: int,
        policy: SupportedTurnpolicyValues,
        sign: Sign,
        k: nat,
    )
        ensures
            unit_dir(self.walk(sx, sy, policy, sign, k).2, self.walk(sx, sy, policy, sign, k).3),
        decreases k,
    {
        reveal(Bitmap::turn);
        if k > 0 {
            self.lemma_walk_unit(sx, sy, policy, sign, (k - 1) as nat);
        }
    }

    /// Traces the closed contour that starts at vertex `point`, an upper-left corner of a
    /// region of 1-cells, keeping foreground on the walker's right.
    #[verifier::rlimit(100)]
    pub fn find_path(&self, point: Point, sign: Sign, turn_policy: SupportedTurnpolicyValues) -> (r:
        Result<Path, TraceError>)
        requires
            self.wf(),
            0 <= point.x <= self.width,
            0 <= point.y <= self.height,
        ensures
            r matches Ok(p) ==> self.walked(point, turn_policy, sign, p),
            r is Err ==> r == Err::<Path, TraceError>(TraceError::DegenerateContour),
            r is Err ==> self.walk_fails(point, turn_policy, sign),
    {
        let ghost sx = point.x as int;
        let ghost sy = point.y as int;
        proof {
            assert((self.width + 1) * (self.height + 1) <= (MAX_SIDE + 1) * (MAX_SIDE + 1))
                by (nonlinear_arith)
                requires
                    self.width <= MAX_SIDE,
                    self.height <= MAX_SIDE,
            ;
        }
        let limit: u64 = 2 * ((self.width as u64 + 1) * (self.height as u64 + 1));
        let w = self.width as i64;
        let h = self.height as i64;
        let mut x = point.x;
        let mut y = point.y;
        let mut dirx: i64 = 0;
        let mut diry: i64 = 1;
        let mut pt: Vec<Point> = Vec::new();
        let mut area: i64 = 0;
        let mut steps: u64 = 0;
        proof {
            assert(limit <= 2 * (MAX_SIDE + 1) * (MAX_SIDE + 1)) by (nonlinear_arith)
                requires
                    limit == 2 * ((self.width + 1) * (self.height + 1)),
                    self.width <= MAX_SIDE,
                    self.height <= MAX_SIDE,
            ;
        }
        let mut closed = false;
        while !closed
            invariant
                self.wf(),
                w == self.width,
                h == self.height,
                0 <= sx <= w,
                0 <= sy <= h,
                sx == point.x,
                sy == point.y,
                limit == contour_limit(w as int, h as int),
                limit <= 2 * (MAX_SIDE + 1) * (MAX_SIDE + 1),
                steps <= limit,
                pt@.len() == steps,
                (x as int, y as int, dirx as int, diry as int) == self.walk(
                    sx,
                    sy,
                    turn_policy,
                    sign,
                    steps as nat,
                ),
                unit_dir(dirx as int, diry as int),
                0 <= x <= w,
                0 <= y <= h,
                -(steps * MAX_SIDE) <= area <= steps * MAX_SIDE,
                area == self.walk_area(sx, sy, turn_policy, sign, steps as nat),
                closed ==> steps >= 1 && x == sx && y == sy,
                forall|j: int|
                    #![trigger pt@[j]]
                    0 <= j < steps ==> pt@[j].x == self.walk(sx, sy, turn_policy, sign, j as nat).0
                        && pt@[j].y == self.walk(sx, sy, turn_policy, sign, j as nat).1,
                forall|j: int|
                    0 <= j <= steps ==> #[trigger] self.walk_on_grid(
                        sx,
                        sy,
                        turn_policy,
                        sign,
                        j as nat,
                    ),
                forall|j: int|
                    1 <= j <= steps && !(closed && j == steps) ==> !#[trigger] self.walk_at_start(
                        sx,
                        sy,
                        turn_policy,
                        sign,
                        j as nat,
                    ),
                steps > 0 ==> pt@[0] == point,
            decreases limit - steps,
        {
            if steps >= limit {
                proof {
                    assert(steps == limit);
                    assert forall|i: int| 1 <= i <= limit implies !#[trigger] self.walk_at_start(
                        sx,
                        sy,
                        turn_policy,
                        sign,
                        i as nat,
                    ) by {}
                }
                return Err(TraceError::DegenerateContour);
            }
            let ghost old_pt = pt@;
            pt.push(Point::new(x, y));
            proof {
                assert forall|j: int| 0 <= j < old_pt.len() implies pt@[j] == old_pt[j] by {}
                assert(pt@[steps as int] == Point { x, y });
                assert((steps as int) * MAX_SIDE + MAX_SIDE == (steps + 1) * MAX_SIDE)
                    by (nonlinear_arith);
            }
            steps = steps + 1;
            let ghost old_area = area;
            assert(-((steps - 1) * MAX_SIDE) <= old_area <= (steps - 1) * MAX_SIDE);
            x = x + dirx;
            y = y + diry;
            if x < 0 || x > w || y < 0 || y > h {
                proof {
                    let j = steps as int;
                    assert(1 <= j <= contour_limit(self.width as int, self.height as int));
                    assert(!self.walk_on_grid(sx, sy, turn_policy, sign, j as nat));
                    assert(forall|i: int|
                        1 <= i < j ==> !#[trigger] self.walk_at_start(
                            sx,
                            sy,
                            turn_policy,
                            sign,
                            i as nat,
                        ));
                }
                return Err(TraceError::DegenerateContour);
            }
            assert(steps * MAX_SIDE <= 0x1_0000_0000 * 0x8000) by (nonlinear_arith)
                requires
                    steps <= limit,
                    limit <= 2 * (MAX_SIDE + 1) * (MAX_SIDE + 1),
            ;
            assert(-(steps * MAX_SIDE) <= old_area - x && old_area + x <= steps * MAX_SIDE);
            if diry == 1 {
                area = area - x;
            } else if diry == -1 {
                area = area + x;
            }
            proof {
                assert(area == old_area - x * diry) by (nonlinear_arith)
                    requires
                        diry == 1 ==> area == old_area - x,
                        diry == -1 ==> area == old_area + x,
                        diry == 0 ==> area == old_area,
                        diry == 1 || diry == -1 || diry == 0,
                ;
            }
            if x == point.x && y == point.y {
                closed = true;
            }
            let ghost pdx = dirx as int;
            let ghost pdy = diry as int;
            let d = self.next_dir(x, y, dirx, diry, turn_policy, sign);
            dirx = d.0;
            diry = d.1;
            proof {
                let prev = self.walk(sx, sy, turn_policy, sign, (steps - 1) as nat);
                assert(prev.2 == pdx && prev.3 == pdy);
                assert(self.walk(sx, sy, turn_policy, sign, steps as nat) == (
                    x as int,
                    y as int,
                    dirx as int,
                    diry as int,
                ));
                assert(self.walk_on_grid(sx, sy, turn_policy, sign, steps as nat));
                assert(self.walk_area(sx, sy, turn_policy, sign, steps as nat) == area);
                assert(!closed ==> !self.walk_at_start(sx, sy, turn_policy, sign, steps as nat));
            }
        }
        proof {
            let n = steps as int;
            assert forall|j: int| 0 <= j < n - 1 implies #[trigger] crate::point::unit_step(
                pt@[j],
                pt@[j + 1],
            ) by {
                self.lemma_walk_unit(sx, sy, turn_policy, sign, j as nat);
                assert(self.walk(sx, sy, turn_policy, sign, (j + 1) as nat).0 == self.walk(
                    sx,
                    sy,
                    turn_policy,
                    sign,
                    j as nat,
                ).0 + self.walk(sx, sy, turn_policy, sign, j as nat).2);
            }
            self.lemma_walk_unit(sx, sy, turn_policy, sign, (n - 1) as nat);
            assert(crate::point::unit_step(pt@[n - 1], pt@[0]));
            assert forall|j: int| 0 <= j < n implies 0 <= #[trigger] pt@[j].x <= w && 0 <= pt@[j].y
                <= h by {
                assert(self.walk_on_grid(sx, sy, turn_policy, sign, j as nat));
            }
        }
        let mut path = Path::default();
        path.sign = sign;
        path.len = pt.len();
        path.pt = pt;
        path.area = area;
        set_bounding_box(&mut path);
        Ok(path)
    }

    /// Flips the cells inside a closed contour, row span by row span, so that the region it
    /// bounds is not found again.
    pub fn xor_path(&mut self, path: &Path)
        requires
            old(self).wf(),
            old(self).is_binary(),
            path.len == path.pt@.len(),
            path.len >= 1,
            0 <= path.max_x <= old(self).width,
            forall|j: int|
                #![trigger path.pt@[j]]
                0 <= j < path.len ==> 0 <= path.pt@[j].x <= old(self).width && 0 <= path.pt@[j].y
                    <= old(self).height,
        ensures
            final(self).wf(),
            final(self).is_binary(),
            final(self).width == old(self).width,
            final(self).height == old(self).height,
            xored(*old(self), *final(self), *path),
    {
        let ghost orig = self.data@;
        let w = self.width;
        let len = path.len;
        let max_x = path.max_x;
        let mut y1 = path.pt[0].y;
        let mut i: usize = 1;
        while i < len
            invariant
                self.wf(),
                self.is_binary(),
                self.width == w,
                self.height == old(self).height,
                self.size == old(self).size,
                orig == old(self).data@,
                orig.len() == self.size,
                forall|k: int| 0 <= k < orig.len() ==> orig[k] <= 1,
                1 <= i <= len,
                len == path.len,
                len == path.pt@.len(),
                max_x == path.max_x,
                0 <= max_x <= w,
                y1 == path.pt@[i - 1].y,
                forall|j: int|
                    #![trigger path.pt@[j]]
                    0 <= j < path.len ==> 0 <= path.pt@[j].x <= w && 0 <= path.pt@[j].y
                        <= self.height,
                forall|k: int|
                    #![trigger self.data@[k]]
                    0 <= k < self.size ==> self.data@[k] == flipped(
                        orig[k],
                        xor_flips(
                            path.pt@,
                            max_x as int,
                            i as nat,
                            (k % (w as int)),
                            (k / (w as int)),
                        ),
                    ),
            decreases len - i,
        {
            let x = path.pt[i].x;
            let y = path.pt[i].y;
            if y != y1 {
                let min_y = if y1 < y {
                    y1
                } else {
                    y
                };
                let mut j: i64 = x;
                while j < max_x
                    invariant
                        self.wf(),
                        self.is_binary(),
                        self.width == w,
                        self.height == old(self).height,
                        self.size == old(self).size,
                        1 <= i < len,
                        len == path.pt@.len(),
                        0 <= x <= j || j == x,
                        0 <= x,
                        max_x <= w,
                        0 <= min_y < self.height,
                        x == path.pt@[i as int].x,
                        orig.len() == self.size,
                        forall|k: int| 0 <= k < orig.len() ==> orig[k] <= 1,
                        y == path.pt@[i as int].y,
                        y1 == path.pt@[i - 1].y,
                        y != y1,
                        min_y == (if y1 < y {
                            y1
                        } else {
                            y
                        }),
                        x <= j,
                        j <= max_x || j == x,
                        forall|k: int|
                            #![trigger self.data@[k]]
                            0 <= k < self.size ==> self.data@[k] == flipped(
                                orig[k],
                                xor_flips(
                                    path.pt@,
                                    max_x as int,
                                    i as nat,
                                    (k % (w as int)),
                                    (k / (w as int)),
                                ) + if (k / (w as int)) == min_y && x <= (k % (w as int)) < j {
                                    1int
                                } else {
                                    0int
                                },
                            ),
                    decreases max_x - j,
                {
                    let ghost before = self.data@;
                    assert(min_y * w + j < w * self.height) by (nonlinear_arith)
                        requires
                            0 <= j < max_x <= w,
                            0 <= min_y < self.height,
                    ;
                    let idx: usize = (min_y as usize) * w + (j as usize);
                    proof {
                        assert(idx == w * min_y + j) by (nonlinear_arith)
                            requires
                                idx == min_y * w + j,
                        ;
                        vstd::arithmetic::div_mod::lemma_fundamental_div_mod_converse(
                            idx as int,
                            w as int,
                            min_y as int,
                            j as int,
                        );
                    }
                    let v = self.data[idx];
                    self.data.set(idx, if v != 0 { 0u8 } else { 1u8 });
                    proof {
                        assert forall|k: int| 0 <= k < self.size implies #[trigger] self.data@[k]
                            == flipped(
                            orig[k],
                            xor_flips(path.pt@, max_x as int, i as nat, (k % (w as int)), (k / (w as int)))
                                + if (k / (w as int)) == min_y && x <= (k % (w as int)) < j + 1 {
                                1int
                            } else {
                                0int
                            },
                        ) by {
                            vstd::arithmetic::div_mod::lemma_fundamental_div_mod(k, w as int);
                            if k == idx {
                                let c = xor_flips(
                                    path.pt@,
                                    max_x as int,
                                    i as nat,
                                    (k % (w as int)),
                                    (k / (w as int)),
                                );
                                assert(orig[k] <= 1);
                                assert(before[k] == flipped(orig[k], c));
                                assert((c + 1) % 2 == 1 <==> c % 2 == 0);
                            }
                            if k != idx {
                                assert(self.data@[k] == before[k]);
                                if (k / (w as int)) == min_y && (k % (w as int)) == j {
                                    assert(k == w * min_y + j);
                                }
                            }
                        }
                    }
                    j = j + 1;
                }
                y1 = y;
            }
            proof {
                assert forall|k: int| 0 <= k < self.size implies #[trigger] self.data@[k]
                    == flipped(
                    orig[k],
                    xor_flips(path.pt@, max_x as int, (i + 1) as nat, (k % (w as int)), (k / (w as int))),
                ) by {}
            }
            i = i + 1;
        }
    }
}

/// Tracing dark on light at threshold `t` marks the same cells as tracing light on dark the
/// inverted image (level `255 - v`) at threshold `255 - t`.
pub proof fn lemma_polarity_mirror(v: u8, t: u8)
    ensures
        binary_value(v as int, true, t as int) == binary_value(255 - v, false, 255 - t),
{
}

/// On one image, the cells traced dark on light at threshold `t` are exactly those not
/// traced light on dark at threshold `t + 1`: the two tracings swap foreground and
/// background.
pub proof fn lemma_polarity_complement(v: u8, t: u8)
    requires
        t < 255,
    ensures
        binary_value(v as int, true, t as int) + binary_value(v as int, false, t + 1) == 1,
{
}

/// `after` is `before` with the interior of `path` flipped, as `xor_path` leaves it.
pub open spec fn xored(before: Bitmap, after: Bitmap, path: Path) -> bool {
    &&& after.width == before.width
    &&& after.height == before.height
    &&& after.size == before.size
    &&& after.data@.len() == before.data@.len()
    &&& forall|i: int|
        #![trigger after.data@[i]]
        0 <= i < before.size ==> after.data@[i] == flipped(
            before.data@[i],
            xor_flips(
                path.pt@,
                path.max_x as int,
                path.len as nat,
                (i % (before.width as int)),
                (i / (before.width as int)),
            ),
        )
}

/// Once a contour's interior is flipped, no foreground cell inside it is found again: a
/// cell inside it that still holds 1 was background (a hole) before.
pub proof fn lemma_xor_clears_inside(before: Bitmap, after: Bitmap, path: Path, i: int)
    requires
        before.wf(),
        before.is_binary(),
        xored(before, after, path),
        0 <= i < before.size,
        after.data@[i] == 1,
        xor_flips(
            path.pt@,
            path.max_x as int,
            path.len as nat,
            (i % (before.width as int)),
            (i / (before.width as int)),
        ) % 2 == 1,
    ensures
        before.data@[i] == 0,
{
    assert(before.data@[i] <= 1);
}

} // verus!
