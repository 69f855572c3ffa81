use vstd::prelude::*;
use crate::constants::MAX_SIDE;
use crate::point::Point;
use crate::utils::{cyclic, in_cyclic, modulo, sign_spec};

verus! {

/// Polarity of a contour: outer (`Plus`) or hole (`Minus`).
#[derive(PartialEq, Eq, Structural, Clone, Copy, Debug)]
pub enum Sign {
    Plus,
    Minus,
}

/// Kind of a curve segment: a corner (two straight lines) or a Bezier curve.
#[derive(PartialEq, Eq, Structural, Clone, Copy, Debug)]
pub enum Tag {
    CORNER,
    CURVE,
}

/// Prefix sums of the translated contour coordinates.
#[derive(PartialEq, Eq, Structural, Clone, Copy, Debug)]
pub struct Sum {
    pub x: i64,
    pub y: i64,
    pub xy: i64,
    pub x2: i64,
    pub y2: i64,
}

impl Sum {
    pub fn new() -> (s: Sum)
        ensures
            s == (Sum { x: 0, y: 0, xy: 0, x2: 0, y2: 0 }),
    {
        Sum { x: 0, y: 0, xy: 0, x2: 0, y2: 0 }
    }

    pub fn from(x: i64, y: i64, xy: i64, x2: i64, y2: i64) -> (s: Sum)
        ensures
            s == (Sum { x, y, xy, x2, y2 }),
    {
        Sum { x, y, xy, x2, y2 }
    }
}

/// A closed pixel-edge contour and the tables computed from it.
#[derive(Clone, Debug)]
pub struct Path {
    pub area: i64,
    pub len: usize,
    pub pt: Vec<Point>,
    pub min_x: i64,
    pub min_y: i64,
    pub max_x: i64,
    pub max_y: i64,
    /// Number of vertices of the optimal polygon.
    pub m: usize,
    /// Indices into `pt` of the optimal polygon's vertices.
    pub po: Vec<usize>,
    /// `lon[i]`: the far end of the longest straight run from `i`.
    pub lon: Vec<usize>,
    pub x0: i64,
    pub y0: i64,
    /// `sums[i]`: sums over the first `i` translated points.
    pub sums: Vec<Sum>,
    pub sign: Sign,
}

impl Path {
    pub fn default() -> (p: Path)
        ensures
            p.len == 0,
            p.pt@.len() == 0,
            p.area == 0,
            p.m == 0,
            p.po@.len() == 0,
            p.lon@.len() == 0,
            p.sums@.len() == 0,
            p.sign == Sign::Plus,
    {
        Path {
            area: 0,
            len: 0,
            pt: Vec::new(),
            min_x: 100000,
            min_y: 100000,
            max_x: -1,
            max_y: -1,
            m: 0,
            po: Vec::new(),
            lon: Vec::new(),
            x0: 0,
            y0: 0,
            sums: Vec::new(),
            sign: Sign::Plus,
        }
    }
}

/// Sums of `x`, `y`, `xy`, `x^2`, `y^2` over the first `q` points, translated by `(x0, y0)`.
pub open spec fn prefix(pt: Seq<Point>, x0: int, y0: int, q: int) -> (int, int, int, int, int)
    decreases q,
{
    if q <= 0 {
        (0, 0, 0, 0, 0)
    } else {
        let p = prefix(pt, x0, y0, q - 1);
        let x = pt[q - 1].x - x0;
        let y = pt[q - 1].y - y0;
        (p.0 + x, p.1 + y, p.2 + x * y, p.3 + x * x, p.4 + y * y)
    }
}

pub open spec fn sum_is(s: Sum, v: (int, int, int, int, int)) -> bool {
    s.x == v.0 && s.y == v.1 && s.xy == v.2 && s.x2 == v.3 && s.y2 == v.4
}

pub open spec fn pts_in_range(pt: Seq<Point>) -> bool {
    forall|j: int|
        0 <= j < pt.len() ==> 0 <= #[trigger] pt[j].x <= MAX_SIDE && 0 <= pt[j].y <= MAX_SIDE
}

/// Largest number of points of a contour these stages take.
pub const MAX_LEN: usize = 0x8000_0000;

pub proof fn lemma_prefix_bounds(pt: Seq<Point>, x0: int, y0: int, q: int)
    requires
        pts_in_range(pt),
        0 <= q <= pt.len(),
        0 <= x0 <= MAX_SIDE,
        0 <= y0 <= MAX_SIDE,
    ensures
        -q * 0x8000 <= prefix(pt, x0, y0, q).0 <= q * 0x8000,
        -q * 0x8000 <= prefix(pt, x0, y0, q).1 <= q * 0x8000,
        -q * 0x4000_0000 <= prefix(pt, x0, y0, q).2 <= q * 0x4000_0000,
        0 <= prefix(pt, x0, y0, q).3 <= q * 0x4000_0000,
        0 <= prefix(pt, x0, y0, q).4 <= q * 0x4000_0000,
    decreases q,
{
    if q > 0 {
        lemma_prefix_bounds(pt, x0, y0, q - 1);
        let x = pt[q - 1].x - x0;
        let y = pt[q - 1].y - y0;
        assert(-0x4000_0000 <= x * y <= 0x4000_0000 && 0 <= x * x <= 0x4000_0000 && 0 <= y * y
            <= 0x4000_0000) by (nonlinear_arith)
            requires
                -0x8000 <= x <= 0x8000,
                -0x8000 <= y <= 0x8000,
        ;
    }
}

impl Path {
    /// The points form a contour the polygon stages can take.
    pub open spec fn contour_ok(&self) -> bool {
        &&& self.len == self.pt@.len()
        &&& 1 <= self.len <= MAX_LEN
        &&& pts_in_range(self.pt@)
    }

    /// `sums` holds the prefix sums of the contour translated to its first point.
    pub open spec fn sums_ok(&self) -> bool {
        &&& self.contour_ok()
        &&& self.x0 == self.pt@[0].x
        &&& self.y0 == self.pt@[0].y
        &&& self.sums@.len() == self.len + 1
        &&& forall|q: int|
            0 <= q <= self.len ==> sum_is(
                #[trigger] self.sums@[q],
                prefix(self.pt@, self.x0 as int, self.y0 as int, q),
            )
    }

    /// Computes the prefix sums of the contour translated to its first point.
    pub fn calc_sums(&mut self)
        requires
            old(self).contour_ok(),
        ensures
            final(self).sums_ok(),
            final(self).pt@ == old(self).pt@,
            final(self).len == old(self).len,
            final(self).area == old(self).area,
            final(self).sign == old(self).sign,
            final(self).min_x == old(self).min_x,
            final(self).max_x == old(self).max_x,
            final(self).min_y == old(self).min_y,
            final(self).max_y == old(self).max_y,
    {
        self.x0 = self.pt[0].x;
        self.y0 = self.pt[0].y;
        let mut sums: Vec<Sum> = Vec::new();
        sums.push(Sum::new());
        let n = self.len;
        let mut i: usize = 0;
        while i < n
            invariant
                self.contour_ok(),
                n == self.len,
                self.x0 == self.pt@[0].x,
                self.y0 == self.pt@[0].y,
                i <= n,
                sums@.len() == i + 1,
                forall|q: int|
                    0 <= q <= i ==> sum_is(
                        #[trigger] sums@[q],
                        prefix(self.pt@, self.x0 as int, self.y0 as int, q),
                    ),
            decreases n - i,
        {
            proof {
                lemma_prefix_bounds(self.pt@, self.x0 as int, self.y0 as int, i as int);
                lemma_prefix_bounds(self.pt@, self.x0 as int, self.y0 as int, i + 1);
                assert((i + 1) * 0x4000_0000 <= MAX_LEN * 0x4000_0000) by (nonlinear_arith)
                    requires
                        i + 1 <= MAX_LEN,
                ;
            }
            let x = self.pt[i].x - self.x0;
            let y = self.pt[i].y - self.y0;
            let p = sums[i];
            proof {
                assert(-0x4000_0000 <= x * y <= 0x4000_0000 && 0 <= x * x <= 0x4000_0000 && 0 <= y
                    * y <= 0x4000_0000) by (nonlinear_arith)
                    requires
                        -0x8000 <= x <= 0x8000,
                        -0x8000 <= y <= 0x8000,
                ;
            }
            sums.push(Sum::from(p.x + x, p.y + y, p.xy + x * y, p.x2 + x * x, p.y2 + y * y));
            i = i + 1;
        }
        self.sums = sums;
    }

    /// The longest-straight-run table has been computed.
    pub open spec fn lon_ok(&self) -> bool {
        &&& self.lon@.len() == self.len
        &&& forall|i: int| 0 <= i < self.len ==> #[trigger] self.lon@[i] < self.len
    }

    /// Computes `lon`: for each point, the far end of the longest run of the contour from it
    /// that a straight line can follow within half a pixel (`lon_spec`: the constraint-cone
    /// walk of `run_end` from every point, then the backward and wrap-around passes).
    #[verifier::rlimit(100)]
    pub fn calc_lon(&mut self)
        requires
            old(self).sums_ok(),
        ensures
            final(self).sums_ok(),
            final(self).lon_ok(),
            lon_monotone(final(self).lon@, final(self).len as int),
            final(self).lon@ == lon_spec(old(self).pt@, old(self).len as int),
            final(self).pt@ == old(self).pt@,
            final(self).len == old(self).len,
            final(self).sums@ == old(self).sums@,
            final(self).area == old(self).area,
            final(self).sign == old(self).sign,
            final(self).x0 == old(self).x0,
            final(self).y0 == old(self).y0,
    {
        let n = self.len;
        let mut nc: Vec<usize> = vec![0usize; n];
        let mut k: usize = 0;
        let mut i: usize = n;
        while i > 0
            invariant
                self.contour_ok(),
                n == self.len,
                i <= n,
                k < n,
                k == nc_after(self.pt@, n as int, i as int),
                nc@.len() == n,
                forall|q: int| 0 <= q < n ==> #[trigger] nc@[q] < n,
                forall|q: int| i <= q < n ==> #[trigger] nc@[q] == nc_after(self.pt@, n as int, q),
            decreases i,
        {
            i = i - 1;
            if self.pt[i].x != self.pt[k].x && self.pt[i].y != self.pt[k].y {
                k = modulo(i + 1, n);
            }
            nc.set(i, k);
        }
        proof {
            assert(nc@ =~= nc_table(self.pt@, n as int));
        }
        let mut pivk: Vec<usize> = vec![0usize; n];
        let mut i: usize = n;
        while i > 0
            invariant
                self.contour_ok(),
                n == self.len,
                i <= n,
                nc@.len() == n,
                forall|q: int| 0 <= q < n ==> #[trigger] nc@[q] < n,
                pivk@.len() == n,
                forall|q: int| 0 <= q < n ==> #[trigger] pivk@[q] < n,
                nc@ == nc_table(self.pt@, n as int),
                forall|q: int|
                    i <= q < n ==> #[trigger] pivk@[q] == run_end(self.pt@, nc@, n as int, q),
            decreases i,
        {
            i = i - 1;
            let p = self.longest_run_end(&nc, i);
            pivk.set(i, p);
        }
        proof {
            assert(pivk@ =~= pivot_table(self.pt@, n as int));
        }
        let mut lon: Vec<usize> = vec![0usize; n];
        let mut j: usize = pivk[n - 1];
        lon.set(n - 1, j);
        let mut i: usize = n - 1;
        while i > 0
            invariant
                n >= 1,
                i < n,
                j < n,
                pivk@.len() == n,
                forall|q: int| 0 <= q < n ==> #[trigger] pivk@[q] < n,
                lon@.len() == n,
                forall|q: int| 0 <= q < n ==> #[trigger] lon@[q] < n,
                lon@[i as int] == j,
                j == lon_pass(pivk@, n as int, i as int),
                forall|q: int| i <= q < n ==> #[trigger] lon@[q] == lon_pass(pivk@, n as int, q),
                forall|q: int|
                    i <= q < n - 1 ==> cdist(q + 1, #[trigger] lon@[q] as int, n as int) <= cdist(
                        q + 1,
                        lon@[q + 1] as int,
                        n as int,
                    ),
            decreases i,
        {
            i = i - 1;
            let ghost jn = j;
            if cyclic(i + 1, pivk[i], j) {
                j = pivk[i];
            }
            proof {
                lemma_cyclic_dist(i + 1, pivk@[i as int] as int, jn as int, n as int);
            }
            lon.set(i, j);
        }
        let ghost lon_a = lon@;
        proof {
            assert(lon_a =~= pass_table(pivk@, n as int));
        }
        let mut i: usize = n - 1;
        let mut going = true;
        while going
            invariant
                n >= 1,
                i < n,
                j < n,
                lon@.len() == n,
                lon_a.len() == n,
                forall|q: int| 0 <= q < n ==> #[trigger] lon@[q] < n,
                j == lon_a[0],
                forall|q: int|
                    0 <= q < n - 1 ==> cdist(q + 1, #[trigger] lon_a[q] as int, n as int) <= cdist(
                        q + 1,
                        lon_a[q + 1] as int,
                        n as int,
                    ),
                going ==> forall|q: int| i < q < n ==> #[trigger] lon@[q] == j,
                going ==> forall|q: int| 0 <= q <= i ==> #[trigger] lon@[q] == lon_a[q],
                going ==> forall|x: int|
                    i < x < n ==> in_cyclic((x + 1) % (n as int), j as int, #[trigger] lon_a[x] as int),
                !going ==> lon_monotone(lon@, n as int),
                !going ==> forall|q: int|
                    0 <= q < n ==> #[trigger] lon@[q] == lon_final_at(lon_a, n as int, q),
            decreases i + if going {
                1int
            } else {
                0int
            },
        {
            proof {
                if i + 1 < n {
                    vstd::arithmetic::div_mod::lemma_small_mod((i + 1) as nat, n as nat);
                } else {
                    vstd::arithmetic::div_mod::lemma_mod_self_0(n as int);
                }
                lemma_cyclic_dist(
                    (i + 1) as int % (n as int),
                    j as int,
                    lon@[i as int] as int,
                    n as int,
                );
            }
            if cyclic(modulo(i + 1, n), j, lon[i]) {
                lon.set(i, j);
                if i == 0 {
                    going = false;
                    proof {
                        assert forall|q: int| 0 <= q < n implies #[trigger] lon@[q] == j by {}
                        assert forall|q: int| 0 <= q < n implies #[trigger] lon@[q] == lon_final_at(
                            lon_a,
                            n as int,
                            q,
                        ) by {
                            assert forall|x: int| q <= x < n implies in_cyclic(
                                (x + 1) % (n as int),
                                lon_a[0] as int,
                                #[trigger] lon_a[x] as int,
                            ) by {
                                if x == 0 {
                                } else {
                                }
                            }
                        }
                    }
                } else {
                    i = i - 1;
                }
            } else {
                going = false;
                proof {
                    assert forall|q: int| 0 <= q < n - 1 implies cdist(
                        q + 1,
                        #[trigger] lon@[q] as int,
                        n as int,
                    ) <= cdist(q + 1, lon@[q + 1] as int, n as int) by {
                        if q + 1 <= i {
                            assert(lon@[q] == lon_a[q] && lon@[q + 1] == lon_a[q + 1]);
                        } else if q == i {
                            assert(lon@[q] == lon_a[q] && lon@[q + 1] == j);
                            assert((i + 1) as int % (n as int) == i + 1);
                        } else {
                            assert(lon@[q] == j && lon@[q + 1] == j);
                        }
                    }
                    if i < n - 1 {
                        assert(lon@[n - 1] == j);
                    } else {
                        assert((i + 1) as int % (n as int) == 0);
                    }
                    assert(lon@[0] == lon_a[0]);
                    assert forall|q: int| 0 <= q < n implies #[trigger] lon@[q] == lon_final_at(
                        lon_a,
                        n as int,
                        q,
                    ) by {
                        if q <= i {
                            assert(!in_cyclic((i + 1) % (n as int), lon_a[0] as int, lon_a[i as int] as int));
                            assert(!wrap_fixed(lon_a, lon_a[0] as int, n as int, q));
                        } else {
                            assert(wrap_fixed(lon_a, lon_a[0] as int, n as int, q));
                        }
                    }
                }
            }
        }
        proof {
            assert(lon@ =~= lon_spec(self.pt@, n as int));
        }
        self.lon = lon;
    }

    /// The last point `k1` such that the contour from `i` to `k1` can still be followed by a
    /// straight line, as found by the constraint-cone walk from `i`.
    #[verifier::rlimit(100)]
    fn longest_run_end(&self, nc: &Vec<usize>, i: usize) -> (r: usize)
        requires
            self.contour_ok(),
            nc@.len() == self.len,
            forall|q: int| 0 <= q < self.len ==> #[trigger] nc@[q] < self.len,
            i < self.len,
        ensures
            r < self.len,
            r == run_end(self.pt@, nc@, self.len as int, i as int),
    {
        let n = self.len;
        let pi = self.pt[i];
        let ghost pts = self.pt@;
        let ni = modulo(i + 1, n);
        let mut ct: Vec<u64> = vec![0u64; 4];
        let d0 = ((3 + 3 * crate::utils::sign(self.pt[ni].x - pi.x) + crate::utils::sign(
            self.pt[ni].y - pi.y,
        )) / 2) as usize;
        ct.set(d0, 1);
        proof {
            assert(d0 == step_dir(pts[i as int], pts[(i + 1) % (n as int)]));
            assert(ct@ =~= seq![0u64, 0u64, 0u64, 0u64].update(d0 as int, 1u64));
        }
        let mut ca = Point::default();
        let mut cb = Point::default();
        let mut k: usize = nc[i];
        let mut k1: usize = i;
        let mut fuel: usize = n + 1;
        let mut searching = true;
        while searching && fuel > 0
            invariant
                self.contour_ok(),
                n == self.len,
                nc@.len() == n,
                forall|q: int| 0 <= q < n ==> #[trigger] nc@[q] < n,
                i < n,
                k < n,
                k1 < n,
                fuel <= n + 1,
                pi == self.pt@[i as int],
                ct@.len() == 4,
                forall|q: int| 0 <= q < 4 ==> #[trigger] ct@[q] <= n + 2 - fuel,
                -0x8001 <= ca.x <= 0x8001 && -0x8001 <= ca.y <= 0x8001,
                -0x8001 <= cb.x <= 0x8001 && -0x8001 <= cb.y <= 0x8001,
                pts == self.pt@,
                ({
                    let st = run_after(pts, nc@, n as int, i as int, (n + 1 - fuel) as nat);
                    &&& st.ct.len() == 4
                    &&& forall|q: int| 0 <= q < 4 ==> #[trigger] ct@[q] as int == st.ct[q]
                    &&& st.ax == ca.x && st.ay == ca.y && st.bx == cb.x && st.by == cb.y
                    &&& st.k == k && st.k1 == k1
                    &&& st.searching == searching
                    &&& !st.found
                }),
            decreases fuel,
        {
            let ghost t = (n + 1 - fuel) as nat;
            let ghost st = run_after(pts, nc@, n as int, i as int, t);
            fuel = fuel - 1;
            let dir = ((3 + 3 * crate::utils::sign(self.pt[k].x - self.pt[k1].x)
                + crate::utils::sign(self.pt[k].y - self.pt[k1].y)) / 2) as usize;
            let c = ct[dir];
            ct.set(dir, c + 1);
            proof {
                assert(dir == step_dir(pts[k1 as int], pts[k as int]));
                assert(run_after(pts, nc@, n as int, i as int, t + 1) == run_step(
                    pts,
                    nc@,
                    i as int,
                    st,
                ));
            }
            if ct[0] != 0 && ct[1] != 0 && ct[2] != 0 && ct[3] != 0 {
                proof {
                    lemma_run_stays(pts, nc@, n as int, i as int, t + 1, (n + 1) as nat);
                }
                return k1;
            }
            let cur = Point::new(self.pt[k].x - pi.x, self.pt[k].y - pi.y);
            if crate::point::cross_product(ca, cur) < 0 || crate::point::cross_product(cb, cur) > 0 {
                searching = false;
            } else {
                if !(-1 <= cur.x && cur.x <= 1 && -1 <= cur.y && cur.y <= 1) {
                    let off = Point::new(
                        cur.x + if cur.y >= 0 && (cur.y > 0 || cur.x < 0) {
                            1
                        } else {
                            -1
                        },
                        cur.y + if cur.x <= 0 && (cur.x < 0 || cur.y < 0) {
                            1
                        } else {
                            -1
                        },
                    );
                    if crate::point::cross_product(ca, off) >= 0 {
                        ca = off;
                    }
                    let off = Point::new(
                        cur.x + if cur.y <= 0 && (cur.y < 0 || cur.x < 0) {
                            1
                        } else {
                            -1
                        },
                        cur.y + if cur.x >= 0 && (cur.x > 0 || cur.y < 0) {
                            1
                        } else {
                            -1
                        },
                    );
                    if crate::point::cross_product(cb, off) <= 0 {
                        cb = off;
                    }
                }
                k1 = k;
                k = nc[k1];
                if !cyclic(k, i, k1) {
                    searching = false;
                }
            }
        }
        proof {
            let t = (n + 1 - fuel) as nat;
            if !searching {
                lemma_run_stays(pts, nc@, n as int, i as int, t, (n + 1) as nat);
            }
        }
        let dk = Point::new(
            crate::utils::sign(self.pt[k].x - self.pt[k1].x),
            crate::utils::sign(self.pt[k].y - self.pt[k1].y),
        );
        let cur = Point::new(self.pt[k1].x - pi.x, self.pt[k1].y - pi.y);
        let a = crate::point::cross_product(ca, cur);
        let b = crate::point::cross_product(ca, dk);
        let c = crate::point::cross_product(cb, cur);
        let d = crate::point::cross_product(cb, dk);
        proof {
            lemma_cross_bound(ca.x as int, ca.y as int, cur.x as int, cur.y as int);
            lemma_cross_bound(ca.x as int, ca.y as int, dk.x as int, dk.y as int);
            lemma_cross_bound(cb.x as int, cb.y as int, cur.x as int, cur.y as int);
            lemma_cross_bound(cb.x as int, cb.y as int, dk.x as int, dk.y as int);
        }
        let mut j: i64 = 10000000;
        if b < 0 {
            j = floor_div(a, -b);
        }
        if d > 0 {
            let j2 = floor_div(-c, d);
            if j2 < j {
                j = j2;
            }
        }
        modulo_signed(k1 as i64 + j, n)
    }

    /// Chooses the polygon with the fewest vertices, then the least total penalty, whose
    /// edges are allowed by the longest-straight-run table; `po` lists its vertices.
    pub fn best_polygon(&mut self)
        requires
            old(self).sums_ok(),
            old(self).lon_ok(),
        ensures
            final(self).sums_ok(),
            final(self).lon_ok(),
            final(self).pt@ == old(self).pt@,
            final(self).len == old(self).len,
            final(self).sums@ == old(self).sums@,
            final(self).lon@ == old(self).lon@,
            final(self).area == old(self).area,
            final(self).sign == old(self).sign,
            final(self).x0 == old(self).x0,
            final(self).y0 == old(self).y0,
            final(self).m == final(self).po@.len(),
            1 <= final(self).m <= final(self).len,
            forall|j: int| 0 <= j < final(self).m ==> #[trigger] final(self).po@[j] < final(self).len,
            final(self).po@[0] == 0,
            forall|a: int, b: int|
                0 <= a < b < final(self).m ==> #[trigger] final(self).po@[a]
                    < #[trigger] final(self).po@[b],
            polygon_edges_allowed(final(self).po@, final(self).lon@, final(self).len as int),
            is_chain(
                final(self).lon@,
                final(self).len as int,
                polygon_of(final(self).po@, final(self).len as int),
                final(self).len as int,
            ),
            forall|c: Seq<int>|
                #[trigger] is_chain(final(self).lon@, final(self).len as int, c, final(self).len as int)
                    ==> lex_le(
                    final(self).m as int,
                    chain_cost(
                        final(self).pt@,
                        final(self).len as int,
                        polygon_of(final(self).po@, final(self).len as int),
                    ),
                    c.len() - 1,
                    chain_cost(final(self).pt@, final(self).len as int, c),
                ),
    {
        let n = self.len;
        let ghost lon0 = self.lon@;
        let mut clip0: Vec<usize> = Vec::new();
        let mut i: usize = 0;
        while i < n
            invariant
                self.lon_ok(),
                n == self.len,
                n >= 1,
                n <= MAX_LEN,
                i <= n,
                clip0@.len() == i,
                lon0 == self.lon@,
                forall|q: int| 0 <= q < i ==> q < #[trigger] clip0@[q] <= n,
                forall|q: int| 0 <= q < i ==> #[trigger] clip0@[q] == clip_of(lon0, n as int, q),
            decreases n - i,
        {
            let mut c = modulo(self.lon[modulo(i + n - 1, n)] + n - 1, n);
            if c == i {
                c = modulo(i + 1, n);
            }
            clip0.push(if c <= i {
                n
            } else {
                c
            });
            i = i + 1;
        }
        let ghost pts = self.pt@;
        let mut cnt: Vec<usize> = vec![0usize; n + 1];
        let mut pen: Vec<u128> = vec![0u128; n + 1];
        let mut prev: Vec<usize> = vec![0usize; n + 1];
        proof {
            assert(rec_chain(prev@, 0) == seq![0int]);
            assert forall|c: Seq<int>| #[trigger] is_chain(lon0, n as int, c, 0) implies lex_le(
                0,
                0,
                c.len() - 1,
                chain_cost(pts, n as int, c),
            ) by {
                if c.len() >= 2 {
                    lemma_chain_step(lon0, n as int, c, 0, 0, c.len() - 1);
                }
            }
            assert(dp_entry(lon0, pts, n as int, prev@, 0, 0, 0));
        }
        let mut i: usize = 1;
        while i <= n
            invariant
                self.sums_ok(),
                pts == self.pt@,
                n == self.len,
                n <= MAX_LEN,
                n >= 1,
                1 <= i <= n + 1,
                clips_ok(clip0@, lon0, n as int),
                forall|q: int| 0 <= q < n ==> q < #[trigger] clip0@[q] <= n,
                cnt@.len() == n + 1,
                pen@.len() == n + 1,
                prev@.len() == n + 1,
                forall|q: int| 1 <= q < i ==> #[trigger] prev@[q] < q,
                forall|q: int| 0 <= q < i ==> #[trigger] cnt@[q] <= q,
                forall|q: int| 0 <= q < i ==> #[trigger] pen@[q] <= q * 0x1_0000_0000_0000_0000,
                forall|q: int| 0 <= q < i ==> #[trigger] dp_entry(lon0, pts, n as int, prev@, q, cnt@[q] as int, pen@[q] as int),
            decreases n + 1 - i,
        {
            let p0 = self.penalty3(i - 1, i);
            proof {
                assert(cnt@[i - 1] <= i - 1);
                assert(pen@[i - 1] <= (i - 1) * 0x1_0000_0000_0000_0000);
                assert((i - 1) * 0x1_0000_0000_0000_0000 + 0x1_0000_0000_0000_0000 == i
                    * 0x1_0000_0000_0000_0000) by (nonlinear_arith);
            }
            let mut bk: usize = i - 1;
            let mut bc: usize = cnt[i - 1] + 1;
            let mut bp: u128 = pen[i - 1] + p0;
            let mut k: usize = 0;
            while k < i - 1
                invariant
                    self.sums_ok(),
                    pts == self.pt@,
                    n == self.len,
                    n <= MAX_LEN,
                    1 <= i <= n,
                    k <= i - 1,
                    clips_ok(clip0@, lon0, n as int),
                    forall|q: int| 0 <= q < n ==> q < #[trigger] clip0@[q] <= n,
                    cnt@.len() == n + 1,
                    pen@.len() == n + 1,
                    forall|q: int| 0 <= q < i ==> #[trigger] cnt@[q] <= q,
                    forall|q: int| 0 <= q < i ==> #[trigger] pen@[q] <= q * 0x1_0000_0000_0000_0000,
                    bk < i,
                    edge_ok(lon0, n as int, bk as int, i as int),
                    bc == cnt@[bk as int] + 1,
                    bp == pen@[bk as int] + edge_penalty(pts, n as int, bk as int, i as int),
                    bc <= i,
                    bp <= i * 0x1_0000_0000_0000_0000,
                    lex_le(
                        bc as int,
                        bp as int,
                        cnt@[i - 1] + 1,
                        pen@[i - 1] + edge_penalty(pts, n as int, i - 1, i as int),
                    ),
                    forall|kk: int|
                        0 <= kk < k && edge_ok(lon0, n as int, kk, i as int) ==> lex_le(
                            bc as int,
                            bp as int,
                            #[trigger] cnt@[kk] + 1,
                            pen@[kk] + edge_penalty(pts, n as int, kk, i as int),
                        ),
                decreases i - 1 - k,
            {
                if clip0[k] >= i {
                    let pk = self.penalty3(k, i);
                    proof {
                        assert(cnt@[k as int] <= k);
                        assert(pen@[k as int] <= k * 0x1_0000_0000_0000_0000);
                        assert(k * 0x1_0000_0000_0000_0000 + 0x1_0000_0000_0000_0000 <= i
                            * 0x1_0000_0000_0000_0000) by (nonlinear_arith)
                            requires
                                k < i,
                        ;
                    }
                    let cc = cnt[k] + 1;
                    let cp = pen[k] + pk;
                    if cc < bc || (cc == bc && cp < bp) {
                        bk = k;
                        bc = cc;
                        bp = cp;
                    }
                }
                k = k + 1;
            }
            let ghost old_prev = prev@;
            prev.set(i, bk);
            cnt.set(i, bc);
            pen.set(i, bp);
            proof {
                assert forall|q: int| 0 <= q <= i implies #[trigger] dp_entry(
                    lon0,
                    pts,
                    n as int,
                    prev@,
                    q,
                    cnt@[q] as int,
                    pen@[q] as int,
                ) by {
                    if q < i {
                        lemma_rec_chain_frame(old_prev, prev@, q);
                        assert(dp_entry(lon0, pts, n as int, old_prev, q, cnt@[q] as int, pen@[q] as int));
                        assert forall|c: Seq<int>| #[trigger] is_chain(lon0, n as int, c, q) implies lex_le(
                            cnt@[q] as int,
                            pen@[q] as int,
                            c.len() - 1,
                            chain_cost(pts, n as int, c),
                        ) by {
                            assert(dp_entry(lon0, pts, n as int, old_prev, q, cnt@[q] as int, pen@[q] as int));
                        }
                    } else {
                        lemma_rec_chain_frame(old_prev, prev@, bk as int);
                        let rk = rec_chain(prev@, bk as int);
                        assert(dp_entry(lon0, pts, n as int, old_prev, bk as int, cnt@[bk as int] as int, pen@[bk as int] as int));
                        assert(rec_chain(prev@, i as int) == rk.push(i as int));
                        lemma_chain_push(lon0, pts, n as int, rk, bk as int, i as int);
                        assert forall|c: Seq<int>| #[trigger] is_chain(lon0, n as int, c, i as int) implies lex_le(
                            bc as int,
                            bp as int,
                            c.len() - 1,
                            chain_cost(pts, n as int, c),
                        ) by {
                            let c1 = c.drop_last();
                            let kk = c[c.len() - 2];
                            lemma_chain_prefix(lon0, pts, n as int, c);
                            assert(dp_entry(lon0, pts, n as int, old_prev, kk, cnt@[kk] as int, pen@[kk] as int));
                            assert(lex_le(cnt@[kk] as int, pen@[kk] as int, c1.len() - 1, chain_cost(pts, n as int, c1)));
                            if kk < i - 1 {
                                assert(lex_le(
                                    bc as int,
                                    bp as int,
                                    cnt@[kk] + 1,
                                    pen@[kk] + edge_penalty(pts, n as int, kk, i as int),
                                ));
                            }
                        }
                    }
                }
            }
            i = i + 1;
        }
        let ghost full = rec_chain(prev@, n as int);
        proof {
            assert(dp_entry(lon0, pts, n as int, prev@, n as int, cnt@[n as int] as int, pen@[n as int] as int));
        }
        let mut back: Vec<usize> = Vec::new();
        let mut i: usize = n;
        let ghost mut tail: Seq<int> = Seq::empty();
        while i > 0
            invariant
                prev@.len() == n + 1,
                forall|q: int| 1 <= q <= n ==> #[trigger] prev@[q] < q,
                i <= n,
                n >= 1,
                full == rec_chain(prev@, n as int),
                full == rec_chain(prev@, i as int) + tail,
                back@.len() == tail.len(),
                forall|x: int| 0 <= x < back@.len() ==> #[trigger] back@[x] as int == full[full.len() - 2 - x],
            decreases i,
        {
            let ghost old_i = i as int;
            proof {
                assert(rec_chain(prev@, old_i) == rec_chain(prev@, prev@[old_i] as int).push(old_i));
            }
            i = prev[i];
            back.push(i);
            proof {
                assert(rec_chain(prev@, old_i) + tail =~= rec_chain(prev@, i as int) + (seq![old_i] + tail));
                tail = seq![old_i] + tail;
                lemma_rec_chain_last(prev@, i as int);
            }
        }
        proof {
            assert(rec_chain(prev@, 0) == seq![0int]);
        }
        let mut po: Vec<usize> = Vec::new();
        let mut q: usize = back.len();
        while q > 0
            invariant
                q <= back@.len(),
                po@.len() == back@.len() - q,
                forall|x: int| 0 <= x < po@.len() ==> #[trigger] po@[x] == back@[back@.len() - 1 - x],
            decreases q,
        {
            q = q - 1;
            po.push(back[q]);
        }
        proof {
            assert(polygon_of(po@, n as int) =~= full);
            lemma_chain_increasing(lon0, n as int, full, n as int);
            assert forall|x: int| 0 <= x < po@.len() - 1 implies #[trigger] po@[x + 1] <= clip_of(
                lon0,
                n as int,
                po@[x] as int,
            ) by {
                assert(edge_ok(lon0, n as int, full[x], full[x + 1]));
            }
            assert(edge_ok(lon0, n as int, full[po@.len() - 1], full[po@.len() as int]));
            assert forall|a: int, b: int| 0 <= a < b < po@.len() implies #[trigger] po@[a]
                < #[trigger] po@[b] by {
                assert(full[a] < full[b]);
            }
            assert forall|j: int| 0 <= j < po@.len() implies #[trigger] po@[j] < n by {
                assert(full[j] < full[po@.len() as int]);
            }
        }
        self.m = po.len();
        self.po = po;
    }

    /// Penalty of the polygon edge from point `i` to point `j` (taken mod `len`), in 1/256
    /// units: the square root of the spread of the contour points between them across the
    /// edge, rounded down to a multiple of 1/256.
    #[verifier::rlimit(50)]
    pub fn penalty3(&self, i: usize, j: usize) -> (r: u128)
        requires
            self.sums_ok(),
            i < j <= self.len,
        ensures
            r < 0x1_0000_0000_0000_0000,
            r == edge_penalty(self.pt@, self.len as int, i as int, j as int),
            penalty_num(self.pt@, self.len as int, i as int, j as int) <= 0 ==> r == 0,
            penalty_num(self.pt@, self.len as int, i as int, j as int) > 0 ==> crate::histogram::is_floor_sqrt(
                r as int,
                penalty_num(self.pt@, self.len as int, i as int, j as int) * PENALTY_SCALE / (4
                    * penalty_k(self.len as int, i as int, j as int)),
            ),
    {
        let n = self.len;
        let ghost pt = self.pt@;
        let ghost x0 = self.x0 as int;
        let ghost y0 = self.y0 as int;
        let jj: usize = if j >= n {
            j - n
        } else {
            j
        };
        proof {
            lemma_prefix_bounds(pt, x0, y0, i as int);
            lemma_prefix_bounds(pt, x0, y0, jj + 1);
            lemma_prefix_bounds(pt, x0, y0, n as int);
            assert(n * 0x4000_0000 <= 0x40_0000_0000_0000_0000) by (nonlinear_arith)
                requires
                    n <= MAX_LEN,
            ;
            assert(n * 0x8000 <= 0x8000_0000_0000) by (nonlinear_arith)
                requires
                    n <= MAX_LEN,
            ;
            assert(i * 0x4000_0000 <= n * 0x4000_0000 && (jj + 1) * 0x4000_0000 <= n * 0x4000_0000)
                by (nonlinear_arith)
                requires
                    i <= n,
                    jj + 1 <= n,
            ;
            assert(i * 0x8000 <= n * 0x8000 && (jj + 1) * 0x8000 <= n * 0x8000) by (nonlinear_arith)
                requires
                    i <= n,
                    jj + 1 <= n,
            ;
        }
        let sa = self.sums[jj + 1];
        let sb = self.sums[i];
        let sn = self.sums[n];
        let wrap: i128 = if j >= n {
            1
        } else {
            0
        };
        let x: i128 = sa.x as i128 - sb.x as i128 + wrap * (sn.x as i128);
        let y: i128 = sa.y as i128 - sb.y as i128 + wrap * (sn.y as i128);
        let xy: i128 = sa.xy as i128 - sb.xy as i128 + wrap * (sn.xy as i128);
        let x2: i128 = sa.x2 as i128 - sb.x2 as i128 + wrap * (sn.x2 as i128);
        let y2: i128 = sa.y2 as i128 - sb.y2 as i128 + wrap * (sn.y2 as i128);
        let k: i128 = jj as i128 + 1 - i as i128 + wrap * (n as i128);
        let p: i128 = self.pt[i].x as i128 + self.pt[jj].x as i128 - 2 * (self.pt[0].x as i128);
        let q: i128 = self.pt[i].y as i128 + self.pt[jj].y as i128 - 2 * (self.pt[0].y as i128);
        let ey: i128 = self.pt[jj].x as i128 - self.pt[i].x as i128;
        let ex: i128 = -(self.pt[jj].y as i128 - self.pt[i].y as i128);
        proof {
            assert(-0x2_0000 <= p <= 0x2_0000 && -0x2_0000 <= q <= 0x2_0000);
            assert(-0x8000 <= ex <= 0x8000 && -0x8000 <= ey <= 0x8000);
            assert(1 <= k <= 0x2_0000_0000);
            assert(-0x2_0000_0000_0000 <= x <= 0x2_0000_0000_0000);
            assert(-0x2_0000_0000_0000 <= y <= 0x2_0000_0000_0000);
            assert(-0x100_0000_0000_0000_0000 <= xy <= 0x100_0000_0000_0000_0000);
            assert(-0x100_0000_0000_0000_0000 <= x2 <= 0x100_0000_0000_0000_0000);
            assert(-0x100_0000_0000_0000_0000 <= y2 <= 0x100_0000_0000_0000_0000);
            lemma_form_bounds(x as int, y as int, xy as int, x2 as int, y2 as int, k as int, p as int, q as int, ex as int, ey as int);
        }
        let fa: i128 = 4 * x2 - 4 * (x * p) + k * p * p;
        let fb: i128 = 4 * xy - 2 * (x * q) - 2 * (y * p) + k * p * q;
        let fc: i128 = 4 * y2 - 4 * (y * q) + k * q * q;
        let num: i128 = ex * ex * fa + 2 * (ex * ey * fb) + ey * ey * fc;
        proof {
            assert(sum_is(sa, prefix(pt, x0, y0, jj + 1)));
            assert(sum_is(sb, prefix(pt, x0, y0, i as int)));
            assert(sum_is(sn, prefix(pt, x0, y0, n as int)));
            assert(num == penalty_num(pt, n as int, i as int, j as int));
            assert(k == penalty_k(n as int, i as int, j as int));
        }
        if num <= 0 {
            return 0;
        }
        let d: u128 = 4 * k as u128;
        let q: u128 = (num as u128) / d;
        let rem: u128 = (num as u128) % d;
        proof {
            assert(q <= 0x10_0000_0000_0000_0000_0000_0000_0000) by (nonlinear_arith)
                requires
                    q == (num as int) / (d as int),
                    0 < num <= 0x1000_0000_0000_0000_0000_0000_0000,
                    d >= 4,
            ;
            assert(rem < d <= 0x8_0000_0000);
        }
        let v: u128 = q * (PENALTY_SCALE as u128) + (rem * (PENALTY_SCALE as u128)) / d;
        proof {
            let x = rem * PENALTY_SCALE;
            vstd::arithmetic::div_mod::lemma_fundamental_div_mod(x as int, d as int);
            vstd::arithmetic::div_mod::lemma_fundamental_div_mod(num as int, d as int);
            let y = (x as int) / (d as int);
            assert(num * PENALTY_SCALE == d * (q * PENALTY_SCALE + y) + (x as int) % (d as int))
                by (nonlinear_arith)
                requires
                    num == d * q + rem,
                    x == d * y + (x as int) % (d as int),
                    x == rem * PENALTY_SCALE,
            ;
            vstd::arithmetic::div_mod::lemma_mod_bound(x as int, d as int);
            vstd::arithmetic::div_mod::lemma_fundamental_div_mod_converse(
                num * PENALTY_SCALE,
                d as int,
                q * PENALTY_SCALE + y,
                (x as int) % (d as int),
            );
        }
        let r = crate::utils::isqrt_wide(v);
        proof {
            let w = crate::histogram::floor_sqrt(v as int);
            assert(crate::histogram::is_floor_sqrt(r as int, v as int));
            assert(crate::histogram::is_floor_sqrt(w, v as int));
            crate::histogram::lemma_floor_sqrt_unique(r as int, w, v as int);
        }
        assert(r < 0x1_0000_0000_0000_0000) by (nonlinear_arith)
            requires
                r * r <= v,
                v <= u128::MAX,
        ;
        r
    }
}

/// Penalties are counted in 1/256 units: the square root is taken of the squared penalty
/// times `256 * 256`.
pub const PENALTY_SCALE: u64 = 65536;

/// Number of contour points from `i` to `j` (taken mod `n`), both included.
pub open spec fn penalty_k(n: int, i: int, j: int) -> int {
    if j >= n {
        j - n + 1 - i + n
    } else {
        j + 1 - i
    }
}

/// `4 k` times the squared edge penalty of the polygon edge from `i` to `j` (mod `n`).
pub open spec fn penalty_num(pt: Seq<Point>, n: int, i: int, j: int) -> int {
    let jj = if j >= n {
        j - n
    } else {
        j
    };
    let w = if j >= n {
        1int
    } else {
        0int
    };
    let x0 = pt[0].x as int;
    let y0 = pt[0].y as int;
    let a = prefix(pt, x0, y0, jj + 1);
    let b = prefix(pt, x0, y0, i);
    let c = prefix(pt, x0, y0, n);
    let x = a.0 - b.0 + w * c.0;
    let y = a.1 - b.1 + w * c.1;
    let xy = a.2 - b.2 + w * c.2;
    let x2 = a.3 - b.3 + w * c.3;
    let y2 = a.4 - b.4 + w * c.4;
    let k = penalty_k(n, i, j);
    let p = pt[i].x + pt[jj].x - 2 * x0;
    let q = pt[i].y + pt[jj].y - 2 * y0;
    let ey = pt[jj].x - pt[i].x;
    let ex = -(pt[jj].y - pt[i].y);
    ex * ex * (4 * x2 - 4 * (x * p) + k * p * p) + 2 * (ex * ey * (4 * xy - 2 * (x * q) - 2 * (y
        * p) + k * p * q)) + ey * ey * (4 * y2 - 4 * (y * q) + k * q * q)
}

proof fn lemma_form_bounds(
    x: int,
    y: int,
    xy: int,
    x2: int,
    y2: int,
    k: int,
    p: int,
    q: int,
    ex: int,
    ey: int,
)
    requires
        -0x2_0000 <= p <= 0x2_0000,
        -0x2_0000 <= q <= 0x2_0000,
        -0x8000 <= ex <= 0x8000,
        -0x8000 <= ey <= 0x8000,
        1 <= k <= 0x2_0000_0000,
        -0x2_0000_0000_0000 <= x <= 0x2_0000_0000_0000,
        -0x2_0000_0000_0000 <= y <= 0x2_0000_0000_0000,
        -0x100_0000_0000_0000_0000 <= xy <= 0x100_0000_0000_0000_0000,
        -0x100_0000_0000_0000_0000 <= x2 <= 0x100_0000_0000_0000_0000,
        -0x100_0000_0000_0000_0000 <= y2 <= 0x100_0000_0000_0000_0000,
    ensures
        -0x4_0000_0000_0000_0000 <= x * p <= 0x4_0000_0000_0000_0000,
        -0x4_0000_0000_0000_0000 <= x * q <= 0x4_0000_0000_0000_0000,
        -0x4_0000_0000_0000_0000 <= y * p <= 0x4_0000_0000_0000_0000,
        -0x4_0000_0000_0000_0000 <= y * q <= 0x4_0000_0000_0000_0000,
        -0x4_0000_0000_0000 <= k * p <= 0x4_0000_0000_0000,
        -0x4_0000_0000_0000 <= k * q <= 0x4_0000_0000_0000,
        -0x8_0000_0000_0000_0000 <= k * p * p <= 0x8_0000_0000_0000_0000,
        -0x8_0000_0000_0000_0000 <= k * p * q <= 0x8_0000_0000_0000_0000,
        -0x8_0000_0000_0000_0000 <= k * q * q <= 0x8_0000_0000_0000_0000,
        0 <= ex * ex <= 0x4000_0000,
        0 <= ey * ey <= 0x4000_0000,
        -0x4000_0000 <= ex * ey <= 0x4000_0000,
        -0x1000_0000_0000_0000_0000 <= 4 * x2 - 4 * (x * p) + k * p * p
            <= 0x1000_0000_0000_0000_0000,
        -0x1000_0000_0000_0000_0000 <= 4 * xy - 2 * (x * q) - 2 * (y * p) + k * p * q
            <= 0x1000_0000_0000_0000_0000,
        -0x1000_0000_0000_0000_0000 <= 4 * y2 - 4 * (y * q) + k * q * q
            <= 0x1000_0000_0000_0000_0000,
        -0x400_0000_0000_0000_0000_0000_0000 <= ex * ex * (4 * x2 - 4 * (x * p) + k * p * p)
            <= 0x400_0000_0000_0000_0000_0000_0000,
        -0x400_0000_0000_0000_0000_0000_0000 <= ex * ey * (4 * xy - 2 * (x * q) - 2 * (y * p)
            + k * p * q) <= 0x400_0000_0000_0000_0000_0000_0000,
        -0x400_0000_0000_0000_0000_0000_0000 <= ey * ey * (4 * y2 - 4 * (y * q) + k * q * q)
            <= 0x400_0000_0000_0000_0000_0000_0000,
{
    lemma_mul_abs(x, p, 0x2_0000_0000_0000, 0x2_0000);
    lemma_mul_abs(x, q, 0x2_0000_0000_0000, 0x2_0000);
    lemma_mul_abs(y, p, 0x2_0000_0000_0000, 0x2_0000);
    lemma_mul_abs(y, q, 0x2_0000_0000_0000, 0x2_0000);
    lemma_mul_abs(k, p, 0x2_0000_0000, 0x2_0000);
    lemma_mul_abs(k, q, 0x2_0000_0000, 0x2_0000);
    lemma_mul_abs(k * p, p, 0x4_0000_0000_0000, 0x2_0000);
    lemma_mul_abs(k * p, q, 0x4_0000_0000_0000, 0x2_0000);
    lemma_mul_abs(k * q, q, 0x4_0000_0000_0000, 0x2_0000);
    lemma_mul_abs(ex, ex, 0x8000, 0x8000);
    lemma_mul_abs(ey, ey, 0x8000, 0x8000);
    lemma_mul_abs(ex, ey, 0x8000, 0x8000);
    assert(ex * ex >= 0 && ey * ey >= 0) by (nonlinear_arith);
    lemma_mul_abs(ex * ex, 4 * x2 - 4 * (x * p) + k * p * p, 0x4000_0000, 0x1000_0000_0000_0000_0000);
    lemma_mul_abs(
        ex * ey,
        4 * xy - 2 * (x * q) - 2 * (y * p) + k * p * q,
        0x4000_0000,
        0x1000_0000_0000_0000_0000,
    );
    lemma_mul_abs(ey * ey, 4 * y2 - 4 * (y * q) + k * q * q, 0x4000_0000, 0x1000_0000_0000_0000_0000);
}

proof fn lemma_mul_abs(a: int, b: int, ma: int, mb: int)
    requires
        -ma <= a <= ma,
        -mb <= b <= mb,
    ensures
        -(ma * mb) <= a * b <= ma * mb,
{
    assert(-(ma * mb) <= a * b <= ma * mb) by (nonlinear_arith)
        requires
            -ma <= a <= ma,
            -mb <= b <= mb,
    ;
}

proof fn lemma_cross_bound(ux: int, uy: int, vx: int, vy: int)
    requires
        -0x8001 <= ux <= 0x8001,
        -0x8001 <= uy <= 0x8001,
        -0x8001 <= vx <= 0x8001,
        -0x8001 <= vy <= 0x8001,
    ensures
        -0x4000_0000_0000 <= crate::point::cross_spec(ux, uy, vx, vy) <= 0x4000_0000_0000,
{
    lemma_mul_abs(ux, vy, 0x8001, 0x8001);
    lemma_mul_abs(uy, vx, 0x8001, 0x8001);
}

/// `a / m` rounded toward negative infinity.
fn floor_div(a: i64, m: i64) -> (r: i64)
    requires
        0 < m <= 0x4000_0000_0000,
        -0x4000_0000_0000 <= a <= 0x4000_0000_0000,
    ensures
        r == (a as int) / (m as int),
        -0x4000_0000_0001 <= r <= 0x4000_0000_0000,
{
    if a >= 0 {
        assert(0 <= a / m <= a) by (nonlinear_arith)
            requires
                a >= 0,
                m > 0,
        ;
        a / m
    } else {
        let q = (-a + m - 1) / m;
        assert(0 <= q <= -a + 1) by (nonlinear_arith)
            requires
                q == (-(a as int) + m - 1) / (m as int),
                a < 0,
                m > 0,
        ;
        proof {
            assert(-q == (a as int) / (m as int)) by (nonlinear_arith)
                requires
                    q == (-(a as int) + m - 1) / (m as int),
                    a < 0,
                    m > 0,
            ;
        }
        -q
    }
}

/// `a` reduced into `0..n`.
fn modulo_signed(a: i64, n: usize) -> (r: usize)
    requires
        n > 0,
        -0x1_0000_0000_0000 <= a <= 0x1_0000_0000_0000,
    ensures
        r < n,
        r == (a as int) % (n as int),
{
    if a >= 0 {
        let r = (a as u64) % (n as u64);
        r as usize
    } else {
        let r = ((-a) as u64) % (n as u64);
        proof {
            let na = -(a as int);
            let q = na / (n as int);
            vstd::arithmetic::div_mod::lemma_fundamental_div_mod(na, n as int);
            vstd::arithmetic::div_mod::lemma_mod_bound(na, n as int);
            assert(r == na % (n as int));
            if r == 0 {
                assert(a == (n as int) * (-q) + 0) by (nonlinear_arith)
                    requires
                        na == (n as int) * q + 0,
                        na == -(a as int),
                ;
                vstd::arithmetic::div_mod::lemma_fundamental_div_mod_converse(
                    a as int,
                    n as int,
                    -q,
                    0,
                );
            } else {
                assert(a == (n as int) * (-q - 1) + (n - r)) by (nonlinear_arith)
                    requires
                        na == (n as int) * q + r,
                        na == -(a as int),
                ;
                vstd::arithmetic::div_mod::lemma_fundamental_div_mod_converse(
                    a as int,
                    n as int,
                    -q - 1,
                    n - r,
                );
            }
        }
        if r == 0 {
            0
        } else {
            n - (r as usize)
        }
    }
}

/// Steps forward from `a` to `b` around a cycle of `n` points.
pub open spec fn cdist(a: int, b: int, n: int) -> int {
    if b >= a {
        b - a
    } else {
        b - a + n
    }
}

/// The ends `lon[i]` never move backwards as `i` moves forward: counted from `i + 1`, the end
/// for `i` comes no later than the end for `i + 1` (cyclically, `n - 1` followed by `0`).
pub open spec fn lon_monotone(lon: Seq<usize>, n: int) -> bool {
    &&& forall|q: int|
        0 <= q < n - 1 ==> cdist(q + 1, #[trigger] lon[q] as int, n) <= cdist(q + 1, lon[q + 1] as int, n)
    &&& n >= 1 ==> cdist(0, lon[n - 1] as int, n) <= cdist(0, lon[0] as int, n)
}

/// `b` lies in the cyclic interval `[a, c)` exactly when it is fewer steps from `a` than `c`.
pub proof fn lemma_cyclic_dist(a: int, b: int, c: int, n: int)
    requires
        0 <= a < n,
        0 <= b < n,
        0 <= c < n,
    ensures
        in_cyclic(a, b, c) <==> cdist(a, b, n) < cdist(a, c, n),
{
}

/// How far an edge of the polygon may reach from point `i`: one short of where the straight
/// run of the point before `i` ends (the next point at least), or `n` when that wraps.
pub open spec fn clip_of(lon: Seq<usize>, n: int, i: int) -> int {
    let c0 = (lon[(i + n - 1) % n] + n - 1) % n;
    let c = if c0 == i {
        (i + 1) % n
    } else {
        c0
    };
    if c <= i {
        n
    } else {
        c
    }
}

pub open spec fn clips_ok(clip0: Seq<usize>, lon: Seq<usize>, n: int) -> bool {
    &&& clip0.len() == n
    &&& forall|q: int| 0 <= q < n ==> #[trigger] clip0[q] == clip_of(lon, n, q)
}

/// Every edge of the polygon `po`, the closing one up to `n` included, stays within what the
/// straight runs allow.
pub open spec fn polygon_edges_allowed(po: Seq<usize>, lon: Seq<usize>, n: int) -> bool {
    &&& forall|x: int| 0 <= x < po.len() - 1 ==> #[trigger] po[x + 1] <= clip_of(lon, n, po[x] as int)
    &&& po.len() >= 1 ==> n <= clip_of(lon, n, po[po.len() - 1] as int)
}

/// State of the walk that looks for the longest straight run from a point: the direction
/// counts, the two constraint vectors of the cone, the next point `k` and the last
/// accepted point `k1`.
pub struct RunState {
    pub ct: Seq<int>,
    pub ax: int,
    pub ay: int,
    pub bx: int,
    pub by: int,
    pub k: int,
    pub k1: int,
    pub searching: bool,
    pub found: bool,
}

/// Index (0..=3) of the direction from `p` to `q`.
pub open spec fn step_dir(p: Point, q: Point) -> int {
    let v = 3 + 3 * sign_spec(q.x - p.x) + sign_spec(q.y - p.y);
    if v < 0 {
        0
    } else {
        v / 2
    }
}

pub open spec fn run_init(pt: Seq<Point>, nc: Seq<usize>, n: int, i: int) -> RunState {
    RunState {
        ct: seq![0int, 0int, 0int, 0int].update(step_dir(pt[i], pt[(i + 1) % n]), 1),
        ax: 0,
        ay: 0,
        bx: 0,
        by: 0,
        k: nc[i] as int,
        k1: i,
        searching: true,
        found: false,
    }
}

/// One step of the walk: count the direction to `k`; stop with `k1` once all four
/// directions occur, stop when `k` leaves the cone, else narrow the cone and move on.
pub open spec fn run_step(pt: Seq<Point>, nc: Seq<usize>, i: int, s: RunState) -> RunState {
    let d = step_dir(pt[s.k1], pt[s.k]);
    let ct = s.ct.update(d, s.ct[d] + 1);
    if ct[0] != 0 && ct[1] != 0 && ct[2] != 0 && ct[3] != 0 {
        RunState { ct, searching: false, found: true, ..s }
    } else {
        let cx = pt[s.k].x - pt[i].x;
        let cy = pt[s.k].y - pt[i].y;
        if crate::point::cross_spec(s.ax, s.ay, cx, cy) < 0 || crate::point::cross_spec(
            s.bx,
            s.by,
            cx,
            cy,
        ) > 0 {
            RunState { ct, searching: false, ..s }
        } else {
            let far = !(-1 <= cx <= 1 && -1 <= cy <= 1);
            let o1x = cx + if cy >= 0 && (cy > 0 || cx < 0) {
                1int
            } else {
                -1int
            };
            let o1y = cy + if cx <= 0 && (cx < 0 || cy < 0) {
                1int
            } else {
                -1int
            };
            let o2x = cx + if cy <= 0 && (cy < 0 || cx < 0) {
                1int
            } else {
                -1int
            };
            let o2y = cy + if cx >= 0 && (cx > 0 || cy < 0) {
                1int
            } else {
                -1int
            };
            let take_a = far && crate::point::cross_spec(s.ax, s.ay, o1x, o1y) >= 0;
            let take_b = far && crate::point::cross_spec(s.bx, s.by, o2x, o2y) <= 0;
            let k1 = s.k;
            let k = nc[k1] as int;
            RunState {
                ct,
                ax: if take_a {
                    o1x
                } else {
                    s.ax
                },
                ay: if take_a {
                    o1y
                } else {
                    s.ay
                },
                bx: if take_b {
                    o2x
                } else {
                    s.bx
                },
                by: if take_b {
                    o2y
                } else {
                    s.by
                },
                k,
                k1,
                searching: in_cyclic(k, i, k1),
                found: false,
            }
        }
    }
}

/// The walk after `t` steps (it stays put once it stops).
pub open spec fn run_after(pt: Seq<Point>, nc: Seq<usize>, n: int, i: int, t: nat) -> RunState
    decreases t,
{
    if t == 0 {
        run_init(pt, nc, n, i)
    } else {
        let s = run_after(pt, nc, n, i, (t - 1) as nat);
        if s.searching {
            run_step(pt, nc, i, s)
        } else {
            s
        }
    }
}

/// Far end of the straight run from `i`: the last point before a fourth direction appears,
/// else how far along the last segment the cone still allows, counted from `k1`.
pub open spec fn run_end(pt: Seq<Point>, nc: Seq<usize>, n: int, i: int) -> int {
    let s = run_after(pt, nc, n, i, (n + 1) as nat);
    if s.found {
        s.k1
    } else {
        let dkx = sign_spec(pt[s.k].x - pt[s.k1].x);
        let dky = sign_spec(pt[s.k].y - pt[s.k1].y);
        let cx = pt[s.k1].x - pt[i].x;
        let cy = pt[s.k1].y - pt[i].y;
        let a = crate::point::cross_spec(s.ax, s.ay, cx, cy);
        let b = crate::point::cross_spec(s.ax, s.ay, dkx, dky);
        let c = crate::point::cross_spec(s.bx, s.by, cx, cy);
        let d = crate::point::cross_spec(s.bx, s.by, dkx, dky);
        let j1 = if b < 0 {
            a / (-b)
        } else {
            10000000
        };
        let j = if d > 0 && (-c) / d < j1 {
            (-c) / d
        } else {
            j1
        };
        (s.k1 + j) % n
    }
}

proof fn lemma_run_stays(pt: Seq<Point>, nc: Seq<usize>, n: int, i: int, t: nat, u: nat)
    requires
        t <= u,
        !run_after(pt, nc, n, i, t).searching,
    ensures
        run_after(pt, nc, n, i, u) == run_after(pt, nc, n, i, t),
    decreases u - t,
{
    if u > t {
        lemma_run_stays(pt, nc, n, i, t, (u - 1) as nat);
    }
}

/// The next point after the last turn seen when scanning back from `n - 1` to `i`: for
/// each point, the point where its straight segment ends.
pub open spec fn nc_after(pt: Seq<Point>, n: int, i: int) -> int
    decreases n - i,
{
    if i >= n {
        0
    } else {
        let k = nc_after(pt, n, i + 1);
        if pt[i].x != pt[k].x && pt[i].y != pt[k].y {
            (i + 1) % n
        } else {
            k
        }
    }
}

pub open spec fn nc_table(pt: Seq<Point>, n: int) -> Seq<usize> {
    Seq::new(n as nat, |q: int| nc_after(pt, n, q) as usize)
}

/// For each point, the far end of its straight run before smoothing.
pub open spec fn pivot_table(pt: Seq<Point>, n: int) -> Seq<usize> {
    Seq::new(n as nat, |q: int| run_end(pt, nc_table(pt, n), n, q) as usize)
}

/// The run ends after the backward pass: each point takes its own end when it lies before
/// the end chosen for the next point, else that one.
pub open spec fn lon_pass(piv: Seq<usize>, n: int, i: int) -> int
    decreases n - i,
{
    if i >= n - 1 {
        piv[n - 1] as int
    } else {
        let j = lon_pass(piv, n, i + 1);
        if in_cyclic(i + 1, piv[i] as int, j) {
            piv[i] as int
        } else {
            j
        }
    }
}

pub open spec fn pass_table(piv: Seq<usize>, n: int) -> Seq<usize> {
    Seq::new(n as nat, |q: int| lon_pass(piv, n, q) as usize)
}

/// From point `q` on, every run end wraps past the end chosen for point 0.
pub open spec fn wrap_fixed(la: Seq<usize>, j0: int, n: int, q: int) -> bool {
    forall|x: int| q <= x < n ==> in_cyclic((x + 1) % n, j0, #[trigger] la[x] as int)
}

/// The run end of point `q` after the wrap-around pass.
pub open spec fn lon_final_at(la: Seq<usize>, n: int, q: int) -> usize {
    if wrap_fixed(la, la[0] as int, n, q) {
        la[0]
    } else {
        la[q]
    }
}

/// The longest-straight-run table of the contour `pt` of `n` points.
pub open spec fn lon_spec(pt: Seq<Point>, n: int) -> Seq<usize> {
    let la = pass_table(pivot_table(pt, n), n);
    Seq::new(n as nat, |q: int| lon_final_at(la, n, q))
}

/// Penalty of the polygon edge from point `i` to point `j` (mod `n`), in 1/256 units.
pub open spec fn edge_penalty(pt: Seq<Point>, n: int, i: int, j: int) -> int {
    let num = penalty_num(pt, n, i, j);
    if num <= 0 {
        0
    } else {
        crate::histogram::floor_sqrt(num * PENALTY_SCALE / (4 * penalty_k(n, i, j)))
    }
}

/// An edge from point `k` to point `i` is allowed by the straight runs.
pub open spec fn edge_ok(lon: Seq<usize>, n: int, k: int, i: int) -> bool {
    0 <= k < i && i <= clip_of(lon, n, k)
}

/// `c` is a chain of allowed edges from point 0 to point `i`.
pub open spec fn is_chain(lon: Seq<usize>, n: int, c: Seq<int>, i: int) -> bool {
    &&& c.len() >= 1
    &&& c[0] == 0
    &&& c[c.len() - 1] == i
    &&& forall|x: int| 0 <= x < c.len() - 1 ==> edge_ok(lon, n, #[trigger] c[x], c[x + 1])
}

/// Sum of the edge penalties along the chain `c`.
pub open spec fn chain_cost(pt: Seq<Point>, n: int, c: Seq<int>) -> int
    decreases c.len(),
{
    if c.len() <= 1 {
        0
    } else {
        chain_cost(pt, n, c.drop_last()) + edge_penalty(pt, n, c[c.len() - 2], c[c.len() - 1])
    }
}

/// Fewer edges, or as many and no more penalty.
pub open spec fn lex_le(a_cnt: int, a_pen: int, b_cnt: int, b_pen: int) -> bool {
    a_cnt < b_cnt || (a_cnt == b_cnt && a_pen <= b_pen)
}

/// The polygon `po` closed at point `n`, as a chain.
pub open spec fn polygon_of(po: Seq<usize>, n: int) -> Seq<int> {
    po.map_values(|v: usize| v as int).push(n)
}

/// The chain that the predecessor table `prev` leads back from `q` to 0.
pub open spec fn rec_chain(prev: Seq<usize>, q: int) -> Seq<int>
    decreases q,
{
    if q <= 0 {
        seq![0int]
    } else if 0 <= prev[q] < q {
        rec_chain(prev, prev[q] as int).push(q)
    } else {
        seq![q]
    }
}

/// Entry `q` of the polygon search: `cnt` edges and penalty `pen` along the chain kept for
/// `q`, and no chain to `q` does better.
pub open spec fn dp_entry(
    lon: Seq<usize>,
    pt: Seq<Point>,
    n: int,
    prev: Seq<usize>,
    q: int,
    cnt: int,
    pen: int,
) -> bool {
    &&& is_chain(lon, n, rec_chain(prev, q), q)
    &&& cnt == rec_chain(prev, q).len() - 1
    &&& pen == chain_cost(pt, n, rec_chain(prev, q))
    &&& forall|c: Seq<int>|
        #[trigger] is_chain(lon, n, c, q) ==> lex_le(cnt, pen, c.len() - 1, chain_cost(pt, n, c))
}

proof fn lemma_rec_chain_frame(p1: Seq<usize>, p2: Seq<usize>, q: int)
    requires
        forall|x: int| 1 <= x <= q ==> p1[x] == p2[x],
    ensures
        rec_chain(p1, q) == rec_chain(p2, q),
    decreases q,
{
    if q > 0 && 0 <= p1[q] < q {
        lemma_rec_chain_frame(p1, p2, p1[q] as int);
    }
}

proof fn lemma_rec_chain_last(prev: Seq<usize>, q: int)
    ensures
        rec_chain(prev, q).len() >= 1,
        rec_chain(prev, q)[rec_chain(prev, q).len() - 1] == (if q <= 0 {
            0
        } else {
            q
        }),
    decreases q,
{
    if q > 0 && 0 <= prev[q] < q {
        lemma_rec_chain_last(prev, prev[q] as int);
    }
}

proof fn lemma_chain_push(lon: Seq<usize>, pt: Seq<Point>, n: int, c: Seq<int>, k: int, i: int)
    requires
        is_chain(lon, n, c, k),
        edge_ok(lon, n, k, i),
    ensures
        is_chain(lon, n, c.push(i), i),
        chain_cost(pt, n, c.push(i)) == chain_cost(pt, n, c) + edge_penalty(pt, n, k, i),
{
    let d = c.push(i);
    assert(d.drop_last() =~= c);
    assert forall|x: int| 0 <= x < d.len() - 1 implies edge_ok(lon, n, #[trigger] d[x], d[x + 1]) by {
        if x < c.len() - 1 {
            assert(d[x] == c[x] && d[x + 1] == c[x + 1]);
        }
    }
}

proof fn lemma_chain_prefix(lon: Seq<usize>, pt: Seq<Point>, n: int, c: Seq<int>)
    requires
        c.len() >= 2,
        is_chain(lon, n, c, c[c.len() - 1]),
    ensures
        is_chain(lon, n, c.drop_last(), c[c.len() - 2]),
        edge_ok(lon, n, c[c.len() - 2], c[c.len() - 1]),
        chain_cost(pt, n, c) == chain_cost(pt, n, c.drop_last()) + edge_penalty(
            pt,
            n,
            c[c.len() - 2],
            c[c.len() - 1],
        ),
{
    let d = c.drop_last();
    assert forall|x: int| 0 <= x < d.len() - 1 implies edge_ok(lon, n, #[trigger] d[x], d[x + 1]) by {
        assert(edge_ok(lon, n, c[x], c[x + 1]));
    }
    assert(edge_ok(lon, n, c[c.len() - 2], c[c.len() - 1]));
}

proof fn lemma_chain_step(lon: Seq<usize>, n: int, c: Seq<int>, i: int, a: int, b: int)
    requires
        is_chain(lon, n, c, i),
        0 <= a < b < c.len(),
    ensures
        c[a] < c[b],
    decreases b - a,
{
    assert(edge_ok(lon, n, c[b - 1], c[b]));
    if a < b - 1 {
        lemma_chain_step(lon, n, c, i, a, b - 1);
    }
}

/// The points of a chain increase strictly.
proof fn lemma_chain_increasing(lon: Seq<usize>, n: int, c: Seq<int>, i: int)
    requires
        is_chain(lon, n, c, i),
    ensures
        forall|a: int, b: int| 0 <= a < b < c.len() ==> #[trigger] c[a] < #[trigger] c[b],
{
    assert forall|a: int, b: int| 0 <= a < b < c.len() implies #[trigger] c[a] < #[trigger] c[b] by {
        lemma_chain_step(lon, n, c, i, a, b);
    }
}

} // verus!
