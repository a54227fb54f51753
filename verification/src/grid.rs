//! Model grids. HRRR's is Lambert conformal (GRIB2 template 3.30) on a sphere.
//! A grid is kept in the whole numbers GRIB writes it in: millionths of a
//! degree, and millimetres.

use crate::text::{lemma_ten_to_grows, ten_to};
use vstd::prelude::*;

verus! {

/// A number as GRIB scales it: `value` divided by ten to the `scale`.
#[derive(Clone, Copy, Debug)]
pub struct Scaled {
    pub scale: i32,
    pub value: u32,
}

impl Scaled {
    /// Whether two scaled numbers are the same number.
    pub open spec fn equal(self, other: Scaled) -> bool {
        if self.scale >= other.scale {
            self.value == other.value * ten_to((self.scale - other.scale) as nat)
        } else {
            self.value * ten_to((other.scale - self.scale) as nat) == other.value
        }
    }

    /// Whether two scaled numbers are the same number.
    pub fn equals(&self, other: &Scaled) -> (r: bool)
        ensures
            r == self.equal(*other),
    {
        if self.scale >= other.scale {
            times_ten_is(other.value, self.scale, other.scale, self.value)
        } else {
            times_ten_is(self.value, other.scale, self.scale, other.value)
        }
    }
}

/// Whether `v` times ten to the `hi - lo` is `target`.
fn times_ten_is(v: u32, hi: i32, lo: i32, target: u32) -> (r: bool)
    requires
        hi >= lo,
    ensures
        r == (v * ten_to((hi - lo) as nat) == target),
{
    let mut k: i64 = hi as i64 - lo as i64;
    let ghost total = k;
    let mut acc: u64 = v as u64;
    assert(ten_to(0) == 1);
    while k > 0
        invariant
            0 <= k <= total,
            total == hi - lo,
            acc <= 0xffff_ffff,
            acc * ten_to(k as nat) == v * ten_to(total as nat),
        decreases k,
    {
        if acc == 0 {
            assert(0 * ten_to(k as nat) == 0);
            return target == 0;
        }
        proof {
            let a = acc as int;
            let rest = ten_to((k - 1) as nat);
            assert(ten_to(k as nat) == 10 * rest);
            assert(a * (10 * rest) == (a * 10) * rest) by (nonlinear_arith);
            lemma_ten_to_grows(0, (k - 1) as nat);
            assert((a * 10) * rest >= a * 10) by (nonlinear_arith)
                requires
                    rest >= 1,
                    a >= 0,
            ;
        }
        acc = acc * 10;
        if acc > 0xffff_ffff {
            return false;
        }
        k -= 1;
    }
    acc == target as u64
}

/// 10 metres.
pub open spec fn ten_metres() -> Scaled {
    Scaled { scale: 0, value: 10 }
}

/// What a file says of a Lambert conformal grid.
#[derive(Clone, Copy, Debug)]
pub struct Lambert {
    pub nx: usize,
    pub ny: usize,
    /// The first point, millionths of a degree.
    pub la1: i64,
    pub lo1: i64,
    /// The meridian parallel to the grid's y axis, and the latitude where
    /// the spacing is true, millionths of a degree.
    pub lov: i64,
    pub lad: i64,
    pub latin1: i64,
    pub latin2: i64,
    /// Spacing at `lad`, millimetres.
    pub dx: u32,
    pub dy: u32,
    /// Earth's radius, metres.
    pub radius: Scaled,
    /// Winds are given along the grid's x and y, not east and north.
    pub winds_along_grid: bool,
    /// Rows run south to north (scanning mode bit 2).
    pub rows_north: bool,
}

/// A grid whose points can be placed.
#[derive(Clone, Copy, Debug)]
pub struct Grid {
    pub nx: usize,
    pub ny: usize,
    pub la1: i64,
    pub lo1: i64,
    pub lov: i64,
    pub lad: i64,
    pub latin1: i64,
    pub latin2: i64,
    pub dx: u32,
    pub dy: u32,
    pub radius: Scaled,
    pub winds_along_grid: bool,
    pub rows_north: bool,
}

/// 89 degrees, in millionths.
pub const NEAR_POLE: i64 = 89_000_000;

impl Lambert {
    /// A northern cone: HRRR's, and every NOAA Lambert grid over the US.
    pub open spec fn northern_cone(self) -> bool {
        &&& self.nx >= 2 && self.ny >= 2
        &&& self.dx > 0 && self.dy > 0
        &&& self.radius.value > 0
        &&& 0 < self.latin1 < NEAR_POLE
        &&& 0 < self.latin2 < NEAR_POLE
        &&& -NEAR_POLE < self.lad < NEAR_POLE
        &&& -NEAR_POLE < self.la1 < NEAR_POLE
    }

    /// The grid this describes.
    pub open spec fn grid(self) -> Grid {
        Grid {
            nx: self.nx,
            ny: self.ny,
            la1: self.la1,
            lo1: self.lo1,
            lov: self.lov,
            lad: self.lad,
            latin1: self.latin1,
            latin2: self.latin2,
            dx: self.dx,
            dy: self.dy,
            radius: self.radius,
            winds_along_grid: self.winds_along_grid,
            rows_north: self.rows_north,
        }
    }
}

impl Grid {
    pub open spec fn spec_len(self) -> int {
        self.nx * self.ny
    }

    /// The grid `g` describes, if it is one whose points can be placed.
    pub fn lambert(g: Lambert) -> (r: Result<Grid, String>)
        ensures
            r is Ok <==> g.northern_cone(),
            r matches Ok(grid) ==> grid == g.grid(),
            r matches Err(e) ==> e@ == "unsupported Lambert grid: only northern cones"@,
    {
        let ok = g.nx >= 2 && g.ny >= 2 && g.dx > 0 && g.dy > 0 && g.radius.value > 0 && g.latin1
            < NEAR_POLE && g.latin2 < NEAR_POLE && -NEAR_POLE < g.lad && g.lad < NEAR_POLE
            && -NEAR_POLE < g.la1 && g.la1 < NEAR_POLE;
        if !ok || g.latin1 <= 0 || g.latin2 <= 0 {
            return Err("unsupported Lambert grid: only northern cones".to_owned());
        }
        Ok(
            Grid {
                nx: g.nx,
                ny: g.ny,
                la1: g.la1,
                lo1: g.lo1,
                lov: g.lov,
                lad: g.lad,
                latin1: g.latin1,
                latin2: g.latin2,
                dx: g.dx,
                dy: g.dy,
                radius: g.radius,
                winds_along_grid: g.winds_along_grid,
                rows_north: g.rows_north,
            },
        )
    }

    /// How many points the grid has.
    pub fn len(&self) -> (r: usize)
        requires
            self.nx * self.ny <= usize::MAX,
        ensures
            r as int == self.spec_len(),
    {
        self.nx * self.ny
    }

    pub fn is_empty(&self) -> (r: bool)
        requires
            self.nx * self.ny <= usize::MAX,
        ensures
            r == (self.spec_len() == 0),
    {
        self.len() == 0
    }

    /// Point `index`'s column and row, rows counted from the first point's.
    pub fn column_row(&self, index: usize) -> (r: (usize, usize))
        requires
            self.nx > 0,
        ensures
            r.0 < self.nx,
            r.1 * self.nx + r.0 == index,
    {
        let i: usize = index % self.nx;
        let j: usize = index / self.nx;
        proof {
            vstd::arithmetic::div_mod::lemma_fundamental_div_mod(index as int, self.nx as int);
            assert(j * self.nx == self.nx * j) by (nonlinear_arith);
        }
        (i, j)
    }

    /// Whether two grids put the same points in the same places, with winds
    /// along the same axes.
    pub open spec fn equal(self, other: Grid) -> bool {
        &&& self.nx == other.nx
        &&& self.ny == other.ny
        &&& self.la1 == other.la1
        &&& self.lo1 == other.lo1
        &&& self.lov == other.lov
        &&& self.lad == other.lad
        &&& self.latin1 == other.latin1
        &&& self.latin2 == other.latin2
        &&& self.dx == other.dx
        &&& self.dy == other.dy
        &&& self.radius.equal(other.radius)
        &&& self.winds_along_grid == other.winds_along_grid
        &&& self.rows_north == other.rows_north
    }

    /// Whether two grids put the same points in the same places, with winds
    /// along the same axes.
    pub fn equals(&self, other: &Grid) -> (r: bool)
        ensures
            r == self.equal(*other),
    {
        self.nx == other.nx && self.ny == other.ny && self.la1 == other.la1 && self.lo1
            == other.lo1 && self.lov == other.lov && self.lad == other.lad && self.latin1
            == other.latin1 && self.latin2 == other.latin2 && self.dx == other.dx && self.dy
            == other.dy && self.radius.equals(&other.radius) && self.winds_along_grid
            == other.winds_along_grid && self.rows_north == other.rows_north
    }
}

} // verus!
