//! Which of a grid's points are told of and mixed, said of their columns, rows
//! and places, and when two grids are the same.

use crate::forecast::{
    corners_of,
    law_points_stay_put,
    place_view,
    told,
    ForecastView,
    Survey,
};
use crate::grib::PackedView;
use crate::grid::{Grid, Scaled};
use crate::number::worth;
use crate::text::ten_to;
use vstd::prelude::*;

verus! {

// --- Points of an area -------------------------------------------------------------------

/// Whether a point is in an area, edges and all.
pub open spec fn is_in_area(s: Survey, k: int) -> bool {
    place_view(s.positions[k]) matches Some((lat, lon)) && {
        &&& worth(s.area.south) <= worth(lat) && worth(lat) <= worth(s.area.north)
        &&& worth(s.area.west) <= worth(lon) && worth(lon) <= worth(s.area.east)
    }
}

/// Whether a point is `step`th by column and by row, counted from the first, and
/// in the area.
pub open spec fn is_step(s: Survey, step: int, k: int, i: int, j: int) -> bool {
    &&& k == j * s.nx + i
    &&& s.window.i0 <= i <= s.window.i1 && s.window.j0 <= j <= s.window.j1
    &&& i % step == 0 && j % step == 0
    &&& is_in_area(s, k)
}

proof fn lemma_row(s: Survey, step: int, j: int, n: int, x: int)
    requires
        s.window.j0 <= j <= s.window.j1,
        n <= s.window.i1 + 1,
        0 <= s.nx,
        j * s.nx + s.window.i1 <= usize::MAX,
        0 <= x < s.row(step, j, n).len(),
    ensures
        exists|i: int| #[trigger] is_step(s, step, s.row(step, j, n)[x] as int, i, j),
    decreases n,
{
    if n > s.window.i0 {
        let before = s.row(step, j, n - 1);
        assert(0 <= j * s.nx) by (nonlinear_arith)
            requires
                0 <= j,
                0 <= s.nx,
        ;
        if s.takes(step, n - 1, j) && x == before.len() {
            assert(is_step(s, step, s.row(step, j, n)[x] as int, n - 1, j));
        } else {
            lemma_row(s, step, j, n - 1, x);
        }
    }
}

proof fn lemma_rows(s: Survey, step: int, n: int, x: int)
    requires
        n <= s.window.j1 + 1,
        0 <= s.nx,
        s.window.j1 * s.nx + s.window.i1 <= usize::MAX,
        0 <= x < s.rows(step, n).len(),
    ensures
        exists|i: int, j: int| #[trigger] is_step(s, step, s.rows(step, n)[x] as int, i, j),
    decreases n,
{
    if n > s.window.j0 {
        let before = s.rows(step, n - 1);
        let row = s.row(step, n - 1, s.window.i1 + 1);
        if x < before.len() {
            lemma_rows(s, step, n - 1, x);
            assert(s.rows(step, n)[x] == before[x]);
        } else {
            assert((n - 1) * s.nx <= s.window.j1 * s.nx) by (nonlinear_arith)
                requires
                    n - 1 <= s.window.j1,
                    0 <= s.nx,
            ;
            lemma_row(s, step, n - 1, s.window.i1 + 1, x - before.len());
            assert(s.rows(step, n)[x] == row[x - before.len()]);
        }
    }
}

proof fn lemma_told(f: ForecastView, t: int, points: Seq<usize>, k: usize)
    ensures
        told(f, t, points).contains(k) <==> points.contains(k) && f.mix(t, seq![k]) is Some,
    decreases points.len(),
{
    if points.len() > 0 {
        let rest = points.drop_last();
        let was = told(f, t, rest);
        let all = told(f, t, points);
        lemma_told(f, t, rest, k);
        if rest.contains(k) {
            let x = choose|x: int| 0 <= x < rest.len() && rest[x] == k;
            assert(points[x] == k);
        }
        if points.contains(k) && !rest.contains(k) {
            let x = choose|x: int| 0 <= x < points.len() && points[x] == k;
            assert(x == points.len() - 1) by {
                if x < points.len() - 1 {
                    assert(rest[x] == k);
                }
            }
        }
        if f.mix(t, seq![points.last()]) is Some {
            assert(all == was.push(points.last()));
            assert(all[was.len() as int] == points.last());
            assert(points[points.len() - 1] == points.last());
            if was.contains(k) {
                let x = choose|x: int| 0 <= x < was.len() && was[x] == k;
                assert(all[x] == k);
            }
            if all.contains(k) && k != points.last() {
                let x = choose|x: int| 0 <= x < all.len() && all[x] == k;
                assert(was[x] == k);
            }
        }
    }
}

/// A point told of is in the area, a step's by its column and its row, and the
/// wind is known there; and every point of the window's that is so is told of.
pub proof fn law_the_points_told_are_the_areas(
    f: ForecastView,
    t: int,
    s: Survey,
    step: int,
    k: usize,
)
    requires
        step >= 1,
        0 <= s.nx,
        s.window.j1 * s.nx + s.window.i1 <= usize::MAX,
    ensures
        told(f, t, s.points(step)).contains(k) <==> {
            &&& exists|i: int, j: int| #[trigger] is_step(s, step, k as int, i, j)
            &&& f.mix(t, seq![k]) is Some
        },
{
    let points = s.points(step);
    lemma_told(f, t, points, k);
    if points.contains(k) {
        let x = choose|x: int| 0 <= x < points.len() && points[x] == k;
        lemma_rows(s, step, s.window.j1 + 1, x);
    }
    if exists|i: int, j: int| #[trigger] is_step(s, step, k as int, i, j) {
        let (i, j) = choose|i: int, j: int| #[trigger] is_step(s, step, k as int, i, j);
        assert(s.takes(step, i, j));
        law_points_stay_put(s, s, step, i, j);
    }
}

// --- Points mixed -------------------------------------------------------------------------

/// Whether values have no gap at any of these points.
pub open spec fn no_gap(p: PackedView, points: Seq<usize>) -> bool {
    forall|i: int| 0 <= i < points.len() ==> p.values[#[trigger] points[i] as int] is Some
}

/// There is something to say at points and a time just when it is within the
/// hours and neither wind has a gap there in the hour before or the hour after;
/// a gust, and a pressure, just when both hours have one without a gap.
pub proof fn law_nothing_is_said_where_the_wind_is_unknown(f: ForecastView, t: int, points: Seq<usize>)
    requires
        f.sound(),
        f.hours.len() <= usize::MAX,
    ensures
        f.mix(t, points) matches Some(m) ==> f.hours[0].valid <= t <= f.hours[f.hours.len()
            - 1].valid && {
            let (x, y) = (f.hours[m.hours.before as int], f.hours[m.hours.after as int]);
            &&& x.valid <= t <= y.valid
            &&& no_gap(x.u, points) && no_gap(x.v, points)
            &&& no_gap(y.u, points) && no_gap(y.v, points)
            &&& m.gust <==> (x.gust matches Some(a) && no_gap(a, points)) && (
            y.gust matches Some(b) && no_gap(b, points))
            &&& m.pressure <==> (x.pressure matches Some(a) && no_gap(a, points)) && (
            y.pressure matches Some(b) && no_gap(b, points))
        },
        f.hours[0].valid <= t <= f.hours[f.hours.len() - 1].valid && (forall|h: int|
            0 <= h < f.hours.len() ==> no_gap((#[trigger] f.hours[h]).u, points) && no_gap(
                f.hours[h].v,
                points,
            )) ==> f.mix(t, points) is Some,
{
    if f.hours[0].valid <= t <= f.hours[f.hours.len() - 1].valid {
        crate::forecast::law_a_bracket_is_around_its_time(f, t);
        let b = f.bracket(t)->0;
        let k = (t - f.run) / 3600;
        assert(f.hours[0].valid == f.run);
        assert(f.hours[f.hours.len() - 1].valid == f.run + (f.hours.len() - 1) * 3600);
        assert(0 <= k < f.hours.len());
        let (x, y) = (f.hours[b.before as int], f.hours[b.after as int]);
    }
}

/// The four points around a place: two columns and two rows, next to each other,
/// with the place's own column and row among them, the column's points one
/// apart and the row's a grid's width.
pub proof fn law_the_corners_are_around_the_place(grid: Grid, i: int, j: int)
    requires
        2 <= grid.nx,
        2 <= grid.ny,
        0 <= i < grid.nx,
        0 <= j < grid.ny,
    ensures
        exists|c: int, r: int|
            {
                &&& 0 <= c <= i <= c + 1 < grid.nx
                &&& 0 <= r <= j <= r + 1 < grid.ny
                &&& (i + 1 < grid.nx ==> c == i) && (j + 1 < grid.ny ==> r == j)
                &&& #[trigger] corners_at(grid, c, r) == corners_of(grid, i, j)
            },
{
    let c = if i + 1 < grid.nx {
        i
    } else {
        i - 1
    };
    let r = if j + 1 < grid.ny {
        j
    } else {
        j - 1
    };
    assert(corners_at(grid, c, r) =~= corners_of(grid, i, j));
}

/// The point in a column and a row.
pub open spec fn point_at(grid: Grid, column: int, row: int) -> int {
    row * grid.nx + column
}

/// The points of a cell, row by row.
pub open spec fn corners_at(grid: Grid, c: int, r: int) -> Seq<int> {
    seq![
        point_at(grid, c, r),
        point_at(grid, c + 1, r),
        point_at(grid, c, r + 1),
        point_at(grid, c + 1, r + 1),
    ]
}

// --- Grids that are the same ----------------------------------------------------------------

proof fn lemma_ten_to_joined(a: nat, b: nat)
    ensures
        ten_to(a + b) == ten_to(a) * ten_to(b),
        ten_to(a) >= 1,
    decreases a,
{
    if a > 0 {
        lemma_ten_to_joined((a - 1) as nat, b);
        let (x, y) = (ten_to((a - 1) as nat), ten_to(b));
        assert(ten_to((a + b) as nat) == 10 * ten_to((a + b - 1) as nat));
        assert((10 * x) * y == 10 * (x * y)) by (nonlinear_arith);
    }
}

proof fn lemma_cross(v: int, w: int, p: int, q: int)
    requires
        q >= 1,
    ensures
        v == w * p <==> v * q == w * (p * q),
{
    assert(w * (p * q) == (w * p) * q) by (nonlinear_arith);
    assert(v != w * p ==> v * q != (w * p) * q) by (nonlinear_arith)
        requires
            q >= 1,
    ;
}

/// Two scaled numbers are the same just when they are the same number: each
/// value, times ten to as much more than the other's scale, is the same.
pub proof fn law_scaled_numbers_are_the_same_by_value(a: Scaled, b: Scaled, m: int)
    requires
        a.scale + m >= 0,
        b.scale + m >= 0,
    ensures
        a.equal(b) <==> a.value * ten_to((b.scale + m) as nat) == b.value * ten_to(
            (a.scale + m) as nat,
        ),
{
    if a.scale >= b.scale {
        let (d, q) = ((a.scale - b.scale) as nat, (b.scale + m) as nat);
        lemma_ten_to_joined(d, q);
        lemma_ten_to_joined(q, 0);
        lemma_cross(a.value as int, b.value as int, ten_to(d), ten_to(q));
    } else {
        let (d, q) = ((b.scale - a.scale) as nat, (a.scale + m) as nat);
        lemma_ten_to_joined(d, q);
        lemma_ten_to_joined(q, 0);
        lemma_cross(b.value as int, a.value as int, ten_to(d), ten_to(q));
    }
}

/// Two grids are the same just when they are alike in every part, the radius by
/// its value.
pub proof fn law_grids_are_the_same_part_by_part(a: Grid, b: Grid)
    ensures
        a.equal(b) <==> a == (Grid { radius: a.radius, ..b }) && a.radius.equal(b.radius),
        a.equal(a),
{
    law_scaled_numbers_are_the_same_by_value(a.radius, a.radius, -a.radius.scale);
}

} // verus!
