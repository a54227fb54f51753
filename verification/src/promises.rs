//! What the library promises as a whole, said of what goes in and what comes
//! out: a forecast of its hours' fields, the messages of what they tell, and
//! an answer of its request.

use crate::forecast::{
    fault_in,
    first_field,
    forecast_of,
    hour_from,
    is_field,
    so_far,
    used_in,
    with_hour,
    ForecastView,
    HourView,
};
use crate::config::RegionView;
use crate::engine::{
    ask_of,
    degrees,
    fetch_json,
    field_json,
    forecast_json,
    hour_json,
    id_field,
    keel_word,
    message,
    minute,
    outlook,
    outlook_below,
    picked_json,
    point_reply_json,
    points_json,
    region_json,
    run_fields,
    state_json,
    station_json,
    stations_json,
    texts,
    AskView,
    FetchStatus,
    FetchView,
    KeelStatus,
    Point,
    SampleView,
    StationStatus,
    StationsView,
    WindView,
};
use crate::grib::{FieldView, PackedView};
use crate::grid::{ten_metres, Grid, Scaled};
use crate::json::{field_named, lemma_field_after, JsonView};
use crate::number::{finite64, nearest, to_i64, whole, worth};
use crate::obs::{showing_below, StationView};
use crate::text::ten_to;
use crate::time;
use vstd::arithmetic::power2::{lemma_pow2_pos, lemma_pow2_unfold, pow2};
use vstd::prelude::*;

verus! {

// --- Forecasts -----------------------------------------------------------------------

/// Whether a level is ten metres, however it is scaled.
pub open spec fn at_ten_metres(level: Option<Scaled>) -> bool {
    level matches Some(l) && if l.scale >= 0 {
        l.value == 10 * ten_to(l.scale as nat)
    } else {
        l.value * ten_to((-l.scale) as nat) == 10
    }
}

/// Whether a field is the wind 10 m above ground: toward the grid's x by its
/// number 2, toward its y by its number 3.
pub open spec fn is_ten_metre_wind(f: FieldView, number: u8) -> bool {
    f.discipline == 0 && f.category == 2 && f.number == number && f.surface == 103
        && at_ten_metres(f.level)
}

/// Whether a field is the gust at the surface.
pub open spec fn is_gust(f: FieldView) -> bool {
    f.discipline == 0 && f.category == 2 && f.number == 22 && f.surface == 1
}

/// Whether a field is the pressure at mean sea level, by MAPS's reduction or by
/// the standard one.
pub open spec fn is_sea_level_pressure(f: FieldView, number: u8) -> bool {
    f.discipline == 0 && f.category == 3 && f.number == number && f.surface == 101
}

/// Whether values are those of the first field that is meant.
pub open spec fn of_the_first(fields: Seq<FieldView>, p: PackedView, meant: spec_fn(FieldView) -> bool) -> bool {
    exists|i: int|
        0 <= i < fields.len() && meant(#[trigger] fields[i]) && p == fields[i].values && forall|
            j: int,
        |
            0 <= j < i ==> !meant(#[trigger] fields[j])
}

/// Whether values there may not be are those of the first field that is meant,
/// and there are none without one.
pub open spec fn of_the_first_if(
    fields: Seq<FieldView>,
    p: Option<PackedView>,
    meant: spec_fn(FieldView) -> bool,
) -> bool {
    match p {
        Some(p) => of_the_first(fields, p, meant),
        None => forall|i: int| 0 <= i < fields.len() ==> !meant(#[trigger] fields[i]),
    }
}

proof fn lemma_first(
    fields: Seq<FieldView>,
    category: u8,
    number: u8,
    surface: u8,
    level: Option<Scaled>,
    meant: spec_fn(FieldView) -> bool,
)
    requires
        forall|f: FieldView| #[trigger] meant(f) <==> is_field(f, category, number, surface, level),
    ensures
        match first_field(fields, category, number, surface, level) {
            Some(f) => exists|i: int|
                0 <= i < fields.len() && meant(#[trigger] fields[i]) && f == fields[i] && forall|
                    j: int,
                |
                    0 <= j < i ==> !meant(#[trigger] fields[j]),
            None => forall|i: int| 0 <= i < fields.len() ==> !meant(#[trigger] fields[i]),
        },
    decreases fields.len(),
{
    if fields.len() > 0 {
        let rest = fields.skip(1);
        if meant(fields[0]) {
            assert(is_field(fields[0], category, number, surface, level));
        } else {
            lemma_first(rest, category, number, surface, level, meant);
            match first_field(rest, category, number, surface, level) {
                Some(f) => {
                    let i = choose|i: int|
                        0 <= i < rest.len() && meant(#[trigger] rest[i]) && f == rest[i] && forall|
                            j: int,
                        |
                            0 <= j < i ==> !meant(#[trigger] rest[j]);
                    assert(fields[i + 1] == rest[i]);
                    assert forall|j: int| 0 <= j < i + 1 implies !meant(#[trigger] fields[j]) by {
                        if j > 0 {
                            assert(rest[j - 1] == fields[j]);
                        }
                    }
                },
                None => {
                    assert forall|i: int| 0 <= i < fields.len() implies !meant(
                        #[trigger] fields[i],
                    ) by {
                        if i > 0 {
                            assert(rest[i - 1] == fields[i]);
                        }
                    }
                },
            }
        }
    }
}

proof fn lemma_ten_metres(f: FieldView, number: u8)
    ensures
        is_ten_metre_wind(f, number) <==> is_field(f, 2, number, 103, Some(ten_metres())),
{
}

/// Whether an hour is made of its fields: the wind toward the grid's x and y,
/// the gust and the pressure each by their own parameter.
pub open spec fn made_of(fields: Seq<FieldView>, h: HourView) -> bool {
    &&& of_the_first(fields, h.u, |f: FieldView| is_ten_metre_wind(f, 2))
    &&& of_the_first(fields, h.v, |f: FieldView| is_ten_metre_wind(f, 3))
    &&& of_the_first_if(fields, h.gust, |f: FieldView| is_gust(f))
    &&& if exists|i: int| 0 <= i < fields.len() && is_sea_level_pressure(#[trigger] fields[i], 198) {
        of_the_first_if(fields, h.pressure, |f: FieldView| is_sea_level_pressure(f, 198))
    } else {
        of_the_first_if(fields, h.pressure, |f: FieldView| is_sea_level_pressure(f, 1))
    }
}

proof fn lemma_made_of(fields: Seq<FieldView>)
    requires
        used_in(fields) is Some,
    ensures
        made_of(fields, hour_from(used_in(fields)->0)),
{
    let east = |f: FieldView| is_ten_metre_wind(f, 2);
    let north = |f: FieldView| is_ten_metre_wind(f, 3);
    let gust = |f: FieldView| is_gust(f);
    let maps = |f: FieldView| is_sea_level_pressure(f, 198);
    let plain = |f: FieldView| is_sea_level_pressure(f, 1);
    lemma_first(fields, 2, 2, 103, Some(ten_metres()), east);
    lemma_first(fields, 2, 3, 103, Some(ten_metres()), north);
    lemma_first(fields, 2, 22, 1, None, gust);
    lemma_first(fields, 3, 198, 101, None, maps);
    lemma_first(fields, 3, 1, 101, None, plain);
    if exists|i: int| 0 <= i < fields.len() && is_sea_level_pressure(#[trigger] fields[i], 198) {
        let i = choose|i: int|
            0 <= i < fields.len() && is_sea_level_pressure(#[trigger] fields[i], 198);
        assert(maps(fields[i]));
    } else {
        if let Some(f) = first_field(fields, 3, 198, 101, None) {
            let i = choose|i: int|
                0 <= i < fields.len() && maps(#[trigger] fields[i]) && f == fields[i];
            assert(is_sea_level_pressure(fields[i], 198));
        }
    }
}

proof fn lemma_hours_made(hours: Seq<Seq<FieldView>>, n: int, h: int)
    requires
        0 <= h < n <= hours.len(),
        so_far(hours, n) is Ok,
    ensures
        so_far(hours, n)->Ok_0 is Some,
        ({
            let f = so_far(hours, n)->Ok_0->0;
            &&& f.hours.len() == n
            &&& made_of(hours[h], f.hours[h])
            &&& f.hours[h].valid == f.run + h * 3600
        }),
    decreases n,
{
    let before = so_far(hours, n - 1);
    lemma_made_of(hours[n - 1]);
    if n > 1 {
        lemma_hours_made(hours, n - 1, if h < n - 1 {
            h
        } else {
            0
        });
    }
}

/// A forecast's hour has its wind, gust and pressure from the fields of that
/// hour's file that are those parameters, and no other.
pub proof fn law_an_hour_is_made_of_its_fields(hours: Seq<Seq<FieldView>>, h: int)
    requires
        forecast_of(hours) is Ok,
        0 <= h < hours.len(),
    ensures
        ({
            let f = forecast_of(hours)->Ok_0;
            &&& f.hours.len() == hours.len()
            &&& made_of(hours[h], f.hours[h])
            &&& f.hours[h].valid == f.run + h * 3600
        }),
{
    lemma_hours_made(hours, hours.len() as int, h);
}

/// Whether a grid is another, but for how its radius is scaled.
pub open spec fn same_places(a: Grid, b: Grid) -> bool {
    a == (Grid { radius: a.radius, ..b })
}

/// Whether the first field that is meant, if there is one, is of a run and an
/// hour, on a grid.
pub open spec fn the_first_is_of(
    fields: Seq<FieldView>,
    meant: spec_fn(FieldView) -> bool,
    run: int,
    h: int,
    grid: Grid,
) -> bool {
    forall|i: int|
        0 <= i < fields.len() && meant(#[trigger] fields[i]) && (forall|j: int|
            0 <= j < i ==> !meant(#[trigger] fields[j])) ==> fields[i].reference == run
            && fields[i].lead == h * 3600 && same_places(fields[i].grid, grid)
}

proof fn lemma_the_first_is_of(
    fields: Seq<FieldView>,
    category: u8,
    number: u8,
    surface: u8,
    level: Option<Scaled>,
    meant: spec_fn(FieldView) -> bool,
    run: int,
    h: int,
    grid: Grid,
)
    requires
        forall|f: FieldView| #[trigger] meant(f) <==> is_field(f, category, number, surface, level),
        first_field(fields, category, number, surface, level) matches Some(f) ==> f.reference == run
            && f.lead == h * 3600 && same_places(f.grid, grid),
    ensures
        the_first_is_of(fields, meant, run, h, grid),
{
    lemma_first(fields, category, number, surface, level, meant);
    assert forall|i: int|
        0 <= i < fields.len() && meant(#[trigger] fields[i]) && (forall|j: int|
            0 <= j < i ==> !meant(#[trigger] fields[j])) implies fields[i].reference == run
        && fields[i].lead == h * 3600 && same_places(fields[i].grid, grid) by {
        let f = first_field(fields, category, number, surface, level)->0;
        let k = choose|k: int|
            0 <= k < fields.len() && meant(#[trigger] fields[k]) && f == fields[k] && forall|
                j: int,
            |
                0 <= j < k ==> !meant(#[trigger] fields[j]);
        if k < i {
            assert(!meant(fields[k]));
        } else if i < k {
            assert(!meant(fields[i]));
        }
    }
}

proof fn lemma_one_run(hours: Seq<Seq<FieldView>>, n: int, h: int)
    requires
        0 <= h < n <= hours.len(),
        so_far(hours, n) is Ok,
    ensures
        so_far(hours, n)->Ok_0 is Some,
        ({
            let f = so_far(hours, n)->Ok_0->0;
            used_in(hours[h]) matches Some(u) && {
                &&& fault_in(u, h) is None
                &&& u.u.reference == f.run
                &&& same_places(u.u.grid, f.grid)
            }
        }),
    decreases n,
{
    if n > 1 {
        lemma_one_run(hours, n - 1, if h < n - 1 {
            h
        } else {
            0
        });
    }
}

/// A forecast is of one run, and its points of one grid: every field that an
/// hour is made of is of that run, that hour and that grid.
pub proof fn law_a_forecast_is_of_one_run(hours: Seq<Seq<FieldView>>, h: int)
    requires
        forecast_of(hours) is Ok,
        0 <= h < hours.len(),
    ensures
        ({
            let f = forecast_of(hours)->Ok_0;
            &&& the_first_is_of(
                hours[h],
                |f: FieldView| is_ten_metre_wind(f, 2),
                f.run,
                h,
                f.grid,
            )
            &&& the_first_is_of(
                hours[h],
                |f: FieldView| is_ten_metre_wind(f, 3),
                f.run,
                h,
                f.grid,
            )
            &&& the_first_is_of(hours[h], |f: FieldView| is_gust(f), f.run, h, f.grid)
            &&& the_first_is_of(
                hours[h],
                |f: FieldView| is_sea_level_pressure(f, 198),
                f.run,
                h,
                f.grid,
            )
            &&& (exists|i: int|
                0 <= i < hours[h].len() && is_sea_level_pressure(#[trigger] hours[h][i], 198))
                || the_first_is_of(
                hours[h],
                |f: FieldView| is_sea_level_pressure(f, 1),
                f.run,
                h,
                f.grid,
            )
        }),
{
    lemma_one_run(hours, hours.len() as int, h);
    let f = forecast_of(hours)->Ok_0;
    let fields = hours[h];
    lemma_the_first_is_of(
        fields,
        2,
        2,
        103,
        Some(ten_metres()),
        |f: FieldView| is_ten_metre_wind(f, 2),
        f.run,
        h,
        f.grid,
    );
    lemma_the_first_is_of(
        fields,
        2,
        3,
        103,
        Some(ten_metres()),
        |f: FieldView| is_ten_metre_wind(f, 3),
        f.run,
        h,
        f.grid,
    );
    lemma_the_first_is_of(fields, 2, 22, 1, None, |f: FieldView| is_gust(f), f.run, h, f.grid);
    lemma_the_first_is_of(
        fields,
        3,
        198,
        101,
        None,
        |f: FieldView| is_sea_level_pressure(f, 198),
        f.run,
        h,
        f.grid,
    );
    lemma_among(fields, 3, 198, 101, None);
    lemma_first(fields, 3, 198, 101, None, |f: FieldView| is_sea_level_pressure(f, 198));
    match first_field(fields, 3, 198, 101, None) {
        Some(p) => {
            let i = choose|i: int|
                0 <= i < fields.len() && is_sea_level_pressure(#[trigger] fields[i], 198);
            assert(is_sea_level_pressure(fields[i], 198));
        },
        None => {
            lemma_the_first_is_of(
                fields,
                3,
                1,
                101,
                None,
                |f: FieldView| is_sea_level_pressure(f, 1),
                f.run,
                h,
                f.grid,
            );
        },
    }
}

/// Whether an hour's fields are all of a run, that hour and a grid, with both
/// winds among them.
pub open spec fn whole_hour(fields: Seq<FieldView>, run: int, h: int, grid: Grid) -> bool {
    &&& forall|i: int|
        0 <= i < fields.len() ==> (#[trigger] fields[i]).reference == run && fields[i].lead == h
            * 3600 && fields[i].grid == grid
    &&& exists|i: int| 0 <= i < fields.len() && is_ten_metre_wind(#[trigger] fields[i], 2)
    &&& exists|i: int| 0 <= i < fields.len() && is_ten_metre_wind(#[trigger] fields[i], 3)
}

proof fn lemma_among(
    fields: Seq<FieldView>,
    category: u8,
    number: u8,
    surface: u8,
    level: Option<Scaled>,
)
    ensures
        match first_field(fields, category, number, surface, level) {
            Some(f) => exists|i: int| 0 <= i < fields.len() && #[trigger] fields[i] == f,
            None => forall|i: int|
                0 <= i < fields.len() ==> !is_field(
                    #[trigger] fields[i],
                    category,
                    number,
                    surface,
                    level,
                ),
        },
    decreases fields.len(),
{
    if fields.len() > 0 && !is_field(fields[0], category, number, surface, level) {
        let rest = fields.skip(1);
        lemma_among(rest, category, number, surface, level);
        match first_field(rest, category, number, surface, level) {
            Some(f) => {
                let i = choose|i: int| 0 <= i < rest.len() && #[trigger] rest[i] == f;
                assert(fields[i + 1] == f);
            },
            None => {
                assert forall|i: int| 0 <= i < fields.len() implies !is_field(
                    #[trigger] fields[i],
                    category,
                    number,
                    surface,
                    level,
                ) by {
                    if i > 0 {
                        assert(rest[i - 1] == fields[i]);
                    }
                }
            },
        }
    }
}

proof fn lemma_same_number(a: Scaled)
    ensures
        a.equal(a),
{
    assert(ten_to(0) == 1);
    assert(a.value * ten_to(0) == a.value) by (nonlinear_arith)
        requires
            ten_to(0) == 1,
    ;
}

proof fn lemma_whole_hour(fields: Seq<FieldView>, run: int, h: int, grid: Grid)
    requires
        whole_hour(fields, run, h, grid),
    ensures
        used_in(fields) matches Some(u) && fault_in(u, h) is None && u.u.reference == run && u.u.grid
            == grid && u.u.grid.equal(grid),
{
    lemma_among(fields, 2, 2, 103, Some(ten_metres()));
    lemma_among(fields, 2, 3, 103, Some(ten_metres()));
    lemma_among(fields, 2, 22, 1, None);
    lemma_among(fields, 3, 198, 101, None);
    lemma_among(fields, 3, 1, 101, None);
    lemma_same_number(grid.radius);
    let i = choose|i: int| 0 <= i < fields.len() && is_ten_metre_wind(#[trigger] fields[i], 2);
    let j = choose|j: int| 0 <= j < fields.len() && is_ten_metre_wind(#[trigger] fields[j], 3);
    lemma_ten_metres(fields[i], 2);
    lemma_ten_metres(fields[j], 3);
}

proof fn lemma_whole_hours(hours: Seq<Seq<FieldView>>, n: int, run: int, grid: Grid)
    requires
        0 < n <= hours.len(),
        forall|h: int| 0 <= h < hours.len() ==> whole_hour(#[trigger] hours[h], run, h, grid),
    ensures
        so_far(hours, n) matches Ok(Some(f)) && f.run == run && f.grid == grid,
    decreases n,
{
    assert(whole_hour(hours[n - 1], run, n - 1, grid));
    lemma_whole_hour(hours[n - 1], run, n - 1, grid);
    if n > 1 {
        lemma_whole_hours(hours, n - 1, run, grid);
    } else {
        assert(so_far(hours, 0) == Ok::<Option<ForecastView>, Seq<char>>(None));
    }
}

/// Hours of one run on one grid, each with its wind, make a forecast of that run
/// on that grid.
pub proof fn law_whole_hours_make_a_forecast(hours: Seq<Seq<FieldView>>, run: int, grid: Grid)
    requires
        hours.len() > 0,
        forall|h: int| 0 <= h < hours.len() ==> whole_hour(#[trigger] hours[h], run, h, grid),
    ensures
        forecast_of(hours) matches Ok(f) && f.run == run && f.grid == grid,
{
    lemma_whole_hours(hours, hours.len() as int, run, grid);
}

// --- Messages ------------------------------------------------------------------------

/// A field is found by its name, if none before it has that name.
proof fn lemma_found(fields: Seq<(Seq<char>, JsonView)>, i: int)
    requires
        0 <= i < fields.len(),
        forall|j: int| 0 <= j < i ==> (#[trigger] fields[j]).0 != fields[i].0,
    ensures
        field_named(fields, fields[i].0) == Some(fields[i].1),
    decreases i,
{
    if i > 0 {
        let rest = fields.skip(1);
        assert(rest[i - 1] == fields[i]);
        assert forall|j: int| 0 <= j < i - 1 implies (#[trigger] rest[j]).0 != rest[i - 1].0 by {
            assert(rest[j] == fields[j + 1]);
        }
        assert(fields[0].0 != fields[i].0);
        lemma_found(rest, i - 1);
    }
}

/// A field is found by its name with more behind it.
proof fn lemma_in_front(
    head: Seq<(Seq<char>, JsonView)>,
    rest: Seq<(Seq<char>, JsonView)>,
    i: int,
)
    requires
        0 <= i < head.len(),
        forall|j: int| 0 <= j < i ==> (#[trigger] head[j]).0 != head[i].0,
    ensures
        field_named(head + rest, head[i].0) == Some(head[i].1),
{
    let all = head + rest;
    assert(all[i] == head[i]);
    assert forall|j: int| 0 <= j < i implies (#[trigger] all[j]).0 != all[i].0 by {
        assert(all[j] == head[j]);
    }
    lemma_found(all, i);
}

/// A name that no field has finds none.
proof fn lemma_absent(fields: Seq<(Seq<char>, JsonView)>, key: Seq<char>)
    requires
        forall|j: int| 0 <= j < fields.len() ==> (#[trigger] fields[j]).0 != key,
    ensures
        field_named(fields, key) is None,
    decreases fields.len(),
{
    if fields.len() > 0 {
        let rest = fields.skip(1);
        assert forall|j: int| 0 <= j < rest.len() implies (#[trigger] rest[j]).0 != key by {
            assert(rest[j] == fields[j + 1]);
        }
        lemma_absent(rest, key);
    }
}

/// Whether an object has just this under a name, and nothing without it.
pub open spec fn has_if(j: JsonView, key: Seq<char>, v: Option<JsonView>) -> bool {
    j.get(key) == v
}

pub open spec fn rounded_if(x: Option<u64>) -> Option<JsonView> {
    match x {
        Some(x) => Some(JsonView::Rounded(x, 1)),
        None => None,
    }
}

pub open spec fn knots_if(x: Option<u64>) -> Option<JsonView> {
    match x {
        Some(x) => Some(JsonView::Knots(x)),
        None => None,
    }
}

pub open spec fn text_if(x: Option<Seq<char>>) -> Option<JsonView> {
    match x {
        Some(x) => Some(JsonView::Text(x)),
        None => None,
    }
}

/// Whether a whole number of degrees is a direction's: from 0 to 359, and half
/// a degree or less from it, whole turns aside.
pub open spec fn points_the_way(n: nat, bits: u64) -> bool {
    &&& n < 360
    &&& exists|turns: int|
        whole(-1) <= 2 * (worth(bits) - #[trigger] whole(n + 360 * turns)) <= whole(1)
}

/// A direction is told to the nearest degree, so long as it is one that 64 bits
/// count.
pub proof fn law_directions_are_to_the_nearest_degree(bits: u64)
    requires
        whole(-1_000_000_000_000) < worth(bits) < whole(1_000_000_000_000),
    ensures
        points_the_way(degrees(bits), bits),
{
    let one = pow2(1074) as int;
    lemma_pow2_pos(1073);
    lemma_pow2_unfold(1074);
    let half = pow2(1073) as int;
    let w = worth(bits);
    let n = nearest(w);
    let size = if w >= 0 {
        w
    } else {
        -w
    };
    let q = (size + half) / one;
    vstd::arithmetic::div_mod::lemma_fundamental_div_mod(size + half, one);
    vstd::arithmetic::div_mod::lemma_mod_bound(size + half, one);
    assert(one * q == q * one) by (nonlinear_arith);
    assert((-q) * one == -(q * one)) by (nonlinear_arith);
    assert((q + 1) * one == q * one + one) by (nonlinear_arith);
    assert(-one <= 2 * (w - n * one) <= one);
    assert(0 <= q <= 1_000_000_000_001) by (nonlinear_arith)
        requires
            q * one <= size + half,
            size < 1_000_000_000_000 * one,
            0 <= size + half,
            size + half < (q + 1) * one,
            2 * half == one,
            one >= 1,
    ;
    assert(to_i64(n) == n);
    let turns = n / 360;
    assert(degrees(bits) + 360 * turns == n);
    assert(whole(degrees(bits) + 360 * turns) == n * one);
    assert(whole(1) == one && whole(-1) == -one);
}

/// Whether an object tells a sample: each part under its own name, and no more
/// than there is.
pub open spec fn tells_sample(j: JsonView, s: SampleView) -> bool {
    &&& j.get("speedKn"@) == Some(JsonView::Rounded(s.speed_kn, 1))
    &&& j.get("dirDeg"@) == Some(JsonView::Count(degrees(s.from_deg)))
    &&& j.get("gustKn"@) == rounded_if(s.gust_kn)
    &&& j.get("pressureHpa"@) == rounded_if(s.pressure_hpa)
}

/// Whether fields go by none of the names of a sample's parts.
spec fn no_sample_in(fields: Seq<(Seq<char>, JsonView)>) -> bool {
    forall|i: int|
        0 <= i < fields.len() ==> {
            let name = (#[trigger] fields[i]).0;
            name != "speedKn"@ && name != "dirDeg"@ && name != "gustKn"@ && name != "pressureHpa"@
        }
}

proof fn lemma_sample_names()
    ensures
        "speedKn"@ != "dirDeg"@,
        "speedKn"@ != "gustKn"@,
        "speedKn"@ != "pressureHpa"@,
        "dirDeg"@ != "gustKn"@,
        "dirDeg"@ != "pressureHpa"@,
        "gustKn"@ != "pressureHpa"@,
{
    reveal_strlit("speedKn");
    reveal_strlit("dirDeg");
    reveal_strlit("gustKn");
    reveal_strlit("pressureHpa");
    assert("dirDeg"@[0] == 'd' && "gustKn"@[0] == 'g');
    assert("speedKn"@.len() == 7 && "dirDeg"@.len() == 6 && "gustKn"@.len() == 6
        && "pressureHpa"@.len() == 11);
}

/// A sample's parts are told wherever they stand among other fields.
#[verifier::spinoff_prover]
proof fn lemma_sample_told(
    head: Seq<(Seq<char>, JsonView)>,
    s: SampleView,
    tail: Seq<(Seq<char>, JsonView)>,
)
    requires
        no_sample_in(head),
        no_sample_in(tail),
    ensures
        tells_sample(JsonView::Object(head + s.fields() + tail), s),
{
    lemma_sample_names();
    let rest = s.fields() + tail;
    let all = head + s.fields() + tail;
    assert(all =~= head + rest);
    lemma_field_after(head, rest, "speedKn"@);
    lemma_field_after(head, rest, "dirDeg"@);
    lemma_field_after(head, rest, "gustKn"@);
    lemma_field_after(head, rest, "pressureHpa"@);
    assert(rest[0] == ("speedKn"@, JsonView::Rounded(s.speed_kn, 1)));
    assert(rest[1] == ("dirDeg"@, JsonView::Count(degrees(s.from_deg))));
    lemma_found(rest, 0);
    lemma_found(rest, 1);
    let g = if s.gust_kn is Some {
        1int
    } else {
        0
    };
    if s.gust_kn is Some {
        assert(rest[2] == ("gustKn"@, JsonView::Rounded(s.gust_kn->0, 1)));
        lemma_found(rest, 2);
    } else {
        assert forall|j: int| 0 <= j < rest.len() implies (#[trigger] rest[j]).0 != "gustKn"@ by {
            if j >= s.fields().len() {
                assert(rest[j] == tail[j - s.fields().len()]);
            }
        }
        lemma_absent(rest, "gustKn"@);
    }
    if s.pressure_hpa is Some {
        assert(rest[2 + g] == ("pressureHpa"@, JsonView::Rounded(s.pressure_hpa->0, 1)));
        lemma_found(rest, 2 + g);
    } else {
        assert forall|j: int| 0 <= j < rest.len() implies (#[trigger] rest[j]).0
            != "pressureHpa"@ by {
            if j >= s.fields().len() {
                assert(rest[j] == tail[j - s.fields().len()]);
            }
        }
        lemma_absent(rest, "pressureHpa"@);
    }
}

// --- Stations ------------------------------------------------------------------------

/// Whether an object tells a station's report: each part under its own name,
/// and no more than there is.
pub open spec fn tells_station(j: JsonView, s: StationView) -> bool {
    &&& j.get("id"@) == Some(JsonView::Text(s.id))
    &&& j.get("name"@) == text_if(s.name)
    &&& j.get("lat"@) == Some(JsonView::Exact(s.lat))
    &&& j.get("lon"@) == Some(JsonView::Exact(s.lon))
    &&& j.get("time"@) == Some(JsonView::Text(time::iso_text(s.time)))
    &&& j.get("speedKn"@) == Some(JsonView::Knots(s.speed))
    &&& j.get("dirDeg"@) == (match s.from_deg {
        Some(d) => Some(JsonView::Count(degrees(d))),
        None => None::<JsonView>,
    })
    &&& j.get("gustKn"@) == knots_if(s.gust)
}

proof fn lemma_station_names()
    ensures
        "id"@ != "name"@ && "id"@ != "lat"@ && "id"@ != "lon"@ && "id"@ != "time"@ && "id"@
            != "speedKn"@ && "id"@ != "dirDeg"@ && "id"@ != "gustKn"@,
        "name"@ != "lat"@ && "name"@ != "lon"@ && "name"@ != "time"@ && "name"@ != "speedKn"@
            && "name"@ != "dirDeg"@ && "name"@ != "gustKn"@,
        "lat"@ != "lon"@ && "lat"@ != "time"@ && "lat"@ != "speedKn"@ && "lat"@ != "dirDeg"@
            && "lat"@ != "gustKn"@,
        "lon"@ != "time"@ && "lon"@ != "speedKn"@ && "lon"@ != "dirDeg"@ && "lon"@ != "gustKn"@,
        "time"@ != "speedKn"@ && "time"@ != "dirDeg"@ && "time"@ != "gustKn"@,
        "speedKn"@ != "dirDeg"@ && "speedKn"@ != "gustKn"@,
        "dirDeg"@ != "gustKn"@,
{
    reveal_strlit("id");
    reveal_strlit("name");
    reveal_strlit("lat");
    reveal_strlit("lon");
    reveal_strlit("time");
    lemma_sample_names();
    reveal_strlit("speedKn");
    reveal_strlit("dirDeg");
    reveal_strlit("gustKn");
    assert("id"@.len() == 2 && "name"@.len() == 4 && "lat"@.len() == 3 && "lon"@.len() == 3
        && "time"@.len() == 4 && "speedKn"@.len() == 7 && "dirDeg"@.len() == 6 && "gustKn"@.len()
        == 6);
    assert("lat"@[1] == 'a' && "lon"@[1] == 'o' && "name"@[0] == 'n' && "time"@[0] == 't');
}

/// A station's message tells its report.
#[verifier::spinoff_prover]
pub proof fn law_a_station_is_told_as_it_reported(s: StationView)
    ensures
        tells_station(station_json(s), s),
{
    lemma_station_names();
    let all = station_json(s)->Object_0;
    let n = if s.name is Some {
        1int
    } else {
        0
    };
    let d = if s.from_deg is Some {
        1int
    } else {
        0
    };
    lemma_found(all, 0);
    if s.name is Some {
        assert(all[1] == ("name"@, JsonView::Text(s.name->0)));
        lemma_found(all, 1);
    } else {
        lemma_absent(all, "name"@);
    }
    assert(all[1 + n] == ("lat"@, JsonView::Exact(s.lat)));
    lemma_found(all, 1 + n);
    assert(all[2 + n] == ("lon"@, JsonView::Exact(s.lon)));
    lemma_found(all, 2 + n);
    assert(all[3 + n] == ("time"@, JsonView::Text(time::iso_text(s.time))));
    lemma_found(all, 3 + n);
    assert(all[4 + n] == ("speedKn"@, JsonView::Knots(s.speed)));
    lemma_found(all, 4 + n);
    if s.from_deg is Some {
        assert(all[5 + n] == ("dirDeg"@, JsonView::Count(degrees(s.from_deg->0))));
        lemma_found(all, 5 + n);
    } else {
        lemma_absent(all, "dirDeg"@);
    }
    if s.gust is Some {
        assert(all[5 + n + d] == ("gustKn"@, JsonView::Knots(s.gust->0)));
        lemma_found(all, 5 + n + d);
    } else {
        lemma_absent(all, "gustKn"@);
    }
}

/// Whether a report is to be listed: inside the region, at most 2 hours old, and
/// at most a quarter of an hour ahead.
pub open spec fn listed(s: StationView, region: RegionView, now: int) -> bool {
    &&& worth(region.south) <= worth(s.lat) <= worth(region.north)
    &&& worth(region.west) <= worth(s.lon) <= worth(region.east)
    &&& now - 2 * 60 * 60 <= s.time <= now + 15 * 60
}

proof fn lemma_showing(list: Seq<StationView>, region: RegionView, now: int, n: int)
    requires
        0 <= n <= list.len() <= usize::MAX,
    ensures
        ({
            let v = showing_below(list, region, now, n);
            &&& forall|k: int| 0 <= k < v.len() ==> (#[trigger] v[k]) < n && listed(
                list[v[k] as int],
                region,
                now,
            )
            &&& forall|a: int, b: int| 0 <= a < b < v.len() ==> (#[trigger] v[a]) < (#[trigger] v[b])
            &&& forall|i: int|
                0 <= i < n && listed(#[trigger] list[i], region, now) ==> v.contains(i as usize)
        }),
    decreases n,
{
    if n > 0 {
        lemma_showing(list, region, now, n - 1);
        let before = showing_below(list, region, now, n - 1);
        let v = showing_below(list, region, now, n);
        assert forall|i: int| 0 <= i < n && listed(#[trigger] list[i], region, now) implies v.contains(
            i as usize,
        ) by {
            if i < n - 1 {
                let k = choose|k: int| 0 <= k < before.len() && before[k] == i as usize;
                assert(v[k] == i as usize);
            } else {
                assert(v.last() == (n - 1) as usize);
            }
        }
    }
}

/// The stations a message lists are just those with a report inside the region
/// that is new enough, in order, each told as it reported.
pub proof fn law_the_stations_listed_are_the_regions(s: StationsView, region: RegionView, now: int)
    requires
        s.reports.len() <= usize::MAX,
    ensures
        stations_json(s, region, now).get("stations"@) matches Some(JsonView::List(list)) && {
            let picked = showing_below(s.reports, region, now, s.reports.len() as int);
            &&& list.len() == picked.len()
            &&& forall|k: int|
                0 <= k < list.len() ==> (#[trigger] picked[k]) < s.reports.len() && listed(
                    s.reports[picked[k] as int],
                    region,
                    now,
                ) && tells_station(list[k], s.reports[picked[k] as int])
            &&& forall|a: int, b: int|
                0 <= a < b < picked.len() ==> (#[trigger] picked[a]) < (#[trigger] picked[b])
            &&& forall|i: int|
                0 <= i < s.reports.len() && listed(#[trigger] s.reports[i], region, now)
                    ==> picked.contains(i as usize)
        },
        stations_json(s, region, now).get("source"@) == Some(JsonView::Text("NDBC"@)),
        stations_json(s, region, now).get("status"@) == Some(
            JsonView::Text(
                match s.status {
                    StationStatus::Off => "off"@,
                    StationStatus::Waiting => "waiting"@,
                    StationStatus::Answered => "ok"@,
                    StationStatus::Error => "error"@,
                },
            ),
        ),
        stations_json(s, region, now).get("checked"@) == (match s.checked {
            Some(t) => Some(JsonView::Text(time::iso_text(t as int))),
            None => None::<JsonView>,
        }),
        stations_json(s, region, now).get("message"@) == (if s.status is Error {
            text_if(s.message)
        } else {
            None
        }),
{
    reveal_strlit("type");
    reveal_strlit("v");
    reveal_strlit("source");
    reveal_strlit("status");
    reveal_strlit("message");
    reveal_strlit("checked");
    reveal_strlit("stations");
    assert("type"@.len() == 4 && "v"@.len() == 1 && "source"@.len() == 6 && "status"@.len() == 6
        && "message"@.len() == 7 && "checked"@.len() == 7 && "stations"@.len() == 8);
    assert("source"@[1] == 'o' && "status"@[1] == 't' && "message"@[0] == 'm' && "checked"@[0]
        == 'c');
    let all = stations_json(s, region, now)->Object_0;
    let picked = showing_below(s.reports, region, now, s.reports.len() as int);
    lemma_showing(s.reports, region, now, s.reports.len() as int);
    let list = picked_json(s.reports, picked);
    assert forall|k: int| 0 <= k < list.len() implies (#[trigger] picked[k]) < s.reports.len()
        && tells_station(list[k], s.reports[picked[k] as int]) by {
        law_a_station_is_told_as_it_reported(s.reports[picked[k] as int]);
    }
    let m = if s.status is Error && s.message is Some {
        1int
    } else {
        0
    };
    let c = if s.checked is Some {
        1int
    } else {
        0
    };
    lemma_found(all, 2);
    lemma_found(all, 3);
    if m == 1 {
        assert(all[4] == ("message"@, JsonView::Text(s.message->0)));
        lemma_found(all, 4);
    } else {
        lemma_absent(all, "message"@);
    }
    if c == 1 {
        assert(all[4 + m] == ("checked"@, JsonView::Text(time::iso_text(s.checked->0 as int))));
        lemma_found(all, 4 + m);
    } else {
        lemma_absent(all, "checked"@);
    }
    assert(all[4 + m + c] == ("stations"@, JsonView::List(list)));
    lemma_found(all, 4 + m + c);
}

// --- Requests and answers --------------------------------------------------------------

/// Whether a request's member of a name is this number.
pub open spec fn says_number(m: JsonView, key: Seq<char>, bits: u64) -> bool {
    m.get(key) matches Some(JsonView::Number(n)) && n.float == Some(bits) && finite64(bits)
}

/// Whether a request is for a time: the one it says, or now when it says none.
pub open spec fn says_time(m: JsonView, now: int, t: int) -> bool {
    match m.get("time"@) {
        None => t == now,
        Some(JsonView::Text(s)) => time::iso_value(s) == Some(t),
        Some(_) => false,
    }
}

/// Whether a request asks for so many points at most: as many as it says, from 1
/// to 2000, or 400 when it doesn't say.
pub open spec fn says_max(m: JsonView, max: nat) -> bool {
    match m.get("max"@) {
        None => max == 400,
        Some(JsonView::Number(n)) => n.unsigned == Some(max as u64) && 1 <= max <= 2000,
        Some(_) => false,
    }
}

/// Whether a forecast covers a time.
pub open spec fn covers(f: Option<ForecastView>, t: int) -> bool {
    f matches Some(f) && f.hours.len() > 0 && f.hours[0].valid <= t <= f.hours[f.hours.len()
        - 1].valid
}

/// Whether a request is one for the wind across an area, at a time, in so many
/// points at most, and can be answered.
pub open spec fn asks_for_field(
    f: Option<ForecastView>,
    m: JsonView,
    now: int,
    area: RegionView,
    t: int,
    max: nat,
) -> bool {
    &&& m.get("type"@) == Some(JsonView::Text("field"@))
    &&& says_number(m, "south"@, area.south) && says_number(m, "west"@, area.west)
    &&& says_number(m, "north"@, area.north) && says_number(m, "east"@, area.east)
    &&& worth(area.south) < worth(area.north) && worth(area.west) < worth(area.east)
    &&& says_time(m, now, t) && says_max(m, max) && covers(f, t)
}

/// Whether a request is one for the forecast at a place and time, and can be
/// answered.
pub open spec fn asks_for_point(
    f: Option<ForecastView>,
    m: JsonView,
    now: int,
    lat: u64,
    lon: u64,
    t: int,
) -> bool {
    &&& m.get("type"@) == Some(JsonView::Text("point"@))
    &&& says_number(m, "lat"@, lat) && says_number(m, "lon"@, lon)
    &&& says_time(m, now, t) && covers(f, t)
}

proof fn lemma_kinds()
    ensures
        "field"@ != "point"@,
{
    reveal_strlit("field");
    reveal_strlit("point");
    assert("field"@[0] == 'f' && "point"@[0] == 'p');
}

/// A `field` request is taken at its word: its area is the four numbers it
/// gives by name, its time and its most points those it says; and every such
/// request is answered.
pub proof fn law_a_field_request_is_taken_at_its_word(
    f: Option<ForecastView>,
    m: JsonView,
    now: int,
    area: RegionView,
    t: int,
    max: nat,
)
    requires
        f matches Some(f) ==> f.hours.len() > 0,
    ensures
        ask_of(f, m, now) == Ok::<AskView, Seq<char>>(AskView::Field(area, t, max))
            <==> asks_for_field(f, m, now, area, t, max),
{
    lemma_kinds();
}

/// A `point` request is taken at its word, and every such request is answered.
pub proof fn law_a_point_request_is_taken_at_its_word(
    f: Option<ForecastView>,
    m: JsonView,
    now: int,
    lat: u64,
    lon: u64,
    t: int,
)
    requires
        f matches Some(f) ==> f.hours.len() > 0,
    ensures
        ask_of(f, m, now) == Ok::<AskView, Seq<char>>(AskView::Point(lat, lon, t))
            <==> asks_for_point(f, m, now, lat, lon, t),
{
    lemma_kinds();
}

proof fn lemma_answer_names()
    ensures
        "type"@ != "v"@ && "type"@ != "time"@ && "type"@ != "run"@ && "type"@ != "step"@ && "type"@
            != "points"@ && "type"@ != "lat"@ && "type"@ != "lon"@,
        "v"@ != "time"@ && "v"@ != "run"@ && "v"@ != "step"@ && "v"@ != "points"@ && "v"@ != "lat"@
            && "v"@ != "lon"@,
        "time"@ != "run"@ && "time"@ != "step"@ && "time"@ != "points"@ && "time"@ != "lat"@
            && "time"@ != "lon"@,
        "run"@ != "step"@ && "run"@ != "points"@ && "run"@ != "lat"@ && "run"@ != "lon"@,
        "step"@ != "points"@ && "lat"@ != "lon"@,
        "note"@ != "type"@ && "note"@ != "v"@ && "note"@ != "lat"@ && "note"@ != "lon"@ && "note"@
            != "time"@ && "note"@ != "run"@ && "note"@ != "id"@ && "note"@ != "speedKn"@ && "note"@
            != "dirDeg"@ && "note"@ != "gustKn"@ && "note"@ != "pressureHpa"@,
{
    reveal_strlit("type");
    reveal_strlit("v");
    reveal_strlit("time");
    reveal_strlit("run");
    reveal_strlit("step");
    reveal_strlit("points");
    reveal_strlit("lat");
    reveal_strlit("lon");
    reveal_strlit("note");
    reveal_strlit("id");
    reveal_strlit("speedKn");
    reveal_strlit("dirDeg");
    reveal_strlit("gustKn");
    reveal_strlit("pressureHpa");
    assert("type"@.len() == 4 && "v"@.len() == 1 && "time"@.len() == 4 && "run"@.len() == 3
        && "step"@.len() == 4 && "points"@.len() == 6 && "lat"@.len() == 3 && "lon"@.len() == 3
        && "note"@.len() == 4 && "id"@.len() == 2 && "speedKn"@.len() == 7 && "dirDeg"@.len() == 6
        && "gustKn"@.len() == 6 && "pressureHpa"@.len() == 11);
    assert("type"@[1] == 'y' && "time"@[1] == 'i' && "step"@[1] == 't' && "note"@[1] == 'o');
    assert("run"@[0] == 'r' && "lat"@[1] == 'a' && "lon"@[1] == 'o' && "lat"@[0] == 'l'
        && "lon"@[0] == 'l');
}

/// A sample's fields go by none of these names.
proof fn lemma_other_names()
    ensures
        "type"@ != "speedKn"@ && "type"@ != "dirDeg"@ && "type"@ != "gustKn"@ && "type"@
            != "pressureHpa"@,
        "v"@ != "speedKn"@ && "v"@ != "dirDeg"@ && "v"@ != "gustKn"@ && "v"@ != "pressureHpa"@,
        "time"@ != "speedKn"@ && "time"@ != "dirDeg"@ && "time"@ != "gustKn"@ && "time"@
            != "pressureHpa"@,
        "run"@ != "speedKn"@ && "run"@ != "dirDeg"@ && "run"@ != "gustKn"@ && "run"@
            != "pressureHpa"@,
        "lat"@ != "speedKn"@ && "lat"@ != "dirDeg"@ && "lat"@ != "gustKn"@ && "lat"@
            != "pressureHpa"@,
        "lon"@ != "speedKn"@ && "lon"@ != "dirDeg"@ && "lon"@ != "gustKn"@ && "lon"@
            != "pressureHpa"@,
        "id"@ != "speedKn"@ && "id"@ != "dirDeg"@ && "id"@ != "gustKn"@ && "id"@ != "pressureHpa"@,
        "at"@ != "speedKn"@ && "at"@ != "dirDeg"@ && "at"@ != "gustKn"@ && "at"@ != "pressureHpa"@,
        "stale"@ != "speedKn"@ && "stale"@ != "dirDeg"@ && "stale"@ != "gustKn"@ && "stale"@
            != "pressureHpa"@,
{
    reveal_strlit("type");
    reveal_strlit("v");
    reveal_strlit("time");
    reveal_strlit("run");
    reveal_strlit("lat");
    reveal_strlit("lon");
    reveal_strlit("id");
    reveal_strlit("at");
    reveal_strlit("stale");
    reveal_strlit("speedKn");
    reveal_strlit("dirDeg");
    reveal_strlit("gustKn");
    reveal_strlit("pressureHpa");
    assert("type"@.len() == 4 && "v"@.len() == 1 && "time"@.len() == 4 && "run"@.len() == 3
        && "lat"@.len() == 3 && "lon"@.len() == 3 && "id"@.len() == 2 && "at"@.len() == 2
        && "stale"@.len() == 5 && "speedKn"@.len() == 7 && "dirDeg"@.len() == 6 && "gustKn"@.len()
        == 6 && "pressureHpa"@.len() == 11);
}

/// A field's answer tells its run, time and step, and each of its points: where
/// it is, to 4 places, and the forecast there.
#[verifier::spinoff_prover]
pub proof fn law_a_field_is_told_point_by_point(
    m: JsonView,
    run: int,
    t: int,
    step: nat,
    points: Seq<Point>,
)
    ensures
        ({
            let j = field_json(m, run, t, step, points);
            &&& j.get("type"@) == Some(JsonView::Text("field"@))
            &&& j.get("v"@) == Some(JsonView::Count(1))
            &&& j.get("time"@) == Some(JsonView::Text(time::iso_text(t)))
            &&& j.get("run"@) == Some(JsonView::Text(time::iso_text(run)))
            &&& j.get("step"@) == Some(JsonView::Count(step))
            &&& j.get("points"@) matches Some(JsonView::List(list)) && list.len() == points.len()
                && forall|i: int|
                0 <= i < points.len() ==> {
                    &&& (#[trigger] list[i]).get("lat"@) == Some(
                        JsonView::Rounded(points[i].lat@, 4),
                    )
                    &&& list[i].get("lon"@) == Some(JsonView::Rounded(points[i].lon@, 4))
                    &&& tells_sample(list[i], points[i].sample@)
                }
        }),
{
    lemma_answer_names();
    lemma_other_names();
    let all = field_json(m, run, t, step, points)->Object_0;
    lemma_found(all, 0);
    lemma_found(all, 1);
    lemma_found(all, 2);
    lemma_found(all, 3);
    lemma_found(all, 4);
    lemma_found(all, 5);
    let list = points_json(points);
    assert forall|i: int| 0 <= i < points.len() implies {
        &&& (#[trigger] list[i]).get("lat"@) == Some(JsonView::Rounded(points[i].lat@, 4))
        &&& list[i].get("lon"@) == Some(JsonView::Rounded(points[i].lon@, 4))
        &&& tells_sample(list[i], points[i].sample@)
    } by {
        let p = points[i];
        let head = seq![
            ("lat"@, JsonView::Rounded(p.lat@, 4)),
            ("lon"@, JsonView::Rounded(p.lon@, 4)),
        ];
        let one = list[i]->Object_0;
        lemma_sample_told(head, p.sample@, seq![]);
        assert(head + p.sample@.fields() + Seq::<(Seq<char>, JsonView)>::empty() =~= one);
        assert(one[0] == head[0] && one[1] == head[1]);
        lemma_found(one, 0);
        lemma_found(one, 1);
    }
}

/// A point's answer tells its run, time and place, and the forecast there, or
/// else why there is none.
#[verifier::spinoff_prover]
pub proof fn law_a_point_is_told(
    m: JsonView,
    run: int,
    lat: u64,
    lon: u64,
    t: int,
    sample: Option<SampleView>,
)
    ensures
        ({
            let j = point_reply_json(m, run, lat, lon, t, sample);
            &&& j.get("lat"@) == Some(JsonView::Exact(lat))
            &&& j.get("lon"@) == Some(JsonView::Exact(lon))
            &&& j.get("time"@) == Some(JsonView::Text(time::iso_text(t)))
            &&& j.get("run"@) == Some(JsonView::Text(time::iso_text(run)))
            &&& sample matches Some(s) ==> tells_sample(j, s)
            &&& sample is None ==> j.get("note"@) is Some && j.get("speedKn"@) is None && j.get(
                "dirDeg"@,
            ) is None
        }),
{
    let head = message("point"@) + seq![
        ("lat"@, JsonView::Exact(lat)),
        ("lon"@, JsonView::Exact(lon)),
        ("time"@, JsonView::Text(time::iso_text(t))),
        ("run"@, JsonView::Text(time::iso_text(run))),
    ];
    let middle = match sample {
        Some(s) => s.fields(),
        None => seq![("note"@, JsonView::Text("the point is outside the forecast area"@))],
    };
    let rest = middle + id_field(m);
    let all = point_reply_json(m, run, lat, lon, t, sample)->Object_0;
    assert(all =~= head + rest);
    assert(all =~= head + middle + id_field(m));
    assert(no_sample_in(head)) by {
        lemma_other_names();
    }
    assert(no_sample_in(id_field(m))) by {
        lemma_other_names();
    }
    assert(field_named(all, "lat"@) == Some(JsonView::Exact(lat)) && field_named(all, "lon"@)
        == Some(JsonView::Exact(lon)) && field_named(all, "time"@) == Some(
        JsonView::Text(time::iso_text(t)),
    ) && field_named(all, "run"@) == Some(JsonView::Text(time::iso_text(run)))) by {
        lemma_answer_names();
        lemma_in_front(head, rest, 2);
        lemma_in_front(head, rest, 3);
        lemma_in_front(head, rest, 4);
        lemma_in_front(head, rest, 5);
    }
    match sample {
        Some(s) => lemma_sample_told(head, s, id_field(m)),
        None => {
            assert(field_named(all, "note"@) is Some) by {
                lemma_answer_names();
                lemma_field_after(head, rest, "note"@);
                assert(rest[0] == middle[0]);
                lemma_found(rest, 0);
            }
            lemma_sample_untold(head, middle, id_field(m));
        },
    }
}

/// Without a sample, its parts are told nowhere.
proof fn lemma_sample_untold(
    a: Seq<(Seq<char>, JsonView)>,
    b: Seq<(Seq<char>, JsonView)>,
    c: Seq<(Seq<char>, JsonView)>,
)
    requires
        no_sample_in(a),
        no_sample_in(c),
        b.len() == 1,
        b[0].0 == "note"@,
    ensures
        field_named(a + b + c, "speedKn"@) is None,
        field_named(a + b + c, "dirDeg"@) is None,
        field_named(a + b + c, "gustKn"@) is None,
        field_named(a + b + c, "pressureHpa"@) is None,
{
    lemma_answer_names();
    let all = a + b + c;
    assert forall|i: int| 0 <= i < all.len() implies (#[trigger] all[i]).0 != "speedKn"@
        && all[i].0 != "dirDeg"@ && all[i].0 != "gustKn"@ && all[i].0 != "pressureHpa"@ by {
        if i < a.len() {
            assert(all[i] == a[i]);
        } else if i == a.len() {
            assert(all[i] == b[0]);
        } else {
            assert(all[i] == c[i - a.len() - 1]);
        }
    }
    lemma_absent(all, "speedKn"@);
    lemma_absent(all, "dirDeg"@);
    lemma_absent(all, "gustKn"@);
    lemma_absent(all, "pressureHpa"@);
}

// --- The state -------------------------------------------------------------------------

proof fn lemma_state_names()
    ensures
        "type"@ != "v"@ && "type"@ != "forecast"@ && "type"@ != "fetch"@ && "type"@ != "keel"@
            && "type"@ != "here"@ && "type"@ != "outlook"@ && "type"@ != "problems"@,
        "v"@ != "forecast"@ && "v"@ != "fetch"@ && "v"@ != "keel"@ && "v"@ != "here"@ && "v"@
            != "outlook"@ && "v"@ != "problems"@,
        "forecast"@ != "fetch"@ && "forecast"@ != "keel"@ && "forecast"@ != "here"@ && "forecast"@
            != "outlook"@ && "forecast"@ != "problems"@,
        "fetch"@ != "keel"@ && "fetch"@ != "here"@ && "fetch"@ != "outlook"@ && "fetch"@
            != "problems"@,
        "keel"@ != "here"@ && "keel"@ != "outlook"@ && "keel"@ != "problems"@,
        "here"@ != "outlook"@ && "here"@ != "problems"@,
        "outlook"@ != "problems"@,
{
    reveal_strlit("type");
    reveal_strlit("v");
    reveal_strlit("forecast");
    reveal_strlit("fetch");
    reveal_strlit("keel");
    reveal_strlit("here");
    reveal_strlit("outlook");
    reveal_strlit("problems");
    assert("type"@.len() == 4 && "v"@.len() == 1 && "forecast"@.len() == 8 && "fetch"@.len() == 5
        && "keel"@.len() == 4 && "here"@.len() == 4 && "outlook"@.len() == 7 && "problems"@.len()
        == 8);
    assert("type"@[0] == 't' && "keel"@[0] == 'k' && "here"@[0] == 'h' && "forecast"@[0] == 'f'
        && "problems"@[0] == 'p');
}

/// The parts of a state message, by name.
#[verifier::spinoff_prover]
proof fn lemma_state_json(
    forecast: JsonView,
    fetch: JsonView,
    keel: Seq<char>,
    here: JsonView,
    ahead: JsonView,
    problems: Seq<JsonView>,
)
    ensures
        ({
            let j = state_json(forecast, fetch, keel, here, ahead, problems);
            &&& j.get("forecast"@) == Some(forecast)
            &&& j.get("fetch"@) == Some(fetch)
            &&& j.get("keel"@) == Some(JsonView::Text(keel))
            &&& j.get("here"@) == Some(here)
            &&& j.get("outlook"@) == Some(ahead)
            &&& j.get("problems"@) == (if problems.len() > 0 {
                Some(JsonView::List(problems))
            } else {
                None
            })
        }),
{
    let head = message("state"@) + seq![
        ("forecast"@, forecast),
        ("fetch"@, fetch),
        ("keel"@, JsonView::Text(keel)),
        ("here"@, here),
        ("outlook"@, ahead),
    ];
    let rest = if problems.len() > 0 {
        seq![("problems"@, JsonView::List(problems))]
    } else {
        seq![]
    };
    let all = state_json(forecast, fetch, keel, here, ahead, problems)->Object_0;
    assert(all =~= head + rest);
    lemma_state_names();
    lemma_in_front(head, rest, 2);
    lemma_in_front(head, rest, 3);
    lemma_in_front(head, rest, 4);
    lemma_in_front(head, rest, 5);
    lemma_in_front(head, rest, 6);
    lemma_field_after(head, rest, "problems"@);
    if problems.len() > 0 {
        lemma_found(rest, 0);
    }
}

/// The parts of a state message, by name.
#[verifier::spinoff_prover]
proof fn lemma_state_parts(
    w: WindView,
    now: int,
    sample: Option<SampleView>,
    ever: bool,
    samples: Seq<Option<SampleView>>,
)
    ensures
        ({
            let j = w.state(now, sample, ever, samples);
            let t = minute(now);
            &&& j.get("forecast"@) == Some(forecast_json(w.forecast, w.settings.region, t))
            &&& j.get("fetch"@) == Some(fetch_json(w.fetch))
            &&& j.get("keel"@) == Some(JsonView::Text(keel_word(w.keel)))
            &&& j.get("here"@) == Some(w.here_json(t, sample, ever))
            &&& j.get("outlook"@) == Some(JsonView::List(outlook(w.forecast, t, samples)))
            &&& j.get("problems"@) == (if w.all_problems().len() > 0 {
                Some(JsonView::List(texts(w.all_problems())))
            } else {
                None
            })
        }),
{
    let t = minute(now);
    lemma_state_json(
        forecast_json(w.forecast, w.settings.region, t),
        fetch_json(w.fetch),
        keel_word(w.keel),
        w.here_json(t, sample, ever),
        JsonView::List(outlook(w.forecast, t, samples)),
        texts(w.all_problems()),
    );
}

/// An hour of the outlook tells its time and the forecast then.
pub open spec fn tells_hour(j: JsonView, valid: int, s: SampleView) -> bool {
    j.get("time"@) == Some(JsonView::Text(time::iso_text(valid))) && tells_sample(j, s)
}

proof fn lemma_hour_told(valid: int, s: SampleView)
    ensures
        tells_hour(hour_json(valid, s), valid, s),
{
    lemma_other_names();
    let head = seq![("time"@, JsonView::Text(time::iso_text(valid)))];
    let all = hour_json(valid, s)->Object_0;
    lemma_sample_told(head, s, seq![]);
    assert(head + s.fields() + Seq::<(Seq<char>, JsonView)>::empty() =~= all);
    assert(all[0] == head[0]);
    lemma_found(all, 0);
}

#[verifier::spinoff_prover]
proof fn lemma_outlook(f: ForecastView, now: int, samples: Seq<Option<SampleView>>, first: int, n: int)
    requires
        0 <= first,
        0 <= n <= f.hours.len() == samples.len(),
        forall|i: int| 0 <= i < f.hours.len() ==> (#[trigger] f.hours[i]).valid == f.run + i * 3600,
        forall|i: int| 0 <= i < samples.len() ==> (#[trigger] samples[i]) is Some,
        f.run + first * 3600 <= now < f.run + (first + 1) * 3600,
    ensures
        ({
            let v = outlook_below(f, now, samples, n);
            &&& v.len() == (if n > first {
                n - first
            } else {
                0
            })
            &&& forall|k: int|
                0 <= k < v.len() ==> tells_hour(
                    #[trigger] v[k],
                    f.run + (first + k) * 3600,
                    samples[first + k]->0,
                )
        }),
    decreases n,
{
    if n > 0 {
        lemma_outlook(f, now, samples, first, n - 1);
        let valid = f.hours[n - 1].valid;
        assert(samples[n - 1] is Some);
        lemma_hour_told(valid, samples[n - 1]->0);
    }
}

/// While a forecast covers now, to the minute, and has a sample at each hour, the outlook runs
/// hour by hour from the hour under way, the last one begun, to the run's last.
#[verifier::spinoff_prover]
pub proof fn law_the_outlook_starts_with_the_hour_under_way(
    w: WindView,
    now: int,
    sample: Option<SampleView>,
    ever: bool,
    samples: Seq<Option<SampleView>>,
    first: int,
)
    requires
        w.forecast matches Some(f) && f.sound() && f.hours.len() == samples.len(),
        forall|i: int| 0 <= i < samples.len() ==> (#[trigger] samples[i]) is Some,
        0 <= first < samples.len(),
        w.forecast->0.hours[first].valid <= now - now % 60,
        now < w.forecast->0.hours[first].valid + 60 * 60,
    ensures
        w.state(now, sample, ever, samples).get("outlook"@) matches Some(JsonView::List(v)) && {
            &&& v.len() == samples.len() - first
            &&& forall|k: int|
                0 <= k < v.len() ==> tells_hour(
                    #[trigger] v[k],
                    w.forecast->0.hours[first].valid + k * 3600,
                    samples[first + k]->0,
                )
        },
{
    lemma_state_parts(w, now, sample, ever, samples);
    let f = w.forecast->0;
    let t = minute(now);
    assert(f.hours[first].valid == f.run + first * 3600);
    lemma_outlook(f, t, samples, first, f.hours.len() as int);
    let v = outlook(w.forecast, t, samples);
    assert forall|k: int| 0 <= k < v.len() implies tells_hour(
        #[trigger] v[k],
        f.hours[first].valid + k * 3600,
        samples[first + k]->0,
    ) by {
        assert(f.run + (first + k) * 3600 == f.hours[first].valid + k * 3600);
    }
}

/// Whether an entry tells one of the forecast's first `n` hours, one with a
/// sample that isn't over.
pub open spec fn tells_an_hour_ahead(
    j: JsonView,
    f: ForecastView,
    now: int,
    samples: Seq<Option<SampleView>>,
    n: int,
) -> bool {
    exists|i: int|
        0 <= i < n && samples[i] is Some && now < f.hours[i].valid + 60 * 60
            && #[trigger] tells_hour(j, f.hours[i].valid, samples[i]->0)
}

proof fn lemma_outlook_is_ahead(
    f: ForecastView,
    now: int,
    samples: Seq<Option<SampleView>>,
    n: int,
)
    requires
        0 <= n <= f.hours.len() == samples.len(),
    ensures
        forall|k: int|
            0 <= k < outlook_below(f, now, samples, n).len() ==> tells_an_hour_ahead(
                #[trigger] outlook_below(f, now, samples, n)[k],
                f,
                now,
                samples,
                n,
            ),
    decreases n,
{
    if n > 0 {
        lemma_outlook_is_ahead(f, now, samples, n - 1);
        let before = outlook_below(f, now, samples, n - 1);
        let v = outlook_below(f, now, samples, n);
        if samples[n - 1] is Some {
            lemma_hour_told(f.hours[n - 1].valid, samples[n - 1]->0);
        }
        assert forall|k: int| 0 <= k < v.len() implies tells_an_hour_ahead(
            #[trigger] v[k],
            f,
            now,
            samples,
            n,
        ) by {
            if k < before.len() {
                assert(v[k] == before[k]);
                assert(tells_an_hour_ahead(before[k], f, now, samples, n - 1));
                let i = choose|i: int|
                    0 <= i < n - 1 && samples[i] is Some && now < f.hours[i].valid + 60 * 60
                        && #[trigger] tells_hour(before[k], f.hours[i].valid, samples[i]->0);
                assert(tells_hour(v[k], f.hours[i].valid, samples[i]->0));
            } else {
                assert(tells_hour(v[k], f.hours[n - 1].valid, samples[n - 1]->0));
            }
        }
    }
}

/// Every hour of the outlook is one of the forecast's with a sample, told as it
/// is, and isn't over yet.
pub proof fn law_the_outlook_is_of_hours_not_over(
    w: WindView,
    now: int,
    sample: Option<SampleView>,
    ever: bool,
    samples: Seq<Option<SampleView>>,
)
    requires
        w.forecast matches Some(f) && f.hours.len() == samples.len(),
    ensures
        w.state(now, sample, ever, samples).get("outlook"@) matches Some(JsonView::List(v))
            && forall|k: int|
            0 <= k < v.len() ==> tells_an_hour_ahead(
                #[trigger] v[k],
                w.forecast->0,
                now - now % 60,
                samples,
                samples.len() as int,
            ),
{
    lemma_state_parts(w, now, sample, ever, samples);
    lemma_outlook_is_ahead(w.forecast->0, minute(now), samples, samples.len() as int);
}

proof fn lemma_here_names()
    ensures
        "at"@ != "stale"@ && "at"@ != "lat"@ && "at"@ != "lon"@ && "at"@ != "time"@ && "at"@
            != "note"@,
        "stale"@ != "lat"@ && "stale"@ != "lon"@ && "stale"@ != "time"@ && "stale"@ != "note"@,
        "lat"@ != "lon"@ && "lat"@ != "time"@ && "lat"@ != "note"@,
        "lon"@ != "time"@ && "lon"@ != "note"@ && "time"@ != "note"@,
{
    lemma_answer_names();
    reveal_strlit("at");
    reveal_strlit("stale");
    reveal_strlit("lat");
    reveal_strlit("lon");
    reveal_strlit("time");
    reveal_strlit("note");
    assert("at"@.len() == 2 && "stale"@.len() == 5 && "lat"@.len() == 3 && "lon"@.len() == 3
        && "time"@.len() == 4 && "note"@.len() == 4);
}

/// How what is said of here begins.
spec fn here_head(word: Seq<char>, stale: bool, lat: u64, lon: u64, t: int) -> Seq<
    (Seq<char>, JsonView),
> {
    let old: Seq<(Seq<char>, JsonView)> = if stale {
        seq![("stale"@, JsonView::Bool(true))]
    } else {
        seq![]
    };
    seq![("at"@, JsonView::Text(word))] + old + seq![
        ("lat"@, JsonView::Rounded(lat, 5)),
        ("lon"@, JsonView::Rounded(lon, 5)),
        ("time"@, JsonView::Text(time::iso_text(t))),
    ]
}

#[verifier::spinoff_prover]
proof fn lemma_here_head(
    word: Seq<char>,
    stale: bool,
    lat: u64,
    lon: u64,
    t: int,
    rest: Seq<(Seq<char>, JsonView)>,
)
    requires
        forall|i: int| 0 <= i < rest.len() ==> (#[trigger] rest[i]).0 != "stale"@,
    ensures
        ({
            let head = here_head(word, stale, lat, lon, t);
            let all = head + rest;
            &&& field_named(all, "at"@) == Some(JsonView::Text(word))
            &&& field_named(all, "stale"@) == (if stale {
                Some(JsonView::Bool(true))
            } else {
                None
            })
            &&& field_named(all, "lat"@) == Some(JsonView::Rounded(lat, 5))
            &&& field_named(all, "lon"@) == Some(JsonView::Rounded(lon, 5))
            &&& field_named(all, "time"@) == Some(JsonView::Text(time::iso_text(t)))
            &&& field_named(all, "note"@) == field_named(rest, "note"@)
            &&& no_sample_in(head)
        }),
{
    lemma_here_names();
    lemma_other_names();
    let head = here_head(word, stale, lat, lon, t);
    let s = if stale {
        1int
    } else {
        0
    };
    lemma_in_front(head, rest, 0);
    assert(head[1 + s] == ("lat"@, JsonView::Rounded(lat, 5)));
    lemma_in_front(head, rest, 1 + s);
    assert(head[2 + s] == ("lon"@, JsonView::Rounded(lon, 5)));
    lemma_in_front(head, rest, 2 + s);
    assert(head[3 + s] == ("time"@, JsonView::Text(time::iso_text(t))));
    lemma_in_front(head, rest, 3 + s);
    if stale {
        assert(head[1] == ("stale"@, JsonView::Bool(true)));
        lemma_in_front(head, rest, 1);
    } else {
        lemma_field_after(head, rest, "stale"@);
        lemma_absent(rest, "stale"@);
    }
    lemma_field_after(head, rest, "note"@);
}

/// Whether an object tells here: the boat's place when there is a boat, else
/// home's, to 5 places; the time; the forecast, or else a note and no numbers.
pub open spec fn tells_here(j: JsonView, w: WindView, t: int, sample: Option<SampleView>) -> bool {
            let at = match w.boat {
                Some(b) => (b.lat, b.lon),
                None => w.settings.home,
            };
            &&& j.get("at"@) == Some(
                JsonView::Text(
                    if w.boat is Some {
                        "boat"@
                    } else {
                        "home"@
                    },
                ),
            )
            &&& j.get("stale"@) == (if w.boat is Some && !w.boat->0.current {
                Some(JsonView::Bool(true))
            } else {
                None
            })
            &&& j.get("lat"@) == Some(JsonView::Rounded(at.0, 5))
            &&& j.get("lon"@) == Some(JsonView::Rounded(at.1, 5))
            &&& j.get("time"@) == Some(JsonView::Text(time::iso_text(t)))
            &&& w.forecast is Some && sample is Some ==> tells_sample(j, sample->0) && j.get(
                "note"@,
            ) is None
            &&& w.forecast is None || sample is None ==> j.get("note"@) is Some && j.get(
                "speedKn"@,
            ) is None && j.get("dirDeg"@) is None
        }

#[verifier::spinoff_prover]
proof fn lemma_here_told(w: WindView, t: int, sample: Option<SampleView>, ever: bool)
    ensures
        tells_here(w.here_json(t, sample, ever), w, t, sample),
{
    let all = w.here_json(t, sample, ever)->Object_0;
    let (lat, lon) = match w.boat {
        Some(b) => (b.lat, b.lon),
        None => w.settings.home,
    };
    let stale = w.boat is Some && !w.boat->0.current;
    let word = if w.boat is Some {
        "boat"@
    } else {
        "home"@
    };
    let head = here_head(word, stale, lat, lon, t);
    let none = Seq::<(Seq<char>, JsonView)>::empty();
    if w.forecast is Some && sample is Some {
        let rest = sample->0.fields();
        assert(all =~= head + rest);
        assert(head + rest + none =~= head + rest);
        lemma_stale_names();
        lemma_here_head(word, stale, lat, lon, t, rest);
        lemma_sample_told(head, sample->0, none);
        lemma_answer_names();
        lemma_absent(rest, "note"@);
    } else {
        let rest = seq![("note"@, JsonView::Text(w.why_not(ever)))];
        assert(all =~= head + rest);
        assert(head + rest + none =~= head + rest);
        lemma_stale_names();
        lemma_here_head(word, stale, lat, lon, t, rest);
        lemma_sample_untold(head, rest, none);
        lemma_found(rest, 0);
    }
}

/// What the state says of here: the boat's place when there is a boat, else
/// home's, to 5 places; the minute; the forecast here and now, or else a note
/// and no numbers.
pub proof fn law_here_is_told(
    w: WindView,
    now: int,
    sample: Option<SampleView>,
    ever: bool,
    samples: Seq<Option<SampleView>>,
)
    ensures
        w.state(now, sample, ever, samples).get("here"@) matches Some(j) && tells_here(
            j,
            w,
            now - now % 60,
            sample,
        ),
{
    lemma_state_parts(w, now, sample, ever, samples);
    lemma_here_told(w, minute(now), sample, ever);
}

proof fn lemma_stale_names()
    ensures
        "stale"@ != "speedKn"@ && "stale"@ != "dirDeg"@ && "stale"@ != "gustKn"@ && "stale"@
            != "pressureHpa"@ && "stale"@ != "note"@,
{
    lemma_other_names();
    lemma_here_names();
}

proof fn lemma_forecast_names()
    ensures
        "status"@ != "model"@ && "status"@ != "run"@ && "status"@ != "ageMinutes"@ && "status"@
            != "first"@ && "status"@ != "last"@ && "status"@ != "hours"@ && "status"@ != "region"@,
        "model"@ != "run"@ && "model"@ != "ageMinutes"@ && "model"@ != "first"@ && "model"@
            != "last"@ && "model"@ != "hours"@ && "model"@ != "region"@,
        "run"@ != "ageMinutes"@ && "run"@ != "first"@ && "run"@ != "last"@ && "run"@ != "hours"@
            && "run"@ != "region"@,
        "ageMinutes"@ != "first"@ && "ageMinutes"@ != "last"@ && "ageMinutes"@ != "hours"@
            && "ageMinutes"@ != "region"@,
        "first"@ != "last"@ && "first"@ != "hours"@ && "first"@ != "region"@,
        "last"@ != "hours"@ && "last"@ != "region"@ && "hours"@ != "region"@,
{
    reveal_strlit("status");
    reveal_strlit("model");
    reveal_strlit("run");
    reveal_strlit("ageMinutes");
    reveal_strlit("first");
    reveal_strlit("last");
    reveal_strlit("hours");
    reveal_strlit("region");
    assert("status"@.len() == 6 && "model"@.len() == 5 && "run"@.len() == 3 && "ageMinutes"@.len()
        == 10 && "first"@.len() == 5 && "last"@.len() == 4 && "hours"@.len() == 5 && "region"@.len()
        == 6);
    assert("status"@[0] == 's' && "region"@[0] == 'r' && "model"@[0] == 'm' && "first"@[0] == 'f'
        && "hours"@[0] == 'h');
}

proof fn lemma_edge_names()
    ensures
        "south"@ != "west"@ && "south"@ != "north"@ && "south"@ != "east"@,
        "west"@ != "north"@ && "west"@ != "east"@ && "north"@ != "east"@,
{
    reveal_strlit("south");
    reveal_strlit("west");
    reveal_strlit("north");
    reveal_strlit("east");
    assert("south"@[0] == 's' && "west"@[0] == 'w' && "north"@[0] == 'n' && "east"@[0] == 'e');
}

/// Whether an object tells a region's edges by name.
pub open spec fn tells_region(j: JsonView, r: RegionView) -> bool {
    &&& j.get("south"@) == Some(JsonView::Exact(r.south))
    &&& j.get("west"@) == Some(JsonView::Exact(r.west))
    &&& j.get("north"@) == Some(JsonView::Exact(r.north))
    &&& j.get("east"@) == Some(JsonView::Exact(r.east))
}

#[verifier::spinoff_prover]
proof fn lemma_region_told(r: RegionView)
    ensures
        tells_region(region_json(r), r),
{
    lemma_edge_names();
    let all = region_json(r)->Object_0;
    lemma_found(all, 0);
    lemma_found(all, 1);
    lemma_found(all, 2);
    lemma_found(all, 3);
}

/// Whether a word says how current a forecast is at a minute: past its last
/// hour, or of a run 4 hours old or more, or neither.
pub open spec fn says_how_current(word: Seq<char>, f: ForecastView, t: int) -> bool {
    let last = f.hours[f.hours.len() - 1].valid;
    &&& t > last ==> word == "expired"@
    &&& t <= last && t >= f.run + 4 * 60 * 60 ==> word == "old"@
    &&& t <= last && t < f.run + 4 * 60 * 60 ==> word == "ok"@
}

/// Whether an object tells a forecast: its run, first and last hour and how many
/// there are, its age in minutes, and how current it is.
pub open spec fn tells_forecast(j: JsonView, f: ForecastView, t: int) -> bool {
    &&& j.get("status"@) matches Some(JsonView::Text(word)) && says_how_current(word, f, t)
    &&& j.get("model"@) == Some(JsonView::Text("HRRR"@))
    &&& j.get("run"@) == Some(JsonView::Text(time::iso_text(f.run)))
    &&& j.get("ageMinutes"@) matches Some(JsonView::Count(n)) && if t > f.run {
        n * 60 <= t - f.run < n * 60 + 60
    } else {
        n == 0
    }
    &&& j.get("first"@) == Some(JsonView::Text(time::iso_text(f.hours[0].valid)))
    &&& j.get("last"@) == Some(JsonView::Text(time::iso_text(f.hours[f.hours.len() - 1].valid)))
    &&& j.get("hours"@) == Some(JsonView::Count(f.hours.len()))
}

#[verifier::spinoff_prover]
proof fn lemma_forecast_told(f: ForecastView, region: RegionView, t: int)
    requires
        f.hours.len() > 0,
    ensures
        tells_forecast(forecast_json(Some(f), region, t), f, t),
        forecast_json(Some(f), region, t).get("region"@) == Some(region_json(region)),
{
    lemma_forecast_names();
    let head = run_fields(f, t);
    let rest = seq![("region"@, region_json(region))];
    let all = forecast_json(Some(f), region, t)->Object_0;
    assert(all =~= head + rest);
    lemma_in_front(head, rest, 0);
    lemma_in_front(head, rest, 1);
    lemma_in_front(head, rest, 2);
    lemma_in_front(head, rest, 3);
    lemma_in_front(head, rest, 4);
    lemma_in_front(head, rest, 5);
    lemma_in_front(head, rest, 6);
    lemma_field_after(head, rest, "region"@);
    lemma_found(rest, 0);
}

/// What the state says of the forecast: its run, first and last hour and how
/// many there are, its age in minutes, how current it is, and the region.
pub proof fn law_the_forecast_is_told(
    w: WindView,
    now: int,
    sample: Option<SampleView>,
    ever: bool,
    samples: Seq<Option<SampleView>>,
)
    requires
        w.forecast matches Some(f) ==> f.hours.len() > 0,
    ensures
        w.state(now, sample, ever, samples).get("forecast"@) matches Some(j) && {
            &&& j.get("region"@) matches Some(r) && tells_region(r, w.settings.region)
            &&& w.forecast is None ==> j.get("status"@) == Some(JsonView::Text("none"@)) && j.get(
                "run"@,
            ) is None
            &&& w.forecast matches Some(f) ==> tells_forecast(j, f, now - now % 60)
        },
{
    lemma_state_parts(w, now, sample, ever, samples);
    lemma_region_told(w.settings.region);
    match w.forecast {
        None => {
            lemma_forecast_names();
            let all = forecast_json(None, w.settings.region, minute(now))->Object_0;
            lemma_found(all, 0);
            lemma_found(all, 1);
            lemma_absent(all, "run"@);
        },
        Some(f) => {
            lemma_forecast_told(f, w.settings.region, minute(now));
        },
    }
}

proof fn lemma_fetch_names()
    ensures
        "status"@ != "done"@ && "status"@ != "total"@ && "status"@ != "message"@ && "status"@
            != "checked"@,
        "done"@ != "total"@ && "done"@ != "message"@ && "done"@ != "checked"@,
        "total"@ != "message"@ && "total"@ != "checked"@ && "message"@ != "checked"@,
{
    reveal_strlit("status");
    reveal_strlit("done");
    reveal_strlit("total");
    reveal_strlit("message");
    reveal_strlit("checked");
    assert("status"@.len() == 6 && "done"@.len() == 4 && "total"@.len() == 5 && "message"@.len()
        == 7 && "checked"@.len() == 7);
    assert("message"@[0] == 'm' && "checked"@[0] == 'c');
}

/// Whether an object tells how fetching stands, how far it is while downloading,
/// what went wrong with an error, and when NOMADS was last checked.
pub open spec fn tells_fetching(j: JsonView, f: FetchView) -> bool {
    &&& j.get("status"@) == Some(
        JsonView::Text(
            match f.status {
                FetchStatus::Off => "off"@,
                FetchStatus::Checking => "checking"@,
                FetchStatus::Downloading(_, _) => "downloading"@,
                FetchStatus::Idle => "idle"@,
                FetchStatus::Error => "error"@,
            },
        ),
    )
    &&& f.status matches FetchStatus::Downloading(done, total) ==> j.get("done"@)
        == Some(JsonView::Count(done as nat)) && j.get("total"@) == Some(
        JsonView::Count(total as nat),
    )
    &&& !(f.status is Downloading) ==> j.get("done"@) is None && j.get("total"@)
        is None
    &&& j.get("message"@) == (if f.status is Error {
        text_if(f.message)
    } else {
        None
    })
    &&& j.get("checked"@) == (match f.checked {
        Some(t) => Some(JsonView::Text(time::iso_text(t as int))),
        None => None::<JsonView>,
    })
}

#[verifier::spinoff_prover]
proof fn lemma_fetching_told(f: FetchView)
    ensures
        tells_fetching(fetch_json(f), f),
{
    lemma_fetch_names();
    let all = fetch_json(f)->Object_0;
    lemma_found(all, 0);
    let d = if f.status is Downloading {
        2int
    } else {
        0
    };
    let m = if f.status is Error && f.message is Some {
        1int
    } else {
        0
    };
    if d == 2 {
        assert(all[1].0 == "done"@ && all[2].0 == "total"@);
        lemma_found(all, 1);
        lemma_found(all, 2);
    } else {
        lemma_absent(all, "done"@);
        lemma_absent(all, "total"@);
    }
    if m == 1 {
        assert(all[1] == ("message"@, JsonView::Text(f.message->0)));
        lemma_found(all, 1);
    } else {
        lemma_absent(all, "message"@);
    }
    if f.checked is Some {
        assert(all[1 + d + m].0 == "checked"@);
        lemma_found(all, 1 + d + m);
    } else {
        lemma_absent(all, "checked"@);
    }
}

/// What the state says of fetching: how it stands, how far it is while
/// downloading, what went wrong with an error, and when NOMADS was last checked.
pub proof fn law_fetching_is_told(
    w: WindView,
    now: int,
    sample: Option<SampleView>,
    ever: bool,
    samples: Seq<Option<SampleView>>,
)
    ensures
        w.state(now, sample, ever, samples).get("fetch"@) matches Some(j) && tells_fetching(
            j,
            w.fetch,
        ),
{
    lemma_state_parts(w, now, sample, ever, samples);
    lemma_fetching_told(w.fetch);
}

/// What the state says of omakeel and of problems: those of the settings, of the
/// cache, and of an omakeel that speaks another version, in that order, and
/// nothing at all when there are none.
#[verifier::spinoff_prover]
pub proof fn law_omakeel_and_problems_are_told(
    w: WindView,
    now: int,
    sample: Option<SampleView>,
    ever: bool,
    samples: Seq<Option<SampleView>>,
)
    ensures
        ({
            let j = w.state(now, sample, ever, samples);
            let n = w.problems.len() as int;
            let l = if w.load_problem is Some {
                1int
            } else {
                0
            };
            let k = if w.keel is Incompatible {
                1int
            } else {
                0
            };
            &&& j.get("keel"@) == Some(
                JsonView::Text(
                    match w.keel {
                        KeelStatus::Off => "off"@,
                        KeelStatus::Lost => "lost"@,
                        KeelStatus::Connected => "connected"@,
                        KeelStatus::Incompatible => "incompatible"@,
                    },
                ),
            )
            &&& n + l + k == 0 ==> j.get("problems"@) is None
            &&& n + l + k > 0 ==> (j.get("problems"@) matches Some(JsonView::List(v)) && {
                &&& v.len() == n + l + k
                &&& forall|i: int| 0 <= i < n ==> (#[trigger] v[i]) == JsonView::Text(w.problems[i])
                &&& l == 1 ==> v[n] == JsonView::Text(w.load_problem->0)
            })
        }),
{
    lemma_state_parts(w, now, sample, ever, samples);
}

} // verus!
