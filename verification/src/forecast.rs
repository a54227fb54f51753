//! A forecast: one model run's hours over the region, found, checked and
//! thinned here. The numbers stay packed as the files pack them.

use crate::config::{Region, RegionView};
use crate::grib::{
    field_whole,
    fields_view,
    grid_ok,
    parameter_name,
    Field,
    FieldView,
    Packed,
    PackedView,
    MAX_LEAD,
    MAX_POINTS,
};
use crate::grid::{ten_metres, Grid, Scaled};
use crate::number::Real;
use crate::text::{dec, decimal, decimal_padded, padded};
use crate::time::HOUR;
use vstd::prelude::*;

verus! {

/// HRRR's longest run.
pub const MAX_HOURS: u32 = 48;

/// An hour's file in a run's folder.
pub fn hour_file(hour: u32) -> (r: String)
    ensures
        r@ == "f"@ + padded(hour as nat, 2) + ".grib2"@,
{
    let mut s = "f".to_owned();
    s.append(decimal_padded(hour as u64, 2).as_str());
    s.append(".grib2");
    s
}

#[derive(Debug)]
pub struct Hour {
    /// Unix seconds.
    pub valid: i64,
    /// Wind 10 m above ground, m/s, along the grid's axes or toward east and
    /// north, as the grid says.
    pub u: Packed,
    pub v: Packed,
    /// Gusts at the surface, m/s.
    pub gust: Option<Packed>,
    /// Pressure at mean sea level, pascals.
    pub pressure: Option<Packed>,
}

#[derive(Debug)]
pub struct Forecast {
    /// The run, Unix seconds.
    pub run: i64,
    pub grid: Grid,
    /// Hourly, from the run's own hour, unbroken.
    pub hours: Vec<Hour>,
}

/// What an hour holds.
pub ghost struct HourView {
    pub valid: int,
    pub u: PackedView,
    pub v: PackedView,
    pub gust: Option<PackedView>,
    pub pressure: Option<PackedView>,
}

/// What a forecast holds.
pub ghost struct ForecastView {
    pub run: int,
    pub grid: Grid,
    pub hours: Seq<HourView>,
}

/// What packed values hold, if there are any.
pub open spec fn packed_view(p: Option<Packed>) -> Option<PackedView> {
    match p {
        Some(p) => Some(p@),
        None => None,
    }
}

impl View for Hour {
    type V = HourView;

    open spec fn view(&self) -> HourView {
        HourView {
            valid: self.valid as int,
            u: self.u@,
            v: self.v@,
            gust: packed_view(self.gust),
            pressure: packed_view(self.pressure),
        }
    }
}

/// What each hour in a list holds.
pub open spec fn hours_view(v: Seq<Hour>) -> Seq<HourView> {
    Seq::new(v.len(), |i: int| v[i]@)
}

impl View for Forecast {
    type V = ForecastView;

    open spec fn view(&self) -> ForecastView {
        ForecastView {
            run: self.run as int,
            grid: self.grid,
            hours: hours_view(self.hours@),
        }
    }
}

/// Whether an hour has a value, or a gap, at each of so many points.
pub open spec fn hour_covers(h: HourView, points: int) -> bool {
    &&& h.u.values.len() == points
    &&& h.v.values.len() == points
    &&& h.gust matches Some(g) ==> g.values.len() == points
    &&& h.pressure matches Some(p) ==> p.values.len() == points
}

impl ForecastView {
    /// Hourly from the run's own hour, unbroken, every hour over the grid.
    pub open spec fn sound(self) -> bool {
        &&& 1 <= self.hours.len()
        &&& (self.hours.len() - 1) * 3600 <= MAX_LEAD
        &&& grid_ok(self.grid)
        &&& -100_000_000_000 <= self.run <= 400_000_000_000
        &&& forall|i: int|
            0 <= i < self.hours.len() ==> (#[trigger] self.hours[i]).valid == self.run + i * 3600
        &&& forall|i: int|
            0 <= i < self.hours.len() ==> hour_covers(#[trigger] self.hours[i], self.grid.spec_len())
    }

    /// The first hour's time and the last's.
    pub open spec fn first(self) -> int {
        self.hours[0].valid
    }

    pub open spec fn last(self) -> int {
        self.hours.last().valid
    }
}

// --- Making one --------------------------------------------------------------------

/// Whether a field is a parameter at a surface, and at a level if one is
/// given.
pub open spec fn is_field(f: FieldView, category: u8, number: u8, surface: u8, level: Option<Scaled>) -> bool {
    &&& f.discipline == 0
    &&& f.category == category
    &&& f.number == number
    &&& f.surface == surface
    &&& level is None || f.level is Some && f.level->0.equal(level->0)
}

/// The first such field.
pub open spec fn first_field(
    fields: Seq<FieldView>,
    category: u8,
    number: u8,
    surface: u8,
    level: Option<Scaled>,
) -> Option<FieldView>
    decreases fields.len(),
{
    if fields.len() == 0 {
        None
    } else if is_field(fields[0], category, number, surface, level) {
        Some(fields[0])
    } else {
        first_field(fields.skip(1), category, number, surface, level)
    }
}

/// What a field found holds.
pub open spec fn found(f: Option<&Field>) -> Option<FieldView> {
    match f {
        Some(f) => Some(f@),
        None => None,
    }
}

/// The first field with a parameter at a surface, and at a level if one is
/// given.
fn find(fields: &Vec<Field>, category: u8, number: u8, surface: u8, level: Option<Scaled>) -> (r:
    Option<&Field>)
    ensures
        found(r) == first_field(fields_view(fields@), category, number, surface, level),
        r matches Some(f) ==> exists|i: int| 0 <= i < fields@.len() && fields@[i] == f,
{
    let mut i: usize = 0;
    assert(fields_view(fields@).skip(0) =~= fields_view(fields@));
    while i < fields.len()
        invariant
            i <= fields@.len(),
            first_field(fields_view(fields@), category, number, surface, level) == first_field(
                fields_view(fields@).skip(i as int),
                category,
                number,
                surface,
                level,
            ),
        decreases fields@.len() - i,
    {
        let f = &fields[i];
        let at_level = match (&level, &f.level) {
            (None, _) => true,
            (Some(a), Some(b)) => b.equals(a),
            _ => false,
        };
        assert(fields_view(fields@).skip(i as int)[0] == f@);
        if f.discipline == 0 && f.category == category && f.number == number && f.surface == surface
            && at_level {
            return Some(f);
        }
        assert(fields_view(fields@).skip(i as int).skip(1) =~= fields_view(fields@).skip(i + 1));
        i += 1;
    }
    None
}

/// The fields of one hour that are used.
pub ghost struct UsedView {
    pub u: FieldView,
    pub v: FieldView,
    pub gust: Option<FieldView>,
    pub pressure: Option<FieldView>,
}

/// Pressure at mean sea level, by MAPS's reduction or else the standard one.
pub open spec fn pressure_in(fields: Seq<FieldView>) -> Option<FieldView> {
    let maps = first_field(fields, 3, 198, 101, None);
    if maps is Some {
        maps
    } else {
        first_field(fields, 3, 1, 101, None)
    }
}

/// The fields of one hour that are used, if the 10 m wind is among them.
pub open spec fn used_in(fields: Seq<FieldView>) -> Option<UsedView> {
    let u = first_field(fields, 2, 2, 103, Some(ten_metres()));
    let v = first_field(fields, 2, 3, 103, Some(ten_metres()));
    if u is Some && v is Some {
        Some(
            UsedView {
                u: u->0,
                v: v->0,
                gust: first_field(fields, 2, 22, 1, None),
                pressure: pressure_in(fields),
            },
        )
    } else {
        None
    }
}

/// Whether a field is of the same run and grid as the wind's, at hour `h`.
pub open spec fn belongs(f: FieldView, u: FieldView, h: int) -> bool {
    f.grid.equal(u.grid) && f.reference == u.reference && f.lead == h * 3600
}

/// Whether a field that may not be there belongs.
pub open spec fn belongs_if(f: Option<FieldView>, u: FieldView, h: int) -> bool {
    f matches Some(f) ==> belongs(f, u, h)
}

pub open spec fn misfit(f: FieldView, h: int) -> Seq<char> {
    "hour "@ + dec(h as nat) + ": "@ + parameter_name(f.discipline, f.category, f.number)
        + " doesn't match the run, hour or grid"@
}

/// What is wrong with an hour's fields, if anything.
pub open spec fn fault_in(f: UsedView, h: int) -> Option<Seq<char>> {
    if !belongs(f.u, f.u, h) {
        Some(misfit(f.u, h))
    } else if !belongs(f.v, f.u, h) {
        Some(misfit(f.v, h))
    } else if !belongs_if(f.gust, f.u, h) {
        Some(misfit(f.gust->0, h))
    } else if !belongs_if(f.pressure, f.u, h) {
        Some(misfit(f.pressure->0, h))
    } else {
        None
    }
}

/// The values of a field that may not be there.
pub open spec fn values_if(f: Option<FieldView>) -> Option<PackedView> {
    match f {
        Some(f) => Some(f.values),
        None => None,
    }
}

/// The hour its fields make.
pub open spec fn hour_from(f: UsedView) -> HourView {
    HourView {
        valid: f.u.reference + f.u.lead,
        u: f.u.values,
        v: f.v.values,
        gust: values_if(f.gust),
        pressure: values_if(f.pressure),
    }
}

/// A forecast, with hour `h` added to those before it.
pub open spec fn with_hour(so_far: Option<ForecastView>, fields: Seq<FieldView>, h: int) -> Result<
    ForecastView,
    Seq<char>,
> {
    match used_in(fields) {
        None => Err("hour "@ + dec(h as nat) + " has no 10 m wind"@),
        Some(used) => match fault_in(used, h) {
            Some(e) => Err(e),
            None => match so_far {
                None => Ok(
                    ForecastView {
                        run: used.u.reference,
                        grid: used.u.grid,
                        hours: seq![hour_from(used)],
                    },
                ),
                Some(f) => if used.u.grid.equal(f.grid) && used.u.reference == f.run {
                    Ok(ForecastView { hours: f.hours.push(hour_from(used)), ..f })
                } else {
                    Err("hour "@ + dec(h as nat) + " is from another run or grid"@)
                },
            },
        },
    }
}

/// The forecast the first `n` hours make: none without any.
pub open spec fn so_far(hours: Seq<Seq<FieldView>>, n: int) -> Result<Option<ForecastView>, Seq<char>>
    decreases n,
{
    if n <= 0 {
        Ok(None)
    } else {
        match so_far(hours, n - 1) {
            Err(e) => Err(e),
            Ok(f) => match with_hour(f, hours[n - 1], n - 1) {
                Err(e) => Err(e),
                Ok(f) => Ok(Some(f)),
            },
        }
    }
}

/// The forecast hours make, hour 0 first, or why they make none.
pub open spec fn forecast_of(hours: Seq<Seq<FieldView>>) -> Result<ForecastView, Seq<char>> {
    match so_far(hours, hours.len() as int) {
        Err(e) => Err(e),
        Ok(None) => Err("no forecast hours"@),
        Ok(Some(f)) => Ok(f),
    }
}

/// What each hour's fields hold.
pub open spec fn fields_of(hours: Seq<Vec<Field>>) -> Seq<Seq<FieldView>> {
    Seq::new(hours.len(), |i: int| fields_view(hours[i]@))
}

/// What a forecast holds, if there is one.
pub open spec fn forecast_view(f: Option<Forecast>) -> Option<ForecastView> {
    match f {
        Some(f) => Some(f@),
        None => None,
    }
}

/// A copy of packed values.
fn copy_packed(p: &Packed) -> (r: Packed)
    ensures
        r@ == p@,
{
    let mut values: Vec<Option<u32>> = Vec::with_capacity(p.values.len());
    let mut i: usize = 0;
    while i < p.values.len()
        invariant
            i <= p.values@.len(),
            values@ == p.values@.take(i as int),
        decreases p.values@.len() - i,
    {
        values.push(p.values[i]);
        i += 1;
        assert(values@ =~= p.values@.take(i as int));
    }
    assert(p.values@.take(i as int) =~= p.values@);
    Packed { reference: p.reference, binary: p.binary, decimal: p.decimal, values }
}

/// A copy of a field's values, if it is there.
fn copy_values(f: Option<&Field>) -> (r: Option<Packed>)
    ensures
        packed_view(r) == values_if(found(f)),
{
    match f {
        Some(f) => Some(copy_packed(&f.values)),
        None => None,
    }
}

/// Whether a field is of the same run and grid as the wind's, at hour `h`.
fn fits(f: &Field, u: &Field, h: usize) -> (r: bool)
    ensures
        r == belongs(f@, u@, h as int),
{
    f.grid.equals(&u.grid) && f.reference == u.reference && f.lead as i128 == h as i128 * HOUR as i128
}

fn misfit_text(f: &Field, h: usize) -> (r: String)
    ensures
        r@ == misfit(f@, h as int),
{
    let mut s = "hour ".to_owned();
    s.append(decimal(h as u64).as_str());
    s.append(": ");
    s.append(f.name().as_str());
    s.append(" doesn't match the run, hour or grid");
    s
}

/// An hour's message.
fn hour_text(h: usize, what: &str) -> (r: String)
    ensures
        r@ == "hour "@ + dec(h as nat) + what@,
{
    let mut s = "hour ".to_owned();
    s.append(decimal(h as u64).as_str());
    s.append(what);
    s
}

/// What is wrong with an hour's fields, if anything.
fn fault(u: &Field, v: &Field, gust: Option<&Field>, pressure: Option<&Field>, h: usize) -> (r:
    Option<String>)
    ensures
        ({
            let used = UsedView { u: u@, v: v@, gust: found(gust), pressure: found(pressure) };
            match r {
                Some(e) => fault_in(used, h as int) == Some(e@),
                None => fault_in(used, h as int) is None,
            }
        }),
{
    if !fits(u, u, h) {
        return Some(misfit_text(u, h));
    }
    if !fits(v, u, h) {
        return Some(misfit_text(v, h));
    }
    if let Some(f) = gust {
        if !fits(f, u, h) {
            return Some(misfit_text(f, h));
        }
    }
    if let Some(f) = pressure {
        if !fits(f, u, h) {
            return Some(misfit_text(f, h));
        }
    }
    None
}

/// A forecast, with hour `h` added to those before it.
fn add_hour(f: Option<Forecast>, fields: &Vec<Field>, h: usize) -> (r: Result<Forecast, String>)
    requires
        forall|i: int| 0 <= i < fields@.len() ==> field_whole(#[trigger] fields@[i]@),
        f is None <==> h == 0,
        f matches Some(f) ==> f@.sound() && f@.hours.len() == h,
    ensures
        match r {
            Ok(g) => with_hour(forecast_view(f), fields_view(fields@), h as int) == Ok::<
                ForecastView,
                Seq<char>,
            >(g@),
            Err(e) => with_hour(forecast_view(f), fields_view(fields@), h as int) == Err::<
                ForecastView,
                Seq<char>,
            >(e@),
        },
        r matches Ok(g) ==> g@.sound() && g@.hours.len() == h + 1,
{
    let ten = Some(Scaled { scale: 0, value: 10 });
    let (u, v) = match (find(fields, 2, 2, 103, ten), find(fields, 2, 3, 103, ten)) {
        (Some(u), Some(v)) => (u, v),
        _ => return Err(hour_text(h, " has no 10 m wind")),
    };
    let gust = find(fields, 2, 22, 1, None);
    let maps = find(fields, 3, 198, 101, None);
    let pressure = if maps.is_some() {
        maps
    } else {
        find(fields, 3, 1, 101, None)
    };
    if let Some(e) = fault(u, v, gust, pressure, h) {
        return Err(e);
    }
    let hour = Hour {
        valid: u.valid(),
        u: copy_packed(&u.values),
        v: copy_packed(&v.values),
        gust: copy_values(gust),
        pressure: copy_values(pressure),
    };
    assert(hour_covers(hour@, u.grid.spec_len()));
    match f {
        None => {
            let mut hours: Vec<Hour> = Vec::new();
            hours.push(hour);
            assert(hours_view(hours@) =~= seq![hour@]);
            Ok(Forecast { run: u.reference, grid: u.grid, hours })
        },
        Some(f) => {
            if !u.grid.equals(&f.grid) || u.reference != f.run {
                return Err(hour_text(h, " is from another run or grid"));
            }
            let Forecast { run, grid, hours } = f;
            let mut hours = hours;
            let ghost before = hours@;
            hours.push(hour);
            assert(hours_view(hours@) =~= hours_view(before).push(hour@));
            let g = Forecast { run, grid, hours };
            proof {
                assert forall|i: int| 0 <= i < g@.hours.len() implies (
                #[trigger] g@.hours[i]).valid == g@.run + i * 3600 && hour_covers(
                    g@.hours[i],
                    g@.grid.spec_len(),
                ) by {
                    if i < h {
                        assert(g@.hours[i] == f@.hours[i]);
                    } else {
                        assert(g@.hours[i] == hour@);
                    }
                }
            }
            Ok(g)
        },
    }
}

impl Forecast {
    /// Each element holds one forecast hour's fields, hour 0 first.
    pub fn from_hours(hours: &Vec<Vec<Field>>) -> (r: Result<Forecast, String>)
        requires
            forall|i: int, j: int|
                0 <= i < hours@.len() && 0 <= j < hours@[i]@.len() ==> field_whole(
                    (#[trigger] hours@[i]@[j])@,
                ),
        ensures
            match r {
                Ok(f) => forecast_of(fields_of(hours@)) == Ok::<ForecastView, Seq<char>>(f@),
                Err(e) => forecast_of(fields_of(hours@)) == Err::<ForecastView, Seq<char>>(e@),
            },
            r matches Ok(f) ==> f@.sound() && f@.hours.len() == hours@.len(),
    {
        let mut out: Option<Forecast> = None;
        let mut h: usize = 0;
        while h < hours.len()
            invariant
                h <= hours@.len(),
                forall|i: int, j: int|
                    0 <= i < hours@.len() && 0 <= j < hours@[i]@.len() ==> field_whole(
                        (#[trigger] hours@[i]@[j])@,
                    ),
                so_far(fields_of(hours@), h as int) == Ok::<Option<ForecastView>, Seq<char>>(
                    forecast_view(out),
                ),
                out is None <==> h == 0,
                out matches Some(f) ==> f@.sound() && f@.hours.len() == h,
            decreases hours@.len() - h,
        {
            let fields = &hours[h];
            assert(fields_of(hours@)[h as int] == fields_view(fields@));
            match add_hour(out, fields, h) {
                Ok(f) => out = Some(f),
                Err(e) => {
                    proof {
                        lemma_first_error(fields_of(hours@), h + 1, hours@.len() as int);
                    }
                    return Err(e);
                },
            }
            h += 1;
        }
        match out {
            Some(f) => Ok(f),
            None => Err("no forecast hours".to_owned()),
        }
    }
}

/// The first hour that won't do is the one reported.
proof fn lemma_first_error(hours: Seq<Seq<FieldView>>, n: int, m: int)
    requires
        0 <= n <= m,
        so_far(hours, n) is Err,
    ensures
        so_far(hours, m) == so_far(hours, n),
    decreases m,
{
    if n < m {
        lemma_first_error(hours, n, m - 1);
    }
}

// --- Asking it ----------------------------------------------------------------------

/// The hours either side of a time, and how far between them it is:
/// `elapsed` of `length` seconds. At the last hour both are that one, and
/// `length` is 0.
#[derive(Clone, Copy, Debug)]
pub struct Bracket {
    pub before: usize,
    pub after: usize,
    pub elapsed: i64,
    pub length: i64,
}

/// What there is to say at some points and a time, by these hours.
#[derive(Clone, Copy, Debug)]
pub struct Mix {
    pub hours: Bracket,
    /// Whether there is a gust, and a pressure.
    pub gust: bool,
    pub pressure: bool,
}

/// Whether there is a value at each of these points.
pub open spec fn known(p: PackedView, points: Seq<usize>) -> bool {
    forall|i: int| 0 <= i < points.len() ==> p.values[#[trigger] points[i] as int] is Some
}

/// Whether values are there, with one at each of these points.
pub open spec fn known_if(p: Option<PackedView>, points: Seq<usize>) -> bool {
    p matches Some(p) && known(p, points)
}

impl ForecastView {
    /// The hours either side of `t`, if it isn't outside them all.
    pub open spec fn bracket(self, t: int) -> Option<Bracket> {
        if t < self.first() || t > self.last() {
            None
        } else {
            let k = (t - self.run) / 3600;
            if k + 1 < self.hours.len() {
                Some(
                    Bracket {
                        before: k as usize,
                        after: (k + 1) as usize,
                        elapsed: ((t - self.run) % 3600) as i64,
                        length: 3600,
                    },
                )
            } else {
                Some(Bracket { before: k as usize, after: k as usize, elapsed: 0, length: 0 })
            }
        }
    }

    /// What there is to say at these points and `t`: nothing outside the
    /// hours, or where the wind has a gap.
    pub open spec fn mix(self, t: int, points: Seq<usize>) -> Option<Mix> {
        match self.bracket(t) {
            None => None,
            Some(b) => {
                let (x, y) = (self.hours[b.before as int], self.hours[b.after as int]);
                if known(x.u, points) && known(y.u, points) && known(x.v, points) && known(
                    y.v,
                    points,
                ) {
                    Some(
                        Mix {
                            hours: b,
                            gust: known_if(x.gust, points) && known_if(y.gust, points),
                            pressure: known_if(x.pressure, points) && known_if(y.pressure, points),
                        },
                    )
                } else {
                    None
                }
            },
        }
    }
}

/// Whether there is a value at each of these points.
fn all_known(p: &Packed, points: &[usize]) -> (r: bool)
    requires
        forall|i: int| 0 <= i < points@.len() ==> #[trigger] points@[i] < p.values@.len(),
    ensures
        r == known(p@, points@),
{
    let mut i: usize = 0;
    while i < points.len()
        invariant
            i <= points@.len(),
            forall|j: int| 0 <= j < points@.len() ==> #[trigger] points@[j] < p.values@.len(),
            forall|j: int| 0 <= j < i ==> p.values@[#[trigger] points@[j] as int] is Some,
        decreases points@.len() - i,
    {
        assert(points@[i as int] < p.values@.len());
        if p.values[points[i]].is_none() {
            return false;
        }
        i += 1;
    }
    true
}

/// Whether values are there, with one at each of these points.
fn all_known_if(p: &Option<Packed>, points: &[usize]) -> (r: bool)
    requires
        p matches Some(p) ==> forall|i: int|
            0 <= i < points@.len() ==> #[trigger] points@[i] < p.values@.len(),
    ensures
        r == known_if(packed_view(*p), points@),
{
    match p {
        Some(p) => all_known(p, points),
        None => false,
    }
}

impl Forecast {
    /// The first hour's time, Unix seconds.
    pub fn first(&self) -> (r: i64)
        requires
            self.hours@.len() > 0,
        ensures
            r as int == self@.first(),
    {
        self.hours[0].valid
    }

    /// The last hour's time, Unix seconds.
    pub fn last(&self) -> (r: i64)
        requires
            self.hours@.len() > 0,
        ensures
            r as int == self@.last(),
    {
        self.hours[self.hours.len() - 1].valid
    }

    /// The hours either side of `t` and how far between them it is.
    pub fn bracket(&self, t: i64) -> (r: Option<Bracket>)
        requires
            self@.sound(),
        ensures
            r == self@.bracket(t as int),
            r matches Some(b) ==> b.before < self.hours@.len() && b.after < self.hours@.len(),
    {
        assert(self@.hours[0].valid == self@.run);
        assert(self@.hours.last().valid == self@.run + (self.hours@.len() - 1) * 3600);
        if t < self.first() || t > self.last() {
            return None;
        }
        assert(0 <= t - self.run <= (self.hours@.len() - 1) * 3600);
        let past: i128 = t as i128 - self.run as i128;
        let k: usize = (past / 3600) as usize;
        assert(k <= self.hours@.len() - 1);
        let n: usize = self.hours.len();
        if k < n - 1 {
            Some(Bracket { before: k, after: k + 1, elapsed: (past % 3600) as i64, length: 3600 })
        } else {
            Some(Bracket { before: k, after: k, elapsed: 0, length: 0 })
        }
    }

    /// What there is to say at these points and `t`.
    pub fn combine(&self, t: i64, points: &[usize]) -> (r: Option<Mix>)
        requires
            self@.sound(),
            forall|i: int| 0 <= i < points@.len() ==> #[trigger] points@[i] < self.grid.spec_len(),
        ensures
            r == self@.mix(t as int, points@),
    {
        let b = match self.bracket(t) {
            None => return None,
            Some(b) => b,
        };
        let x = &self.hours[b.before];
        let y = &self.hours[b.after];
        proof {
            assert(hour_covers(self@.hours[b.before as int], self.grid.spec_len()));
            assert(hour_covers(self@.hours[b.after as int], self.grid.spec_len()));
        }
        if all_known(&x.u, points) && all_known(&y.u, points) && all_known(&x.v, points)
            && all_known(&y.v, points) {
            Some(
                Mix {
                    hours: b,
                    gust: all_known_if(&x.gust, points) && all_known_if(&y.gust, points),
                    pressure: all_known_if(&x.pressure, points) && all_known_if(
                        &y.pressure,
                        points,
                    ),
                },
            )
        } else {
            None
        }
    }
}

/// The four points around a place among the points, `i` columns and `j` rows
/// along, rounded down: those of the last whole cell at the far edges.
pub open spec fn corners_of(grid: Grid, i: int, j: int) -> Seq<int> {
    let i0 = if i <= grid.nx - 2 {
        i
    } else {
        grid.nx - 2
    };
    let j0 = if j <= grid.ny - 2 {
        j
    } else {
        grid.ny - 2
    };
    seq![
        j0 * grid.nx + i0,
        j0 * grid.nx + i0 + 1,
        (j0 + 1) * grid.nx + i0,
        (j0 + 1) * grid.nx + i0 + 1,
    ]
}

/// Point indices as whole numbers.
pub open spec fn indices(v: Seq<usize>) -> Seq<int> {
    Seq::new(v.len(), |i: int| v[i] as int)
}

/// A point inside a grid has an index below the grid's length.
proof fn lemma_inside(i: int, j: int, nx: int, ny: int)
    requires
        0 <= i < nx,
        0 <= j < ny,
    ensures
        0 <= j * nx + i < nx * ny,
        0 <= j * nx <= j * nx + i,
{
    assert(0 <= j * nx + i < nx * ny && 0 <= j * nx) by (nonlinear_arith)
        requires
            0 <= i < nx,
            0 <= j < ny,
    ;
}

/// The four points around a place among the points, `i` columns and `j` rows
/// along, rounded down.
pub fn corners(grid: &Grid, i: usize, j: usize) -> (r: Vec<usize>)
    requires
        grid.nx >= 2,
        grid.ny >= 2,
        grid.spec_len() <= MAX_POINTS,
    ensures
        indices(r@) == corners_of(*grid, i as int, j as int),
        forall|k: int| 0 <= k < r@.len() ==> #[trigger] r@[k] < grid.spec_len(),
{
    let i0: usize = if i <= grid.nx - 2 {
        i
    } else {
        grid.nx - 2
    };
    let j0: usize = if j <= grid.ny - 2 {
        j
    } else {
        grid.ny - 2
    };
    let ghost (nx, ny) = (grid.nx as int, grid.ny as int);
    proof {
        lemma_inside(i0 as int, j0 as int, nx, ny);
        lemma_inside(i0 + 1, j0 as int, nx, ny);
        lemma_inside(i0 as int, j0 + 1, nx, ny);
        lemma_inside(i0 + 1, j0 + 1, nx, ny);
    }
    let low: usize = j0 * grid.nx + i0;
    let high: usize = (j0 + 1) * grid.nx + i0;
    let mut out: Vec<usize> = Vec::new();
    out.push(low);
    out.push(low + 1);
    out.push(high);
    out.push(high + 1);
    assert(indices(out@) =~= corners_of(*grid, i as int, j as int));
    out
}

// --- Fields for the chart ------------------------------------------------------------

/// Columns `i0` to `i1` and rows `j0` to `j1`, where an area's points are to
/// be looked for.
#[derive(Clone, Copy, Debug)]
pub struct Window {
    pub i0: usize,
    pub i1: usize,
    pub j0: usize,
    pub j1: usize,
}

/// Where a point is, if it can be placed.
pub open spec fn place_view(p: Option<(Real, Real)>) -> Option<(u64, u64)> {
    match p {
        Some((lat, lon)) => Some((lat@, lon@)),
        None => None,
    }
}

/// Whether a point is inside an area.
pub open spec fn inside(positions: Seq<Option<(Real, Real)>>, area: RegionView, k: int) -> bool {
    place_view(positions[k]) matches Some((lat, lon)) && area.contains(lat, lon)
}

/// What a search for an area's points goes by.
pub ghost struct Survey {
    pub nx: int,
    pub positions: Seq<Option<(Real, Real)>>,
    pub area: RegionView,
    pub window: Window,
}

impl Survey {
    /// Whether the point in column `i` and row `j` is taken: a `step`th column
    /// and row, counted from the grid's first point, and inside the area.
    pub open spec fn takes(self, step: int, i: int, j: int) -> bool {
        i % step == 0 && j % step == 0 && inside(self.positions, self.area, j * self.nx + i)
    }

    /// The points taken from row `j`, in columns before `i`.
    pub open spec fn row(self, step: int, j: int, i: int) -> Seq<usize>
        decreases i - self.window.i0,
    {
        if i <= self.window.i0 {
            seq![]
        } else if self.takes(step, i - 1, j) {
            self.row(step, j, i - 1).push((j * self.nx + i - 1) as usize)
        } else {
            self.row(step, j, i - 1)
        }
    }

    /// The points taken from the rows before `j`, row by row.
    pub open spec fn rows(self, step: int, j: int) -> Seq<usize>
        decreases j - self.window.j0,
    {
        if j <= self.window.j0 {
            seq![]
        } else {
            self.rows(step, j - 1) + self.row(step, j - 1, self.window.i1 + 1)
        }
    }

    /// The points taken at a step.
    pub open spec fn points(self, step: int) -> Seq<usize> {
        self.rows(step, self.window.j1 + 1)
    }

    /// Whether `step` is the smallest that takes no more than `max` points.
    pub open spec fn thinnest(self, max: int, step: int) -> bool {
        &&& step >= 1
        &&& self.points(step).len() <= max
        &&& forall|s: int| 1 <= s < step ==> (#[trigger] self.points(s)).len() > max
    }
}

/// The points among these that there is something to say of at `t`.
pub open spec fn told(f: ForecastView, t: int, points: Seq<usize>) -> Seq<usize>
    decreases points.len(),
{
    if points.len() == 0 {
        seq![]
    } else if f.mix(t, seq![points.last()]) is Some {
        told(f, t, points.drop_last()).push(points.last())
    } else {
        told(f, t, points.drop_last())
    }
}

/// Whether a point is inside an area.
fn is_inside(positions: &[Option<(Real, Real)>], area: &Region, k: usize) -> (r: bool)
    requires
        k < positions@.len(),
    ensures
        r == inside(positions@, area@, k as int),
{
    match &positions[k] {
        Some((lat, lon)) => area.contains(lat, lon),
        None => false,
    }
}

/// The points taken at a step.
fn take(
    grid: &Grid,
    positions: &[Option<(Real, Real)>],
    area: &Region,
    window: &Window,
    step: usize,
) -> (r: Vec<usize>)
    requires
        step >= 1,
        window.i1 < grid.nx,
        window.j1 < grid.ny,
        grid.spec_len() <= MAX_POINTS,
        positions@.len() == grid.spec_len(),
    ensures
        r@ == (Survey {
            nx: grid.nx as int,
            positions: positions@,
            area: area@,
            window: *window,
        }).points(step as int),
        forall|k: int| 0 <= k < r@.len() ==> #[trigger] r@[k] < grid.spec_len(),
{
    let ghost survey = Survey {
        nx: grid.nx as int,
        positions: positions@,
        area: area@,
        window: *window,
    };
    let ghost (nx, ny) = (grid.nx as int, grid.ny as int);
    let mut out: Vec<usize> = Vec::new();
    let mut j: usize = window.j0;
    if window.j0 > window.j1 {
        return out;
    }
    while j <= window.j1
        invariant
            step >= 1,
            window.i1 < grid.nx == nx,
            window.j0 <= j <= window.j1 + 1,
            window.j1 < grid.ny == ny,
            grid.spec_len() <= MAX_POINTS,
            positions@.len() == grid.spec_len(),
            survey == (Survey {
                nx: grid.nx as int,
                positions: positions@,
                area: area@,
                window: *window,
            }),
            out@ == survey.rows(step as int, j as int),
            forall|k: int| 0 <= k < out@.len() ==> #[trigger] out@[k] < grid.spec_len(),
        decreases window.j1 + 1 - j,
    {
        let ghost start = out@;
        let mut i: usize = window.i0;
        proof {
            lemma_row_start(survey, step as int, j as int);
            assert(start + Seq::<usize>::empty() =~= start);
        }
        while i <= window.i1
            invariant
                step >= 1,
                window.i1 < grid.nx == nx,
                window.j0 <= j <= window.j1 < grid.ny == ny,
                window.i0 <= i,
                i <= window.i1 + 1 || i == window.i0,
                grid.spec_len() <= MAX_POINTS,
                positions@.len() == grid.spec_len(),
                survey == (Survey {
                    nx: grid.nx as int,
                    positions: positions@,
                    area: area@,
                    window: *window,
                }),
                out@ == start + survey.row(step as int, j as int, i as int),
                forall|k: int| 0 <= k < out@.len() ==> #[trigger] out@[k] < grid.spec_len(),
            decreases window.i1 + 1 - i,
        {
            proof {
                lemma_inside(i as int, j as int, nx, ny);
            }
            let k: usize = j * grid.nx + i;
            let ghost before = survey.row(step as int, j as int, i as int);
            if i % step == 0 && j % step == 0 && is_inside(positions, area, k) {
                out.push(k);
                assert(out@ =~= start + before.push(k));
            }
            i += 1;
        }
        proof {
            if window.i0 > window.i1 {
                lemma_row_empty(survey, step as int, j as int, window.i1 + 1);
            }
        }
        j += 1;
    }
    out
}

proof fn lemma_row_start(s: Survey, step: int, j: int)
    ensures
        s.row(step, j, s.window.i0 as int) == Seq::<usize>::empty(),
{
}

proof fn lemma_row_empty(s: Survey, step: int, j: int, i: int)
    requires
        i <= s.window.i0,
    ensures
        s.row(step, j, i) == Seq::<usize>::empty(),
        s.row(step, j, s.window.i0 as int) == Seq::<usize>::empty(),
{
}

/// A step past the window's last column takes nothing but the first column,
/// and that only from the first row.
proof fn lemma_row_short(s: Survey, step: int, j: int, i: int)
    requires
        step > s.window.i1,
        step > s.window.j1,
        0 <= j <= s.window.j1,
        i <= s.window.i1 + 1,
    ensures
        s.row(step, j, i).len() <= (if j == 0 {
            1int
        } else {
            0
        }),
        i <= 0 ==> s.row(step, j, i).len() == 0,
    decreases i - s.window.i0,
{
    if i > s.window.i0 {
        lemma_row_short(s, step, j, i - 1);
        if s.takes(step, i - 1, j) {
            vstd::arithmetic::div_mod::lemma_small_mod((i - 1) as nat, step as nat);
            vstd::arithmetic::div_mod::lemma_small_mod(j as nat, step as nat);
        }
    }
}

/// A step past the window's last column and row takes a point at most.
proof fn lemma_rows_short(s: Survey, step: int, j: int)
    requires
        step > s.window.i1,
        step > s.window.j1,
        j <= s.window.j1 + 1,
    ensures
        s.rows(step, j).len() <= 1,
        j <= 0 ==> s.rows(step, j).len() == 0,
    decreases j - s.window.j0,
{
    if j > s.window.j0 {
        lemma_rows_short(s, step, j - 1);
        lemma_row_short(s, step, j - 1, s.window.i1 + 1);
    }
}

/// The points among these that there is something to say of at `t`.
fn tell(f: &Forecast, t: i64, points: &Vec<usize>) -> (r: Vec<usize>)
    requires
        f@.sound(),
        forall|i: int| 0 <= i < points@.len() ==> #[trigger] points@[i] < f.grid.spec_len(),
    ensures
        r@ == told(f@, t as int, points@),
{
    let mut out: Vec<usize> = Vec::new();
    let mut i: usize = 0;
    while i < points.len()
        invariant
            i <= points@.len(),
            f@.sound(),
            forall|k: int| 0 <= k < points@.len() ==> #[trigger] points@[k] < f.grid.spec_len(),
            out@ == told(f@, t as int, points@.take(i as int)),
        decreases points@.len() - i,
    {
        let k: usize = points[i];
        let one: [usize; 1] = [k];
        let mix = f.combine(t, one.as_slice());
        proof {
            assert(one@ =~= seq![k]);
            assert(points@.take(i + 1).drop_last() =~= points@.take(i as int));
        }
        if mix.is_some() {
            out.push(k);
        }
        i += 1;
    }
    assert(points@.take(i as int) =~= points@);
    out
}

impl Forecast {
    /// The model's own points inside `area` at time `t`, every `step`th
    /// column and row, `step` the smallest that keeps them to `max`. Steps
    /// count from the grid's first point, so the points stay put as the
    /// area moves. None outside the forecast's hours. `window` holds the
    /// columns and rows the area covers, and `positions` where each of the
    /// grid's points is.
    pub fn field(
        &self,
        positions: &[Option<(Real, Real)>],
        area: &Region,
        window: &Window,
        t: i64,
        max: usize,
    ) -> (r: Option<(usize, Vec<usize>)>)
        requires
            self@.sound(),
            positions@.len() == self.grid.spec_len(),
            window.i1 < self.grid.nx,
            window.j1 < self.grid.ny,
        ensures
            r is None <==> self@.bracket(t as int) is None,
            r matches Some((step, points)) ==> {
                let survey = Survey {
                    nx: self.grid.nx as int,
                    positions: positions@,
                    area: area@,
                    window: *window,
                };
                &&& survey.thinnest(
                    if max == 0 {
                        1
                    } else {
                        max as int
                    },
                    step as int,
                )
                &&& points@ == told(self@, t as int, survey.points(step as int))
                &&& forall|k: int|
                    0 <= k < points@.len() ==> #[trigger] points@[k] < self.grid.spec_len()
            },
    {
        if self.bracket(t).is_none() {
            return None;
        }
        let most: usize = if max == 0 {
            1
        } else {
            max
        };
        let ghost survey = Survey {
            nx: self.grid.nx as int,
            positions: positions@,
            area: area@,
            window: *window,
        };
        let top: usize = if window.i1 > window.j1 {
            window.i1
        } else {
            window.j1
        };
        let mut step: usize = 1;
        let mut points = take(&self.grid, positions, area, window, step);
        assert(self.grid.nx <= self.grid.spec_len() && self.grid.ny <= self.grid.spec_len()) by (
        nonlinear_arith)
            requires
                self.grid.spec_len() == self.grid.nx * self.grid.ny,
                self.grid.nx >= 1,
                self.grid.ny >= 1,
        ;
        while points.len() > most
            invariant
                self@.sound(),
                positions@.len() == self.grid.spec_len(),
                window.i1 < self.grid.nx,
                window.j1 < self.grid.ny,
                self.grid.nx <= MAX_POINTS,
                self.grid.ny <= MAX_POINTS,
                top >= window.i1,
                top >= window.j1,
                top < MAX_POINTS,
                1 <= step <= top + 1,
                most >= 1,
                survey == (Survey {
                    nx: self.grid.nx as int,
                    positions: positions@,
                    area: area@,
                    window: *window,
                }),
                points@ == survey.points(step as int),
                forall|k: int|
                    0 <= k < points@.len() ==> #[trigger] points@[k] < self.grid.spec_len(),
                forall|s: int| 1 <= s < step ==> (#[trigger] survey.points(s)).len() > most,
            decreases top + 1 - step,
        {
            proof {
                if step > top {
                    lemma_rows_short(survey, step as int, window.j1 + 1);
                }
            }
            step += 1;
            points = take(&self.grid, positions, area, window, step);
        }
        let points = tell(self, t, &points);
        proof {
            lemma_told(self@, t as int, survey.points(step as int), self.grid.spec_len());
        }
        Some((step, points))
    }
}

/// What is told of points is told of points of the same grid.
proof fn lemma_told(f: ForecastView, t: int, points: Seq<usize>, n: int)
    requires
        forall|k: int| 0 <= k < points.len() ==> #[trigger] points[k] < n,
    ensures
        forall|k: int| 0 <= k < told(f, t, points).len() ==> #[trigger] told(f, t, points)[k] < n,
    decreases points.len(),
{
    if points.len() > 0 {
        lemma_told(f, t, points.drop_last(), n);
        assert(points[points.len() - 1] < n);
        let rest = told(f, t, points.drop_last());
        assert forall|k: int| 0 <= k < told(f, t, points).len() implies #[trigger] told(
            f,
            t,
            points,
        )[k] < n by {
            if k < rest.len() {
                assert(told(f, t, points)[k] == rest[k]);
            }
        }
    }
}

// --- Laws -----------------------------------------------------------------------------

impl Survey {
    /// Whether a point is in the window's columns and rows.
    pub open spec fn frames(self, i: int, j: int) -> bool {
        &&& self.window.i0 <= i <= self.window.i1
        &&& self.window.j0 <= j <= self.window.j1
    }
}

proof fn lemma_in_row(s: Survey, step: int, j: int, n: int, i: int)
    requires
        s.window.i0 <= i < n,
        s.takes(step, i, j),
        0 <= j * s.nx + i <= usize::MAX,
    ensures
        s.row(step, j, n).contains((j * s.nx + i) as usize),
    decreases n,
{
    let k = (j * s.nx + i) as usize;
    if i == n - 1 {
        let before = s.row(step, j, n - 1);
        assert(before.push(k)[before.len() as int] == k);
    } else {
        lemma_in_row(s, step, j, n - 1, i);
        let before = s.row(step, j, n - 1);
        let at = choose|x: int| 0 <= x < before.len() && before[x] == k;
        assert(s.row(step, j, n)[at] == k);
    }
}

proof fn lemma_in_rows(s: Survey, step: int, n: int, i: int, j: int)
    requires
        s.window.i0 <= i <= s.window.i1,
        s.window.j0 <= j < n,
        s.takes(step, i, j),
        0 <= j * s.nx + i <= usize::MAX,
    ensures
        s.rows(step, n).contains((j * s.nx + i) as usize),
    decreases n,
{
    let k = (j * s.nx + i) as usize;
    let (a, b) = (s.rows(step, n - 1), s.row(step, n - 1, s.window.i1 + 1));
    if j == n - 1 {
        lemma_in_row(s, step, j, s.window.i1 + 1, i);
        let at = choose|x: int| 0 <= x < b.len() && b[x] == k;
        assert((a + b)[a.len() + at] == k);
    } else {
        lemma_in_rows(s, step, n - 1, i, j);
        let at = choose|x: int| 0 <= x < a.len() && a[x] == k;
        assert((a + b)[at] == k);
    }
}

/// Points stay put as the area moves: one that is taken for an area is taken
/// at the same step for any other area it is inside.
pub proof fn law_points_stay_put(a: Survey, b: Survey, step: int, i: int, j: int)
    requires
        a.nx == b.nx,
        a.positions == b.positions,
        a.takes(step, i, j),
        b.frames(i, j),
        0 <= j * b.nx + i <= usize::MAX,
        inside(b.positions, b.area, j * b.nx + i),
    ensures
        b.points(step).contains((j * b.nx + i) as usize),
{
    lemma_in_rows(b, step, b.window.j1 + 1, i, j);
}

/// Telling of points leaves some out and adds none.
proof fn lemma_told_few(f: ForecastView, t: int, points: Seq<usize>)
    ensures
        told(f, t, points).len() <= points.len(),
    decreases points.len(),
{
    if points.len() > 0 {
        lemma_told_few(f, t, points.drop_last());
    }
}

/// No more points are sent than were asked for.
pub proof fn law_no_more_points_than_asked_for(
    f: ForecastView,
    t: int,
    s: Survey,
    max: int,
    step: int,
)
    requires
        s.thinnest(max, step),
    ensures
        told(f, t, s.points(step)).len() <= max,
{
    lemma_told_few(f, t, s.points(step));
}

/// The hours either side of a time are either side of it, an hour apart.
pub proof fn law_a_bracket_is_around_its_time(f: ForecastView, t: int)
    requires
        f.sound(),
        f.hours.len() <= usize::MAX,
        f.first() <= t <= f.last(),
    ensures
        f.bracket(t) matches Some(b) && {
            let (x, y) = (f.hours[b.before as int].valid, f.hours[b.after as int].valid);
            &&& x <= t <= y
            &&& x + b.elapsed == t
            &&& x + b.length == y
        },
{
    let k = (t - f.run) / 3600;
    assert(f.hours[0].valid == f.run);
    assert(f.hours.last().valid == f.run + (f.hours.len() - 1) * 3600);
    assert(0 <= k <= f.hours.len() - 1);
    assert(f.hours[k].valid == f.run + k * 3600);
    if k + 1 < f.hours.len() {
        assert(f.hours[k + 1].valid == f.run + (k + 1) * 3600);
    }
}

} // verus!
