use omawind::config::Region;
use omawind::forecast::{corners, Forecast, Window};
use omawind::grib::{Field, Packed};
use omawind::grid::{Grid, Lambert, Scaled};
use omawind::number::Real;

const RUN: i64 = 1_789_354_800;

fn num(x: f64) -> Real {
    Real::new(x.to_bits()).unwrap()
}

fn grid(nx: usize, ny: usize) -> Grid {
    Grid::lambert(Lambert {
        nx,
        ny,
        la1: 36_364_046,
        lo1: -123_635_023,
        lov: -97_500_000,
        lad: 38_500_000,
        latin1: 38_500_000,
        latin2: 38_500_000,
        dx: 3_000_000,
        dy: 3_000_000,
        radius: Scaled { scale: 0, value: 6_371_229 },
        winds_along_grid: true,
        rows_north: true,
    })
    .unwrap()
}

fn field(g: Grid, parameter: (u8, u8, u8), level: Option<Scaled>, hour: i64, gaps: &[usize]) -> Field {
    Field {
        discipline: 0,
        category: parameter.0,
        number: parameter.1,
        surface: parameter.2,
        level,
        reference: RUN,
        lead: hour * 3600,
        grid: g,
        values: Packed {
            reference: 0,
            binary: 0,
            decimal: 0,
            values: (0..g.len()).map(|i| if gaps.contains(&i) { None } else { Some(i as u32) }).collect(),
        },
    }
}

const TEN: Option<Scaled> = Some(Scaled { scale: 1, value: 100 });

fn wind(g: Grid, hour: i64) -> Vec<Field> {
    vec![field(g, (2, 2, 103), TEN, hour, &[]), field(g, (2, 3, 103), TEN, hour, &[])]
}

#[test]
fn hours_make_a_forecast() {
    let g = grid(3, 3);
    let mut second = wind(g, 1);
    second.push(field(g, (3, 1, 101), None, 1, &[]));
    second.push(field(g, (3, 198, 101), None, 1, &[4]));
    second.push(field(g, (2, 22, 1), None, 1, &[]));
    let f = Forecast::from_hours(&vec![wind(g, 0), second]).unwrap();
    assert_eq!((f.run, f.first(), f.last()), (RUN, RUN, RUN + 3600));
    assert_eq!(f.hours.len(), 2);
    assert!(f.hours[0].gust.is_none() && f.hours[1].gust.is_some());
    // MAPS's pressure before the standard one.
    assert_eq!(f.hours[1].pressure.as_ref().unwrap().values[4], None);
}

#[test]
fn hours_that_dont_fit_make_none() {
    let g = grid(3, 3);
    let err = |hours: Vec<Vec<Field>>| Forecast::from_hours(&hours).unwrap_err();
    assert_eq!(err(vec![]), "no forecast hours");
    assert_eq!(err(vec![wind(g, 0), vec![]]), "hour 1 has no 10 m wind");
    let mut low = wind(g, 0);
    low[1].level = Some(Scaled { scale: 0, value: 80 });
    assert_eq!(err(vec![low]), "hour 0 has no 10 m wind");
    assert_eq!(err(vec![wind(g, 1)]), "hour 0: UGRD doesn't match the run, hour or grid");
    let mut odd = wind(g, 0);
    odd[1].grid = grid(3, 4);
    odd[1].values.values.extend([Some(0); 3]);
    assert_eq!(err(vec![odd]), "hour 0: VGRD doesn't match the run, hour or grid");
    let mut late = wind(g, 0);
    late.push(field(g, (2, 22, 1), None, 1, &[]));
    assert_eq!(err(vec![late]), "hour 0: GUST doesn't match the run, hour or grid");
    let mut other = wind(g, 0);
    other.push(field(g, (3, 198, 101), None, 2, &[]));
    assert_eq!(err(vec![other]), "hour 0: MSLMA doesn't match the run, hour or grid");
    assert_eq!(err(vec![wind(g, 0), wind(grid(4, 3), 1)]), "hour 1 is from another run or grid");
}

#[test]
fn a_time_falls_between_its_hours() {
    let g = grid(3, 3);
    let f = Forecast::from_hours(&vec![wind(g, 0), wind(g, 1), wind(g, 2)]).unwrap();
    let b = f.bracket(RUN + 1800).unwrap();
    assert_eq!((b.before, b.after, b.elapsed, b.length), (0, 1, 1800, 3600));
    let b = f.bracket(RUN + 3600).unwrap();
    assert_eq!((b.before, b.after, b.elapsed), (1, 2, 0));
    let b = f.bracket(RUN + 7200).unwrap();
    assert_eq!((b.before, b.after, b.elapsed, b.length), (2, 2, 0, 0));
    assert!(f.bracket(RUN - 1).is_none() && f.bracket(RUN + 7201).is_none());
}

#[test]
fn a_gap_in_the_wind_leaves_nothing_to_say() {
    let g = grid(3, 3);
    let hour = |h: i64, gaps: &[usize]| {
        vec![
            field(g, (2, 2, 103), TEN, h, &[]),
            field(g, (2, 3, 103), TEN, h, gaps),
            field(g, (2, 22, 1), None, h, &[1]),
            field(g, (3, 198, 101), None, h, &[]),
        ]
    };
    let f = Forecast::from_hours(&vec![hour(0, &[]), hour(1, &[8])]).unwrap();
    let m = f.combine(RUN + 60, &[0, 2]).unwrap();
    assert!(m.gust && m.pressure);
    let m = f.combine(RUN + 60, &[0, 1]).unwrap();
    assert!(!m.gust && m.pressure);
    assert!(f.combine(RUN + 60, &[7, 8]).is_none());
    assert!(f.combine(RUN + 9999, &[0]).is_none());
    let bare = Forecast::from_hours(&vec![wind(g, 0)]).unwrap().combine(RUN, &[0]).unwrap();
    assert!(!bare.gust && !bare.pressure);
}

#[test]
fn a_place_has_four_corners() {
    let g = grid(4, 3);
    assert_eq!(corners(&g, 0, 0), [0, 1, 4, 5]);
    assert_eq!(corners(&g, 1, 1), [5, 6, 9, 10]);
    assert_eq!(corners(&g, 3, 2), [6, 7, 10, 11]);
}

fn places(nx: usize, ny: usize) -> Vec<Option<(Real, Real)>> {
    (0..nx * ny).map(|k| Some((num((k / nx) as f64), num((k % nx) as f64)))).collect()
}

fn area(south: f64, west: f64, north: f64, east: f64) -> Region {
    Region { south: num(south), west: num(west), north: num(north), east: num(east) }
}

#[test]
fn a_field_is_thinned_by_the_smallest_step() {
    let g = grid(10, 8);
    let f = Forecast::from_hours(&vec![wind(g, 0)]).unwrap();
    let at = places(10, 8);
    let all = Window { i0: 0, i1: 9, j0: 0, j1: 7 };
    let field = |a: &Region, w: &Window, max: usize| f.field(&at, a, w, RUN, max).unwrap();
    let whole = area(0.0, 0.0, 7.0, 9.0);
    let (step, points) = field(&whole, &all, 80);
    assert_eq!((step, points.len()), (1, 80));
    let (step, points) = field(&whole, &all, 79);
    assert_eq!((step, points.len(), &points[..3]), (2, 20, &[0, 2, 4][..]));
    let (step, points) = field(&whole, &all, 0);
    assert_eq!((step, points), (10, vec![0]));
    // Columns 1, 3, 5 and 7 hold no second column, so 2 is enough where an
    // estimate from the count would take 3.
    let narrow = area(1.0, 1.0, 7.0, 3.0);
    let (step, points) = field(&narrow, &all, 3);
    assert_eq!((step, points), (2, vec![22, 42, 62]));
    assert!(f.field(&at, &whole, &all, RUN + 1, 9).is_none());
    let outside = area(20.0, 20.0, 21.0, 21.0);
    assert_eq!(field(&outside, &all, 5), (1, vec![]));
    let some = Window { i0: 8, i1: 9, j0: 6, j1: 7 };
    assert_eq!(field(&whole, &some, 5), (1, vec![68, 69, 78, 79]));
}

#[test]
fn points_stay_put_as_the_area_moves() {
    let g = grid(10, 8);
    let f = Forecast::from_hours(&vec![wind(g, 0)]).unwrap();
    let at = places(10, 8);
    let all = Window { i0: 0, i1: 9, j0: 0, j1: 7 };
    let a = f.field(&at, &area(0.0, 0.0, 5.0, 5.0), &all, RUN, 9).unwrap();
    let b = f.field(&at, &area(1.0, 1.0, 6.0, 6.0), &all, RUN, 9).unwrap();
    assert_eq!((a.0, b.0), (2, 2));
    for k in a.1 {
        let inside = k / 10 >= 1 && k % 10 >= 1;
        assert_eq!(b.1.contains(&k), inside, "{k}");
    }
}

#[test]
fn points_that_cant_be_placed_or_told_are_left_out() {
    let g = grid(3, 2);
    let mut gap = wind(g, 0);
    gap[0].values.values[4] = None;
    let f = Forecast::from_hours(&vec![gap]).unwrap();
    let mut at = places(3, 2);
    at[0] = None;
    let all = Window { i0: 0, i1: 2, j0: 0, j1: 1 };
    let (step, points) = f.field(&at, &area(0.0, 0.0, 2.0, 2.0), &all, RUN, 9).unwrap();
    assert_eq!((step, points), (1, vec![1, 2, 3, 5]));
}
