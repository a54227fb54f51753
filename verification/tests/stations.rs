use omawind::config::Region;
use omawind::number::Real;
use omawind::obs::{
    current, latest, merge, names, names_file, parse_latest, parse_names, report, Choice, Source, Station,
    MAX_AGE,
};
use omawind::time;

const HEADER: &str = "\
#STN       LAT      LON  YYYY MM DD hh mm WDIR WSPD   GST WVHT  DPD APD MWD   PRES
#text      deg      deg   yr mo day hr mn degT  m/s   m/s   m   sec sec degT   hPa
";

/// Knots in a metre a second.
const KNOTS: f64 = 3600.0 / 1852.0;

fn value(x: &Real) -> f64 {
    f64::from_bits(x.bits())
}

fn speed_kn(s: &Station) -> f64 {
    value(&s.speed) * KNOTS
}

fn gust_kn(s: &Station) -> Option<f64> {
    s.gust.map(|g| value(&g) * KNOTS)
}

fn from_deg(s: &Station) -> Option<f64> {
    s.from_deg.map(|d| value(&d))
}

fn parse(rows: &str) -> Vec<Station> {
    parse_latest(&format!("{HEADER}{rows}")).unwrap()
}

fn ids(stations: &[Station]) -> Vec<&str> {
    stations.iter().map(|s| s.id.as_str()).collect()
}

#[test]
fn reads_a_report_in_knots() {
    let s = parse(
        "AAMC1    37.772 -122.300 2026 09 14 17 00 120   1.5   2.1   MM  MM   MM  MM 1014.5\n",
    );
    assert_eq!(ids(&s), ["AAMC1"]);
    let a = &s[0];
    assert_eq!((value(&a.lat), value(&a.lon)), (37.772, -122.3));
    assert_eq!(a.time, time::unix(2026, 9, 14, 17, 0, 0));
    assert!((speed_kn(a) - 2.9158).abs() < 1e-3, "{}", speed_kn(a));
    assert_eq!(from_deg(a), Some(120.0));
    assert!((gust_kn(a).unwrap() - 4.0821).abs() < 1e-3);
    assert_eq!(a.name, None);
}

#[test]
fn leaves_out_what_cant_be_drawn_or_read() {
    let s = parse(
        "\
46214 37.944 -123.466 2026 09 14 16 56  MM   MM  MM
MLSC1 36.802 -121.791 2026 09 14 17 16  MM  1.5  MM
CALM1 37.000 -122.000 2026 09 14 17 00  MM  0.0  MM
BADLA 97.000 -122.000 2026 09 14 17 00 120  1.5  MM
BADTM 37.000 -122.000 2026 09 31 17 00 120  1.5  MM
BADDR 37.000 -122.000 2026 09 14 17 00 999  1.5  MM
FAST1 37.000 -122.000 2026 09 14 17 00 120  101  MM
SHORT 37.000 -122.000 2026 09 14
<html>not a report</html>
",
    );
    assert_eq!(ids(&s), ["CALM1"]);
    assert_eq!((speed_kn(&s[0]), from_deg(&s[0])), (0.0, None));
}

#[test]
fn a_file_with_no_report_that_reads_is_an_error() {
    // Truncated, or a page that isn't the reports: the last good ones
    // should stay, so this mustn't read as an empty Bay.
    for body in [
        "",
        "AAMC1 37.772 -122.300 2026 09\n",
        "<html>\nnot a report\n</html>\n",
    ] {
        let e = parse_latest(&format!("{HEADER}{body}")).unwrap_err();
        assert!(e.contains("no reports"), "{body:?}: {e}");
    }
    // A file whose stations all report no wind is still a good file.
    assert!(parse("46214 37.944 -123.466 2026 09 14 16 56 MM MM MM\n").is_empty());
}

#[test]
fn keeps_a_stations_newest_report() {
    let s = parse(
        "\
AAMC1 37.772 -122.300 2026 09 14 16 00 100 1.0 MM
aamc1 37.772 -122.300 2026 09 14 17 00 120 1.5 MM
AAMC1 37.772 -122.300 2026 09 14 15 00 140 2.0 MM
",
    );
    assert_eq!(ids(&s), ["AAMC1"]);
    assert_eq!(from_deg(&s[0]), Some(120.0));
}

#[test]
fn finds_columns_by_the_header() {
    let moved = "#STN LAT LON WSPD GST WDIR YYYY MM DD hh mm\nAAMC1 37.772 -122.300 1.5 MM 360 2026 09 14 17 00\n";
    let s = parse_latest(moved).unwrap();
    assert_eq!(from_deg(&s[0]), Some(0.0));
    assert!(
        parse_latest("AAMC1 37.772 -122.300 2026 09 14 17 00 120 1.5 2.1\n")
            .unwrap_err()
            .contains("no header")
    );
    assert!(
        parse_latest("#STN LAT LON YYYY MM DD hh mm WDIR GST\n")
            .unwrap_err()
            .contains("no WSPD column")
    );
}

#[test]
fn shows_the_regions_recent_reports() {
    let s = parse(
        "\
AAMC1 37.772 -122.300 2026 09 14 17 00 120 1.5 MM
OLD01 37.772 -122.300 2026 09 14 15 00 120 1.5 MM
AHEAD 37.772 -122.300 2026 09 14 18 00 120 1.5 MM
51201 21.673 -158.116 2026 09 14 17 00 120 1.5 MM
",
    );
    let now = time::unix(2026, 9, 14, 17, 30, 0);
    let shown: Vec<&str> = current(&s, &Region::bay(), now)
        .into_iter()
        .map(|i| s[i].id.as_str())
        .collect();
    assert_eq!(shown, ["AAMC1"]);
}

#[test]
fn a_report_is_shown_until_it_is_over_2_hours_old() {
    let s = parse("AAMC1 37.772 -122.300 2026 09 14 17 00 120 1.5 MM\n");
    let taken = time::unix(2026, 9, 14, 17, 0, 0);
    let shown = |now: i64| current(&s, &Region::bay(), now).len();
    assert_eq!(s[0].time, taken);
    assert_eq!(shown(taken + MAX_AGE), 1);
    assert_eq!(shown(taken + MAX_AGE + 1), 0);
    assert_eq!(shown(taken - 900), 1);
    assert_eq!(shown(taken - 901), 0);
}

#[test]
fn trims_names_for_a_chart() {
    let n = parse_names(
        "\
# STATION_ID | OWNER | TTYPE | HULL | NAME | PAYLOAD | LOCATION | TIMEZONE | FORECAST | NOTE
#
aamc1|O|Water Level Observation Network||9414750 - Alameda, CA||37.772 N 122.300 W|P| |
46026|N|3-meter foam buoy|3DV40|SAN FRANCISCO - 18NM West of San Francisco, CA|SCOOP payload|37.750 N|P| |
x1|N|||Boats &amp; Buoys||||
x2|N|||Clear\x1b[2J\x1b[H Screen||||
blank|N|||   ||||
short|N
",
    );
    let name = |id: &str| n.get(id).unwrap().as_str();
    assert_eq!(name("AAMC1"), "Alameda");
    assert_eq!(name("46026"), "SAN FRANCISCO - 18NM West of San Francisco");
    assert_eq!(name("X1"), "Boats & Buoys");
    assert_eq!(name("X2"), "Clear[2J[H Screen");
    assert_eq!(n.len(), 4);
}

fn ndbc(c: Choice, id: &str) -> (&'static str, Option<String>) {
    match c {
        Choice::Kept(m) => ("kept", m.get(id).cloned()),
        Choice::Ask => ("ask", None),
        Choice::Fetched(m) => ("fetched", m.get(id).cloned()),
        Choice::Failed(e) => ("failed", Some(e)),
    }
}

#[test]
fn keeps_names_a_week_and_falls_back_to_them() {
    let source = Source::ndbc();
    let week = 7 * 24 * 3600;
    let alameda = "aamc1|O|||9414750 - Alameda, CA||\n".to_string();
    let richmond = "rcmc1|PT|||9414863 - Richmond, CA||\n".to_string();
    let gone: Result<String, String> = Err("can't be reached".to_string());
    // With nothing kept NDBC is asked, and its answer is used.
    assert_eq!(ndbc(names(&source, None, &None, &None), "").0, "ask");
    let fetched = Some(Ok(alameda.clone()));
    assert_eq!(
        ndbc(names(&source, None, &None, &fetched), "AAMC1"),
        ("fetched", Some("Alameda".to_string()))
    );
    // Within the week NDBC isn't asked.
    let kept = Some(alameda);
    assert_eq!(
        ndbc(names(&source, Some(week - 1), &kept, &None), "AAMC1"),
        ("kept", Some("Alameda".to_string()))
    );
    // After it, it is.
    assert_eq!(ndbc(names(&source, Some(week), &kept, &None), "").0, "ask");
    assert_eq!(
        ndbc(names(&source, Some(week), &kept, &Some(Ok(richmond))), "RCMC1"),
        ("fetched", Some("Richmond".to_string()))
    );
    // And when it can't answer, the old copy stands in.
    let old = names(&source, Some(week), &kept, &Some(gone.clone()));
    assert_eq!(ndbc(old, "AAMC1"), ("kept", Some("Alameda".to_string())));
    let empty = names(&source, Some(week), &kept, &Some(Ok("#\n".to_string())));
    assert_eq!(ndbc(empty, "AAMC1").0, "kept");
    // With nothing kept, the failure is said.
    let said = names(&source, None, &None, &Some(gone));
    assert_eq!(ndbc(said, ""), ("failed", Some("can't be reached".to_string())));
    let said = names(&source, None, &Some(String::new()), &Some(Ok(String::new())));
    assert_eq!(ndbc(said, "").1.unwrap(), format!("{}: no station names in it", source.names));
}

#[test]
fn stations_come_by_id_and_named() {
    let text = format!(
        "{HEADER}\
RCMC1 37.928 -122.400 2026 09 14 17 00 200 3.0 4.0
46026 37.750 -122.838 2026 09 14 16 50 310 8.0 9.5
AAMC1 37.772 -122.300 2026 09 14 17 00 120 1.5 2.1
"
    );
    let names = parse_names("aamc1|O|||9414750 - Alameda, CA||\n");
    let s = latest(&text, &names).unwrap();
    assert_eq!(ids(&s), ["46026", "AAMC1", "RCMC1"]);
    assert_eq!((s[0].name.as_deref(), s[1].name.as_deref()), (None, Some("Alameda")));
    assert_eq!(latest("", &names).unwrap_err(), "latest_obs.txt: no header");
}

#[test]
fn merging_loses_no_station() {
    let at = |rows: &str| parse(rows);
    let kept = at("\
AAMC1 37.772 -122.300 2026 09 14 17 00 120 1.5 MM
BBBB1 37.772 -122.300 2026 09 14 17 00 130 1.5 MM
CCCC1 37.772 -122.300 2026 09 14 17 00 140 1.5 MM
");
    let fetched = at("\
AAMC1 37.772 -122.300 2026 09 14 17 30 220 1.5 MM
CCCC1 37.772 -122.300 2026 09 14 16 30 240 1.5 MM
DDDD1 37.772 -122.300 2026 09 14 16 30 250 1.5 MM
");
    let all = merge(kept, fetched);
    assert_eq!(ids(&all), ["AAMC1", "BBBB1", "CCCC1", "DDDD1"]);
    let dirs: Vec<Option<f64>> = all.iter().map(from_deg).collect();
    assert_eq!(dirs, [Some(220.0), Some(130.0), Some(140.0), Some(250.0)]);
}

#[test]
fn a_report_is_judged_by_what_it_reads_as() {
    let num = |x: f64| Some(Real::new(x.to_bits()).unwrap());
    let id: Vec<char> = "aamc1".chars().collect();
    let told = |wdir: Option<Real>, wspd: Option<Real>, gst: Option<Real>| {
        report(&id, num(37.0), num(-122.0), Some(7), wdir, wspd, gst)
    };
    let s = told(num(359.5), num(100.0), num(150.0)).unwrap().unwrap();
    assert_eq!((s.id.as_str(), s.time, value(&s.speed)), ("AAMC1", 7, 100.0));
    assert_eq!((from_deg(&s), s.gust.map(|g| value(&g))), (Some(359.5), Some(150.0)));
    assert!(told(num(360.0), num(1.0), num(151.0)).unwrap().unwrap().gust.is_none());
    assert!(told(num(-1.0), num(1.0), None).unwrap().is_none());
    assert!(told(num(1.0), num(-0.1), None).unwrap().is_none());
    assert!(told(num(1.0), None, None).unwrap().is_none());
    assert!(told(None, num(0.0), None).unwrap().is_some());
    let odd: Vec<char> = "aa-c1".chars().collect();
    assert!(report(&odd, num(1.0), num(1.0), Some(7), num(1.0), num(1.0), None).is_none());
    let long: Vec<char> = "abcdefghijklm".chars().collect();
    assert!(report(&long, num(1.0), num(1.0), Some(7), num(1.0), num(1.0), None).is_none());
    assert!(report(&id, num(1.0), num(1.0), None, num(1.0), num(1.0), None).is_none());
    assert!(report(&id, None, num(1.0), Some(7), num(1.0), num(1.0), None).is_none());
}

#[test]
fn ndbc_is_where_it_is() {
    let s = Source::ndbc();
    assert_eq!(s.latest, "https://www.ndbc.noaa.gov/data/latest_obs/latest_obs.txt");
    assert_eq!(s.names, "https://www.ndbc.noaa.gov/data/stations/station_table.txt");
    assert_eq!(names_file(b"/cache"), b"/cache/ndbc/station_table.txt");
}

#[test]
fn a_later_name_replaces_an_earlier_one() {
    let n = parse_names("a|||| One ||\nA||||Two, XX||\n||||Nobody||\nb||||12 - , CA|\nc||||x - y, Ca|\n");
    assert_eq!(n.get("A").unwrap(), "Two");
    assert!(!n.contains_key(""));
    assert!(!n.contains_key("B"));
    assert_eq!(n.get("C").unwrap(), "x - y, Ca");
    assert_eq!(n.len(), 2);
}
