use omawind::config::{Edges, Region};
use omawind::fetch::{
    arrived, check, curl_args, download, filter_url, get, good_hours, is_cut_to, is_run_name, listing_url, named,
    newest_cached, newest_run, parse_listing, prune, runs_dir, turn, Cached, Page, Run, Search, Turn,
};
use omawind::forecast::hour_file;
use omawind::number::Real;
use omawind::time;

const LISTING: &str = r#"<a href="hrrr.t02z.wrfsfcf18.grib2">x</a> <a href="hrrr.t02z.wrfsfcf18.grib2.idx">
        <a href="hrrr.t03z.wrfsfcf00.grib2">x</a><a href="hrrr.t03z.wrfsfcf01.grib2">x</a>
        <a href="hrrr.t03z.wrfprsf00.grib2">x</a><a href="hrrr.t3z.wrfsfcf02.grib2">x</a>
        <a href="hrrr.t25z.wrfsfcf00.grib2">x</a><a href="hrrr.t03z.wrfsfcf03.grib2">x</a>"#;

fn shown(x: &Real) -> f64 {
    f64::from_bits(x.bits())
}

fn edges(r: &Region) -> Edges {
    Edges {
        south: shown(&r.south).to_string(),
        west: shown(&r.west).to_string(),
        north: shown(&r.north).to_string(),
        east: shown(&r.east).to_string(),
    }
}

#[test]
fn reads_runs_from_a_listing() {
    let runs = parse_listing("20260914", LISTING);
    assert_eq!(runs.len(), 2);
    assert_eq!(runs[0].hours, [18]);
    assert_eq!(runs[1].key(), "2026091403");
    assert_eq!(runs[1].hours, [0, 1, 3]);
    assert_eq!(runs[1].unbroken(), [0, 1]);
    assert!(!runs[1].ready());
    assert_eq!(runs[1].time(), Some(time::unix(2026, 9, 14, 3, 0, 0)));
}

#[test]
fn a_run_is_ready_with_its_first_18_hours() {
    let run = |n: u32| Run {
        day: "20260914".into(),
        hour: 0,
        hours: (0..n).collect(),
    };
    assert!(!run(18).ready());
    assert!(run(19).ready());
    assert!(run(49).ready());
}

#[test]
fn asks_nomads_for_the_region_and_four_fields() {
    let run = Run {
        day: "20260914".into(),
        hour: 3,
        hours: vec![],
    };
    let url = filter_url(&run, 1, &edges(&Region::bay()));
    assert!(url.starts_with(
        "https://nomads.ncep.noaa.gov/cgi-bin/filter_hrrr_2d.pl?dir=%2Fhrrr.20260914%2Fconus&file=hrrr.t03z.wrfsfcf01.grib2&"
    ));
    assert!(url.ends_with("&subregion=&toplat=38.8&leftlon=-123.8&rightlon=-121.6&bottomlat=36.8"));
    for v in ["UGRD", "VGRD", "GUST", "MSLMA"] {
        assert!(url.contains(&format!("&var_{v}=on")));
    }
}

const BAY: &str = "36.8000,-123.8000,38.8000,-121.6000";
const OTHER: &str = "47.0000,-123.5000,48.8000,-122.0000";

fn cached(name: &str, hours: usize, region: &str) -> Cached {
    Cached {
        name: name.to_string(),
        region: Some(region.to_string()),
        hours,
    }
}

fn pruned(names: &[&str], keep: &[&str]) -> Vec<usize> {
    let all: Vec<String> = names.iter().map(|s| s.to_string()).collect();
    let keep: Vec<String> = keep.iter().map(|s| s.to_string()).collect();
    prune(&all, &keep)
}

#[test]
fn picks_a_complete_run_over_a_newer_partial_one() {
    let mut runs = vec![
        cached("2026091401", 19, BAY),
        cached("2026091402", 5, BAY),
        cached("2026091403", 19, OTHER),
    ];
    assert_eq!(newest_cached(&runs, BAY), Some(0));
    runs.push(cached("2026091404", 19, BAY));
    assert_eq!(newest_cached(&runs, BAY), Some(3));
    let names = ["2026091401", "2026091402", "2026091403", "2026091404"];
    assert_eq!(pruned(&names, &["2026091404"]), [0, 1, 2]);
    let names = ["2026091404", "2026091405"];
    assert!(pruned(&names, &["2026091404"]).is_empty());
}

#[test]
fn an_old_forecast_beats_none() {
    let mut runs = vec![
        cached("2026091401", 3, BAY),
        cached("2026091402", 5, BAY),
        cached("2026091409", 0, BAY),
        cached("notarun", 40, BAY),
        cached("202609140x", 40, BAY),
    ];
    assert_eq!(newest_cached(&runs, BAY), Some(1));
    assert_eq!(newest_cached(&runs, OTHER), None);
    assert_eq!(newest_cached(&[], BAY), None);
    runs[1].region = None;
    assert_eq!(newest_cached(&runs, BAY), Some(0));
    runs[0].region = Some(format!("  {BAY}\n"));
    assert_eq!(newest_cached(&runs, BAY), Some(0));
    assert!(is_cut_to(&Some(format!("{BAY}\n")), BAY));
    assert!(!is_cut_to(&None, BAY));
}

#[test]
fn pruning_keeps_what_is_named_or_newer() {
    let names = ["2026091401", "keep", "2026091403", "2026091402", ".lock"];
    assert_eq!(pruned(&names, &["2026091403", "2026091401"]), [3]);
    assert!(pruned(&names, &[]).is_empty());
    assert!(is_run_name("2026091401") && !is_run_name("202609140") && !is_run_name("20260914x1"));
}

#[test]
fn a_listing_is_read_in_full() {
    let page: String = (0..30)
        .rev()
        .map(|h| format!("<a href=\"hrrr.t07z.wrfsfcf{h:02}.grib2\">hrrr</a>"))
        .collect();
    let twice = format!("{page}{page}href=\"hrrr.t06z.wrfsfcf49.grib2\"href=\"hrrr.t09z.wrfsfcf02.grib2href=\"x\"");
    let runs = parse_listing("20260914", &twice);
    assert_eq!(runs.len(), 2);
    assert_eq!(runs[0].hours, (0..30).collect::<Vec<u32>>());
    assert!(runs[0].ready());
    assert_eq!((runs[1].key().as_str(), runs[1].hours.as_slice()), ("2026091409", &[2][..]));
    assert!(parse_listing("20260914", "").is_empty());
    assert_eq!(
        listing_url("20260914"),
        "https://nomads.ncep.noaa.gov/pub/data/nccf/com/hrrr/prod/hrrr.20260914/conus/"
    );
}

#[test]
fn a_runs_time_needs_a_date() {
    let run = |day: &str, hour: u32| Run { day: day.into(), hour, hours: vec![] };
    assert_eq!(run("20260914", 24).time(), None);
    assert_eq!(run("20261314", 3).time(), None);
    assert_eq!(run("2026091", 3).time(), None);
    assert_eq!(run("2026é914", 3).time(), None);
    assert_eq!(run("20260914", 3).key(), "2026091403");
}

fn full(run: u32) -> String {
    (0..19).map(|h| format!("href=\"hrrr.t{run:02}z.wrfsfcf{h:02}.grib2\"")).collect()
}

#[test]
fn the_newest_run_is_todays_or_yesterdays() {
    let now = time::unix(2026, 9, 14, 0, 30, 0);
    let asks = |answers: &[Result<String, String>]| match newest_run(now, answers) {
        Search::Ask(day) => day,
        other => panic!("{other:?}"),
    };
    assert_eq!(asks(&[]), "20260914");
    // Today's folder doesn't exist until the first run lands.
    let missing = Err("curl: (22) The requested URL returned error: 404".to_string());
    assert_eq!(asks(&[missing.clone()]), "20260913");
    assert_eq!(asks(&[Ok("href=\"hrrr.t00z.wrfsfcf00.grib2\"".to_string())]), "20260913");
    let two = format!("{}{}href=\"hrrr.t23z.wrfsfcf00.grib2\"", full(21), full(22));
    match newest_run(now, &[missing.clone(), Ok(two)]) {
        Search::Found(run) => assert_eq!(run.key(), "2026091322"),
        other => panic!("{other:?}"),
    }
    assert!(matches!(newest_run(now, &[missing.clone(), Ok(String::new())]), Search::NotOut));
    match newest_run(now, &[Err("no route to host".to_string())]) {
        Search::Failed(e) => assert_eq!(e, "no route to host"),
        other => panic!("{other:?}"),
    }
}

#[test]
fn a_search_says_what_to_do_next() {
    match turn(Search::Ask("20260914".to_string())) {
        Turn::List(url) => assert_eq!(
            url,
            "https://nomads.ncep.noaa.gov/pub/data/nccf/com/hrrr/prod/hrrr.20260914/conus/"
        ),
        other => panic!("{other:?}"),
    }
    let run = Run { day: "20260914".into(), hour: 3, hours: vec![0, 1] };
    match turn(Search::Found(run)) {
        Turn::Download(run) => assert_eq!((run.key().as_str(), run.hours), ("2026091403", vec![0, 1])),
        other => panic!("{other:?}"),
    }
    let fails = |s: Search| match turn(s) {
        Turn::Fail(e) => e,
        other => panic!("{other:?}"),
    };
    assert_eq!(fails(Search::NotOut), "NOMADS lists no HRRR run with 18 hours out yet");
    assert_eq!(fails(Search::Failed("no route".to_string())), "no route");
}

#[test]
fn a_folders_name_is_read_back_as_its_run() {
    let run = named("2026091403").unwrap();
    assert_eq!((run.day.as_str(), run.hour, run.hours.len()), ("20260914", 3, 0));
    assert_eq!(run.key(), "2026091403");
    assert_eq!(run.time(), Some(time::unix(2026, 9, 14, 3, 0, 0)));
    for name in ["", "202609140", "20260914033", "202609140x", "2026091424", "2026093103", "2026001403"] {
        assert!(named(name).is_none(), "{name}");
    }
}

#[test]
fn runs_go_by_name_as_they_do_by_time() {
    let names = ["0000022923", "1969123123", "2026083123", "2026090100", "2026091403", "2026091404", "9999123123"];
    let times: Vec<i64> = names.iter().map(|n| named(n).unwrap().time().unwrap()).collect();
    assert!(names.windows(2).all(|w| w[0] < w[1]) && times.windows(2).all(|w| w[0] < w[1]));
}

#[test]
fn a_page_that_isnt_whole_says_why() {
    let why = |page: Page| get(&page, "https://x/", 16 << 20).unwrap_err();
    assert_eq!(why(Page::NotStarted("no such file".into())), "can't run curl: no such file");
    assert_eq!(why(Page::TooMuch), "https://x/: no answer, or more than 16 MB");
    assert_eq!(why(Page::Unknown("gone".into())), "curl: gone");
    assert_eq!(why(Page::Failed(" \n".into())), "curl failed on https://x/");
    assert_eq!(why(Page::Failed(" curl: (6) no host\n".into())), "curl: (6) no host");
    assert!(get(&Page::Whole, "https://x/", 1).is_ok());
    let args = curl_args("https://x/", 1234);
    assert_eq!(args[0], "--http1.1");
    assert_eq!(args[10], "omawind/0.1.0 (+https://omahoy.org)");
    assert_eq!(&args[11..], ["--max-filesize", "1234", "https://x/"]);
}

#[test]
fn hours_cut_to_another_region_are_fetched_again() {
    let run = Run { day: "20260914".into(), hour: 3, hours: (0..5).collect() };
    let file = Some(format!("{BAY}\n"));
    assert_eq!(download(&run, &file, BAY, &vec![0, 2]), (false, vec![1, 3, 4]));
    assert_eq!(download(&run, &file, OTHER, &vec![0, 2]), (true, vec![0, 1, 2, 3, 4]));
    assert_eq!(download(&run, &None, BAY, &vec![]), (true, vec![0, 1, 2, 3, 4]));
}

fn section(number: u8, body: &[u8]) -> Vec<u8> {
    let mut s = ((body.len() + 5) as u32).to_be_bytes().to_vec();
    s.push(number);
    s.extend(body);
    s
}

fn hour(lead: u8, numbers: &[u8]) -> Vec<u8> {
    let mut grid = vec![0, 0, 0, 0, 4, 0, 0, 0, 30, 6];
    grid.extend([0; 15]);
    for v in [2u32, 2, 36_364_046, 236_364_977] {
        grid.extend(v.to_be_bytes());
    }
    grid.push(8);
    for v in [38_500_000u32, 262_500_000, 3_000_000, 3_000_000] {
        grid.extend(v.to_be_bytes());
    }
    grid.extend([0, 0x40]);
    for v in [38_500_000u32, 38_500_000, 0, 0] {
        grid.extend(v.to_be_bytes());
    }
    let mut body = section(1, &[0, 7, 0, 0, 2, 1, 1, 0x07, 0xea, 9, 14, 3, 0, 0, 0, 1]);
    body.extend(section(3, &grid));
    for &n in numbers {
        body.extend(section(
            4,
            &[0, 0, 0, 0, 2, n, 2, 0, 0, 0, 0, 0, 1, 0, 0, 0, lead, 103, 0, 0, 0, 0, 10, 255, 0, 0, 0, 0, 0],
        ));
        body.extend(section(5, &[0, 0, 0, 4, 0, 0, 0x3f, 0x80, 0, 0, 0, 0, 0, 0, 0, 0]));
        body.extend(section(6, &[255]));
        body.extend(section(7, &[]));
    }
    body.extend(*b"7777");
    let mut m = b"GRIB\0\0\0\x02".to_vec();
    m.extend((16 + body.len() as u64).to_be_bytes());
    m.extend(body);
    m
}

#[test]
fn a_download_is_checked() {
    let run = Run { day: "20260914".into(), hour: 3, hours: vec![] };
    assert!(check(&hour(1, &[2, 3]), &run, 1).is_ok());
    let none = "the download has no 10 m wind for that hour";
    assert_eq!(check(&hour(1, &[2, 3]), &run, 2).unwrap_err(), none);
    assert_eq!(check(&hour(1, &[2]), &run, 1).unwrap_err(), none);
    let later = Run { day: "20260914".into(), hour: 4, hours: vec![] };
    assert_eq!(check(&hour(1, &[2, 3]), &later, 1).unwrap_err(), none);
    let bad = Run { day: "september".into(), hour: 4, hours: vec![] };
    assert_eq!(check(&hour(1, &[2, 3]), &bad, 1).unwrap_err(), "bad run name");
    assert!(check(b"<html>", &run, 1).unwrap_err().contains("not GRIB"));
    assert!(arrived(&hour(1, &[2, 3]), &run, 1).is_ok());
    assert_eq!(arrived(&hour(1, &[2]), &run, 1).unwrap_err(), format!("2026091403 hour 1: {none}"));
}

#[test]
fn the_first_bad_hour_ends_the_good_ones() {
    let run = Run { day: "20260914".into(), hour: 3, hours: vec![] };
    let files = vec![hour(0, &[2, 3]), hour(1, &[2, 3]), b"broken".to_vec(), hour(3, &[2, 3])];
    assert_eq!(good_hours(&run, &files), 2);
    assert_eq!(good_hours(&run, &files[..1].to_vec()), 1);
    assert_eq!(good_hours(&run, &vec![]), 0);
    // The bad hour is fetched again.
    let out = Run { day: "20260914".into(), hour: 3, hours: (0..4).collect() };
    assert_eq!(download(&out, &Some(BAY.to_string()), BAY, &vec![0, 1, 3]), (false, vec![2]));
}

#[test]
fn runs_and_hours_have_their_files() {
    assert_eq!(runs_dir(b"/cache"), b"/cache/hrrr");
    assert_eq!(hour_file(0), "f00.grib2");
    assert_eq!(hour_file(48), "f48.grib2");
    assert_eq!(hour_file(123), "f123.grib2");
}
