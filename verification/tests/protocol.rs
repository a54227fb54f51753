use omawind::client::{request, Lines, Roster, What, MAX_LINE};
use omawind::config::{Region, Settings};
use omawind::engine::{
    default_socket, encode, error_reply, field_reply, hello, lock_path, next_fetch, point_reply, tick, Ask, FetchEvent,
    Point, Sample, Samples, Then, Tick, Wind,
};
use omawind::forecast::Forecast;
use omawind::grib::{Field, Packed};
use omawind::grid::{Grid, Lambert, Scaled};
use omawind::json::{from_text, Json};
use omawind::keel::{Boat, Update};
use omawind::number::Real;
use omawind::obs::parse_latest;
use omawind::paths::Environment;
use omawind::time;
use serde_json::{Number, Value};

fn num(x: f64) -> Real {
    Real::new(x.to_bits()).unwrap()
}

fn round(v: f64, places: i32) -> f64 {
    let k = 10f64.powi(places);
    (v * k).round() / k
}

/// A message as it is sent.
fn sent(j: &Json) -> Value {
    let float = |v: f64| Value::Number(Number::from_f64(v).unwrap());
    let x = |r: &Real| f64::from_bits(r.bits());
    match j {
        Json::Null => Value::Null,
        Json::Bool(b) => Value::Bool(*b),
        Json::Number(n) => match (n.unsigned, n.signed) {
            (Some(u), _) => Value::from(u),
            (None, Some(i)) => Value::from(i),
            _ => float(f64::from_bits(n.float.unwrap())),
        },
        Json::Text(s) => Value::String(s.clone()),
        Json::List(v) => Value::Array(v.iter().map(sent).collect()),
        Json::Object(f) => {
            let mut m = serde_json::Map::new();
            for (k, v) in f {
                assert!(m.insert(k.clone(), sent(v)).is_none(), "{k} twice");
            }
            Value::Object(m)
        }
        Json::Count(n) => Value::from(*n),
        Json::Exact(r) => float(x(r)),
        Json::Rounded(r, places) => float(round(x(r), *places as i32)),
        Json::Knots(r) => float(round(x(r) * 3600.0 / 1852.0, 1)),
    }
}

const RUN: i64 = 1_789_354_800;

fn forecast(hours: i64) -> Forecast {
    let grid = Grid::lambert(Lambert {
        nx: 2,
        ny: 2,
        la1: 36_364_046,
        lo1: -123_635_023,
        lov: -97_500_000,
        lad: 38_500_000,
        latin1: 38_500_000,
        latin2: 38_500_000,
        dx: 3_000_000,
        dy: 3_000_000,
        radius: Scaled { scale: 0, value: 6_371_229 },
        winds_along_grid: true,
        rows_north: true,
    })
    .unwrap();
    let field = |number: u8, h: i64| Field {
        discipline: 0,
        category: 2,
        number,
        surface: 103,
        level: Some(Scaled { scale: 0, value: 10 }),
        reference: RUN,
        lead: h * 3600,
        grid,
        values: Packed { reference: 0, binary: 0, decimal: 0, values: vec![Some(1); 4] },
    };
    let fields: Vec<Vec<Field>> = (0..hours).map(|h| vec![field(2, h), field(3, h)]).collect();
    Forecast::from_hours(&fields).unwrap()
}

fn sample(kn: f64, deg: f64) -> Sample {
    Sample {
        speed_kn: num(kn),
        from_deg: num(deg),
        gust_kn: Some(num(17.94)),
        pressure_hpa: None,
    }
}

fn none(hours: usize) -> Samples {
    Samples { now: None, ever: false, hours: vec![None; hours] }
}

fn shown() -> Wind {
    let mut w = Wind::new(false, true, false);
    w.load_newest(Some(("2026091403".to_string(), forecast(3))), None);
    w
}

fn four_utc() -> i64 {
    time::unix(2026, 9, 14, 4, 0, 0)
}

fn six_utc() -> i64 {
    time::unix(2026, 9, 14, 6, 0, 0)
}

#[test]
fn the_state_says_the_wind_at_home_then_at_the_boat() {
    let mut w = shown();
    let samples = Samples {
        now: Some(sample(9.27, 285.78)),
        ever: true,
        hours: vec![Some(sample(1.0, 0.0)), Some(sample(2.0, 359.6)), None],
    };
    let state = sent(&w.state(four_utc() + 59, &samples));
    assert_eq!((&state["type"], &state["v"]), (&Value::from("state"), &Value::from(1)));
    let f = &state["forecast"];
    assert_eq!((f["status"].as_str(), f["model"].as_str()), (Some("ok"), Some("HRRR")));
    assert_eq!(f["run"], "2026-09-14T03:00:00Z");
    assert_eq!((f["ageMinutes"].as_u64(), f["hours"].as_u64()), (Some(60), Some(3)));
    assert_eq!((f["first"].as_str(), f["last"].as_str()), (Some("2026-09-14T03:00:00Z"), Some("2026-09-14T05:00:00Z")));
    assert_eq!(f["region"]["south"], 36.8);
    assert_eq!((state["fetch"]["status"].as_str(), state["keel"].as_str()), (Some("off"), Some("lost")));
    let here = &state["here"];
    assert_eq!((here["at"].as_str(), here["time"].as_str()), (Some("home"), Some("2026-09-14T04:00:00Z")));
    assert_eq!((here["lat"].as_f64(), here["lon"].as_f64()), (Some(37.8663), Some(-122.3148)));
    assert_eq!((here["speedKn"].as_f64(), here["dirDeg"].as_u64(), here["gustKn"].as_f64()), (Some(9.3), Some(286), Some(17.9)));
    assert!(here.get("pressureHpa").is_none() && here.get("stale").is_none() && here.get("note").is_none());
    // The hour under way and the ones after it, where there is a sample.
    let outlook = state["outlook"].as_array().unwrap();
    assert_eq!(outlook.len(), 1);
    assert_eq!((outlook[0]["time"].as_str(), outlook[0]["dirDeg"].as_u64()), (Some("2026-09-14T04:00:00Z"), Some(0)));
    assert!(state.get("problems").is_none());

    w.update(Update::Boat(Some(Boat { lat: num(37.652249), lon: num(-122.408667), current: false })));
    let state = sent(&w.state(four_utc(), &samples));
    assert_eq!((state["keel"].as_str(), state["here"]["at"].as_str()), (Some("connected"), Some("boat")));
    assert_eq!((state["here"]["lat"].as_f64(), state["here"]["stale"].as_bool()), (Some(37.65225), Some(true)));
    w.update(Update::Lost);
    assert_eq!(sent(&w.state(four_utc(), &samples))["here"]["at"], "home");
}

#[test]
fn a_forecast_that_runs_out_or_ages_says_so() {
    let mut w = shown();
    w.reread_settings(Settings::parse("home = 37.8, -122.45\n").0, vec!["config.toml: unknown setting bogus".to_string()]);
    let gone = Samples { now: None, ever: true, hours: vec![None; 3] };
    let state = sent(&w.state(six_utc(), &gone));
    assert_eq!(state["forecast"]["status"], "expired");
    assert_eq!(state["here"]["lat"], 37.8);
    assert!(state["here"].get("speedKn").is_none());
    assert_eq!(state["here"]["note"], "no forecast for now: the newest one has run out");
    assert_eq!(state["outlook"].as_array().unwrap().len(), 0);
    assert_eq!(state["problems"][0], "config.toml: unknown setting bogus");
    let away = sent(&w.state(six_utc(), &none(3)));
    assert_eq!(away["here"]["note"], "the home is outside the forecast area");
    w.load_newest(Some(("2026091403".to_string(), forecast(9))), None);
    let at = |t: i64| sent(&w.state(t, &none(9)))["forecast"]["status"].as_str().unwrap().to_string();
    assert_eq!(at(RUN + 4 * 3600 - 60), "ok");
    assert_eq!(at(RUN + 4 * 3600), "old");
    assert_eq!(at(RUN + 8 * 3600), "old");
    assert_eq!(at(RUN + 8 * 3600 + 60), "expired");
    assert_eq!(sent(&w.state(RUN - 3600, &none(9)))["forecast"]["ageMinutes"], 0);
}

#[test]
fn with_nothing_cached_the_state_has_no_forecast() {
    let w = Wind::new(true, false, true);
    let state = sent(&w.state(four_utc(), &none(0)));
    assert_eq!(state["forecast"]["status"], "none");
    assert_eq!(state["forecast"]["region"]["south"], 36.8);
    assert_eq!(state["here"]["note"], "no forecast yet");
    assert_eq!((state["fetch"]["status"].as_str(), state["keel"].as_str()), (Some("idle"), Some("off")));
    let m = from_text(r#"{"type":"field","south":37,"west":-123,"north":38,"east":-122}"#).unwrap();
    let reply = sent(&w.answer(&m, four_utc()).unwrap_err());
    assert_eq!(reply["message"], "field: no forecast yet");
    assert!(reply.get("id").is_none());
}

#[test]
fn fetching_goes_through_its_states() {
    let mut w = Wind::new(true, true, false);
    let says = |w: &Wind| sent(&w.state(four_utc(), &none(0)))["fetch"].clone();
    assert!(matches!(w.fetched(FetchEvent::Checking, 1), Then::Nothing));
    assert_eq!(says(&w)["status"], "checking");
    assert!(matches!(w.fetched(FetchEvent::Downloading(3, 19), 1), Then::Nothing));
    let f = says(&w);
    assert_eq!((f["status"].as_str(), f["done"].as_u64(), f["total"].as_u64()), (Some("downloading"), Some(3), Some(19)));
    assert!(matches!(w.fetched(FetchEvent::Failed("no route".to_string()), 1), Then::Reload));
    let f = says(&w);
    assert_eq!((f["status"].as_str(), f["message"].as_str()), (Some("error"), Some("no route")));
    assert!(f.get("done").is_none() && f.get("checked").is_none());
    // What went wrong is said with the error only.
    w.fetched(FetchEvent::Checking, 1);
    assert!(says(&w).get("message").is_none());
    match w.fetched(FetchEvent::Fetched("2026091403".to_string()), four_utc()) {
        Then::ReloadAndPrune(run) => assert_eq!(run, "2026091403"),
        other => panic!("{other:?}"),
    }
    let f = says(&w);
    assert_eq!((f["status"].as_str(), f["checked"].as_str()), (Some("idle"), Some("2026-09-14T04:00:00Z")));
    assert!(f.get("message").is_none());
    // A failure leaves when NOMADS last answered.
    w.fetched(FetchEvent::Failed("no route".to_string()), six_utc());
    let f = says(&w);
    assert_eq!((f["status"].as_str(), f["checked"].as_str()), (Some("error"), Some("2026-09-14T04:00:00Z")));
}

#[test]
fn whats_on_show_stays_while_the_cache_is_bad() {
    let mut w = shown();
    w.load_newest(None, Some("2026091404: hour 0 has no 10 m wind".to_string()));
    let state = sent(&w.state(four_utc(), &none(3)));
    assert_eq!((state["forecast"]["status"].as_str(), w.run.as_deref()), (Some("ok"), Some("2026091403")));
    assert_eq!(state["problems"][0], "2026091404: hour 0 has no 10 m wind");
    w.update(Update::Incompatible(2));
    let state = sent(&w.state(four_utc(), &none(3)));
    assert_eq!((state["problems"].as_array().unwrap().len(), state["keel"].as_str()), (2, Some("incompatible")));
    w.load_newest(None, None);
    assert!(w.forecast.is_none() && w.run.is_none());
}

#[test]
fn another_region_clears_the_forecast() {
    let mut w = shown();
    assert!(!w.reread_settings(Settings::default(), vec![]));
    assert!(w.forecast.is_some());
    assert!(w.reread_settings(Settings::parse("region = 47.0, -123.5, 48.8, -122.0\n").0, vec![]));
    assert!(w.forecast.is_none() && w.run.is_none());
}

#[test]
fn bad_requests_are_answered() {
    let w = shown();
    for (text, id, says) in [
        (r#"{"type":"field","id":9,"south":1}"#, Some(9), "field: west must be a number"),
        (r#"{"type":"field","id":9,"west":1}"#, Some(9), "field: south must be a number"),
        (r#"{"type":"field","south":1,"west":1,"east":2}"#, None, "field: north must be a number"),
        (r#"{"type":"field","south":1,"west":1,"north":2}"#, None, "field: east must be a number"),
        (
            r#"{"type":"field","id":10,"south":37,"west":-123,"north":38,"east":-122,"time":"2026-09-15T00:00:00Z"}"#,
            Some(10),
            "field: 2026-09-15T00:00:00Z is outside the forecast, 2026-09-14T03:00:00Z to 2026-09-14T05:00:00Z",
        ),
        (
            r#"{"type":"field","id":11,"south":38,"west":-123,"north":37,"east":-122}"#,
            Some(11),
            "field: south must be below north and west below east",
        ),
        (
            r#"{"type":"field","south":37,"west":-123,"north":38,"east":-122,"time":3}"#,
            None,
            "field: time must be a string",
        ),
        (
            r#"{"type":"field","south":37,"west":-123,"north":38,"east":-122,"time":"noon"}"#,
            None,
            "field: time must be like 2026-09-14T03:00:00Z",
        ),
        (
            r#"{"type":"field","south":37,"west":-123,"north":38,"east":-122,"max":2001}"#,
            None,
            "field: max must be 1 to 2000",
        ),
        (
            r#"{"type":"field","south":37,"west":-123,"north":38,"east":-122,"max":"5"}"#,
            None,
            "field: max must be 1 to 2000",
        ),
        (r#"{"type":"tide","id":12}"#, Some(12), "unknown type tide"),
        (r#"{"type":7,"id":12}"#, Some(12), "missing type"),
        (r#"{}"#, None, "missing type"),
        (r#"{"type":"point","lon":1}"#, None, "point: lat must be a number"),
        (r#"{"type":"point","lat":1}"#, None, "point: lon must be a number"),
        (r#"{"type":"point","lat":1,"lon":2,"time":false}"#, None, "point: time must be a string"),
    ] {
        let m = from_text(text).unwrap();
        let e = sent(&w.answer(&m, four_utc()).unwrap_err());
        assert_eq!((e["type"].as_str(), e["v"].as_u64()), (Some("error"), Some(1)));
        assert_eq!((e["id"].as_u64(), e["message"].as_str()), (id, Some(says)), "{text}");
    }
}

#[test]
fn good_requests_are_understood() {
    let w = shown();
    let ask = |text: &str| w.answer(&from_text(text).unwrap(), four_utc()).unwrap();
    match ask(r#"{"type":"field","south":37.6,"west":-122.6,"north":37.9,"east":-122.2}"#) {
        Ask::Field(area, t, max) => {
            assert_eq!(f64::from_bits(area.north.bits()), 37.9);
            assert_eq!((t, max), (four_utc(), 400));
        }
        other => panic!("{other:?}"),
    }
    match ask(r#"{"type":"field","south":37,"west":-123,"north":38,"east":-122,"max":5,"time":"2026-09-14T05:00Z"}"#) {
        Ask::Field(_, t, max) => assert_eq!((t, max), (RUN + 7200, 5)),
        other => panic!("{other:?}"),
    }
    match ask(r#"{"type":"point","lat":37.8,"lon":-122}"#) {
        Ask::Point(lat, lon, t) => {
            assert_eq!((f64::from_bits(lat.bits()), f64::from_bits(lon.bits()), t), (37.8, -122.0, four_utc()));
        }
        other => panic!("{other:?}"),
    }
}

#[test]
fn answers_carry_the_id() {
    for id in ["7", "\"p1\"", "-3", "[1,{\"a\":null}]", "1.5", "null"] {
        let m = from_text(&format!("{{\"id\":{id}}}")).unwrap();
        let want: Value = serde_json::from_str(id).unwrap();
        assert_eq!(sent(&error_reply(&m, "no"))["id"], want);
        assert_eq!(sent(&field_reply(&m, RUN, RUN, 2, &[]))["id"], want);
        assert_eq!(sent(&point_reply(&m, RUN, &num(1.0), &num(2.0), RUN, &None))["id"], want);
    }
}

#[test]
fn a_field_and_a_point_are_answered() {
    let m = from_text("{}").unwrap();
    let p = Point { lat: num(37.60121), lon: num(-122.59809), sample: sample(14.22, 281.4) };
    let f = sent(&field_reply(&m, RUN, RUN + 7200, 2, &[p]));
    assert_eq!((f["type"].as_str(), f["step"].as_u64()), (Some("field"), Some(2)));
    assert_eq!((f["time"].as_str(), f["run"].as_str()), (Some("2026-09-14T05:00:00Z"), Some("2026-09-14T03:00:00Z")));
    let q = &f["points"][0];
    assert_eq!((q["lat"].as_f64(), q["lon"].as_f64()), (Some(37.6012), Some(-122.5981)));
    assert_eq!((q["speedKn"].as_f64(), q["dirDeg"].as_u64()), (Some(14.2), Some(281)));
    assert!(f.get("id").is_none());
    let r = sent(&point_reply(&m, RUN, &num(37.8123), &num(-122.4012), RUN, &Some(sample(13.1, 262.0))));
    assert_eq!((r["type"].as_str(), r["lat"].as_f64(), r["speedKn"].as_f64()), (Some("point"), Some(37.8123), Some(13.1)));
    let off = sent(&point_reply(&m, RUN, &num(1.0), &num(2.0), RUN, &None));
    assert_eq!(off["note"], "the point is outside the forecast area");
    assert!(off.get("speedKn").is_none());
}

#[test]
fn stations_are_told_by_region_and_age() {
    let text = "#STN LAT LON YYYY MM DD hh mm WDIR WSPD GST\n\
AAMC1 37.772 -122.300 2026 09 14 03 00 120 1.5 2.1\n\
CALM1 37.772 -122.300 2026 09 14 03 00 MM 0.0 MM\n\
OLD01 37.772 -122.300 2026 09 14 01 00 120 1.5 2.1\n\
51201 21.673 -158.116 2026 09 14 03 00 120 1.5 2.1\n";
    let mut w = Wind::new(true, false, true);
    assert_eq!(sent(&w.stations_message(four_utc()))["status"], "waiting");
    w.reported(Ok(parse_latest(text).unwrap()), four_utc());
    let m = sent(&w.stations_message(four_utc()));
    assert_eq!((m["type"].as_str(), m["v"].as_u64(), m["source"].as_str()), (Some("stations"), Some(1), Some("NDBC")));
    assert_eq!((m["status"].as_str(), m["checked"].as_str()), (Some("ok"), Some("2026-09-14T04:00:00Z")));
    let list = m["stations"].as_array().unwrap();
    assert_eq!(list.len(), 2);
    assert_eq!((list[0]["id"].as_str(), list[0]["speedKn"].as_f64(), list[0]["gustKn"].as_f64()), (Some("AAMC1"), Some(2.9), Some(4.1)));
    assert_eq!((list[0]["lat"].as_f64(), list[0]["dirDeg"].as_u64()), (Some(37.772), Some(120)));
    assert!(list[1].get("dirDeg").is_none() && list[1].get("gustKn").is_none() && list[1].get("name").is_none());
    // After an error the last reports stay until they're too old to show.
    w.reported(Err("latest_obs.txt: no header".to_string()), four_utc() + 600);
    let m = sent(&w.stations_message(four_utc() + 600));
    assert_eq!((m["status"].as_str(), m["message"].as_str()), (Some("error"), Some("latest_obs.txt: no header")));
    assert_eq!((m["stations"].as_array().unwrap().len(), m["checked"].as_str()), (2, Some("2026-09-14T04:00:00Z")));
    let m = sent(&w.stations_message(four_utc() + 3600));
    assert_eq!(m["stations"].as_array().unwrap().len(), 2);
    let m = sent(&w.stations_message(four_utc() + 3601));
    assert_eq!(m["stations"].as_array().unwrap().len(), 0);
    assert_eq!(sent(&Wind::new(true, false, false).stations_message(0))["status"], "off");
}

#[test]
fn hello_says_the_version() {
    let h = sent(&hello());
    assert_eq!((h["type"].as_str(), h["v"].as_u64(), h["wind"].as_str()), (Some("hello"), Some(1), Some("0.1.0")));
    assert_eq!(encode("{}"), "{}\n");
}

#[test]
fn nothing_sent_is_null() {
    fn full(v: &Value) -> bool {
        match v {
            Value::Null => false,
            Value::Array(a) => a.iter().all(full),
            Value::Object(m) => m.values().all(full),
            _ => true,
        }
    }
    let w = shown();
    assert!(full(&sent(&w.state(four_utc(), &none(3)))));
    assert!(full(&sent(&w.stations_message(four_utc()))));
    assert!(full(&sent(&hello())));
}

#[test]
fn lines_read_the_same_however_they_arrive() {
    let bytes = b"  \t\r\n{\"a\":1}\nnonsense\n[1]\n{\"b\":2}\n{\"c\":3}";
    for cut in 0..bytes.len() {
        let mut lines = Lines::new();
        let mut a = lines.feed(&bytes[..cut]);
        let b = lines.feed(&bytes[cut..]);
        a.requests.extend(b.requests);
        a.errors.extend(b.errors);
        assert_eq!(a.requests.len(), 2, "{cut}");
        assert!(a.requests[0].get("a").is_some() && a.requests[1].get("b").is_some());
        assert_eq!(a.errors, ["not a JSON object", "not a JSON object"]);
        assert_eq!(lines.feed(b"\n").requests.len(), 1);
    }
}

#[test]
fn a_line_too_long_is_thrown_away_once() {
    let mut lines = Lines::new();
    let long = vec![b'x'; 70 * 1024];
    let batch = lines.feed(&long);
    assert_eq!((batch.requests.len(), batch.errors), (0, vec!["line too long".to_string()]));
    let batch = lines.feed(b"more\n{\"type\":\"field\"}\n");
    assert_eq!((batch.requests.len(), batch.errors.len()), (1, 0));
    let mut edge = vec![b' '; MAX_LINE - 2];
    edge.extend(*b"{}\n");
    let batch = lines.feed(&edge);
    assert_eq!((batch.requests.len(), batch.errors.len()), (1, 0));
    edge.insert(0, b' ');
    let batch = lines.feed(&edge);
    assert_eq!((batch.requests.len(), batch.errors.len()), (0, 1));
    assert_eq!(lines.feed(b"\xff{}\n").errors, ["not a JSON object"]);
}

#[test]
fn only_an_object_is_a_request() {
    assert!(request(from_text("{}")).is_ok());
    assert_eq!(request(from_text("3")).unwrap_err(), "not a JSON object");
    assert_eq!(request(None).unwrap_err(), "not a JSON object");
}

fn due(r: &mut Roster, state: &str, stations: &str) -> Vec<(u64, What)> {
    let list = r.due(state.to_string(), stations.to_string());
    list.iter().map(|d| (d.id, d.what)).collect()
}

#[test]
fn a_state_goes_to_all_when_it_changes_and_to_newcomers() {
    let mut r = Roster::new();
    assert_eq!((r.join(), r.join()), (1, 2));
    let all = |id: u64| [(id, What::Hello), (id, What::State), (id, What::Stations)];
    assert_eq!(due(&mut r, "a", "x"), [all(1), all(2)].concat());
    assert!(due(&mut r, "a", "x").is_empty());
    assert_eq!(r.join(), 3);
    assert_eq!(due(&mut r, "a", "x"), all(3));
    assert_eq!(due(&mut r, "b", "x"), [(1, What::State), (2, What::State), (3, What::State)]);
    r.leave(2);
    r.leave(9);
    assert_eq!(due(&mut r, "b", "y"), [(1, What::Stations), (3, What::Stations)]);
    assert_eq!((r.state.as_str(), r.stations.as_str()), ("b", "y"));
    assert_eq!(r.join(), 4);
    let both = |id: u64| vec![(id, What::State), (id, What::Stations)];
    assert_eq!(due(&mut r, "c", "z"), [both(1), both(3), all(4).to_vec()].concat());
}

#[test]
fn settings_are_looked_at_every_fifth_tick() {
    assert_eq!(tick(1, None), Tick::Nothing);
    assert_eq!(tick(4, None), Tick::Nothing);
    assert_eq!(tick(5, None), Tick::Reread);
    assert_eq!(tick(10, None), Tick::Reread);
    assert_eq!(tick(5, Some(false)), Tick::Nothing);
    assert_eq!(tick(5, Some(true)), Tick::Refetch);
}

#[test]
fn the_last_region_told_is_fetched_next() {
    let region = |s: &str| Region::parse(s).unwrap();
    let a = region("36, -124, 38, -122");
    let b = region("47, -124, 48, -122");
    assert!(next_fetch(a, &[]).equals(&a));
    assert!(next_fetch(a, &[b]).equals(&b));
    assert!(next_fetch(b, &[b, Region::bay(), a]).equals(&a));
}

#[test]
fn the_socket_has_a_lock_beside_it() {
    let mut env = Environment {
        home: None,
        omawind_config: None,
        config_home: None,
        cache_home: None,
        runtime_dir: Some(b"/run/user/1".to_vec()),
    };
    let socket = default_socket(&env).unwrap();
    assert_eq!(socket, b"/run/user/1/omawind/wind.sock");
    assert_eq!(lock_path(&socket), b"/run/user/1/omawind/wind.sock.lock");
    env.runtime_dir = Some(b"run".to_vec());
    assert_eq!(default_socket(&env).unwrap_err(), "XDG_RUNTIME_DIR must be set to an absolute path");
}

#[test]
fn the_region_in_use_is_the_settings() {
    assert!(Region::bay().equals(&Wind::new(true, true, true).settings.region));
}
