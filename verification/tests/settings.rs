use omawind::config::{
    cache_dir, config_path, home_dir, is_on_earth, load, place, Edges, Found, Region, Settings,
};
use omawind::number::Real;
use omawind::paths::Environment;

fn num(x: f64) -> Real {
    Real::new(x.to_bits()).unwrap()
}

fn value(x: &Real) -> f64 {
    f64::from_bits(x.bits())
}

fn region(south: f64, west: f64, north: f64, east: f64) -> Region {
    Region {
        south: num(south),
        west: num(west),
        north: num(north),
        east: num(east),
    }
}

fn edges(r: &Region) -> [f64; 4] {
    [value(&r.south), value(&r.west), value(&r.north), value(&r.east)]
}

fn home(s: &Settings) -> (f64, f64) {
    (value(&s.home.0), value(&s.home.1))
}

fn fixed(r: &Region) -> Edges {
    let [s, w, n, e] = edges(r);
    Edges {
        south: format!("{s:.4}"),
        west: format!("{w:.4}"),
        north: format!("{n:.4}"),
        east: format!("{e:.4}"),
    }
}

#[test]
fn reads_region_and_home() {
    let (s, p) = Settings::parse(
        "# Puget Sound\nregion = 47.0, -123.5, 48.8, -122.0\nhome = \"47.68, -122.41\"\n",
    );
    assert!(p.is_empty(), "{p:?}");
    assert_eq!(edges(&s.region), [47.0, -123.5, 48.8, -122.0]);
    assert_eq!(home(&s), (47.68, -122.41));
}

#[test]
fn reports_bad_settings_and_keeps_the_defaults() {
    let (s, p) = Settings::parse(
        "region = 38, -123\nhome = north\nregion = 38.8, -121.6, 36.8, -123.8\nregion = 1, 2, 3, 4\nwind = strong\nnonsense\n",
    );
    assert_eq!(edges(&s.region), edges(&Settings::default().region));
    assert_eq!(home(&s), home(&Settings::default()));
    assert_eq!(p.len(), 6, "{p:?}");
    assert!(p[2].contains("south must be below north"));
    assert!(p[3].contains("outside HRRR"));
    assert_eq!(p[4], "unknown setting wind");
}

#[test]
fn a_region_key_is_stable() {
    let bay = Region::bay();
    assert_eq!(Region::key(&fixed(&bay)), "36.8000,-123.8000,38.8000,-121.6000");
    let again = Region::parse(&Region::key(&fixed(&bay))).unwrap();
    assert_eq!(edges(&again), edges(&bay));
    assert!(bay.check().is_ok());
}

#[test]
fn the_defaults_are_the_bay_and_the_marina() {
    let s = Settings::default();
    assert_eq!(edges(&s.region), [36.8, -123.8, 38.8, -121.6]);
    assert_eq!(home(&s), (37.8663, -122.3148));
}

#[test]
fn each_bad_setting_has_its_message() {
    let (_, p) = Settings::parse("region = 1, 2\nhome = 91, 0\nregion = 30, -120, 39, -119\n[table]\n\n = 3\nx\n");
    assert_eq!(
        p,
        [
            "region: expected south, west, north, east in degrees",
            "home: expected latitude, longitude in degrees",
            "region: at most 8° of latitude by 10° of longitude",
            "unknown setting ",
            "line 7: expected key = value",
        ]
    );
}

#[test]
fn a_later_setting_replaces_an_earlier_one() {
    let (s, p) = Settings::parse("home = 1, 2 # here\r\nhome = \" 3, 4 \"\nhome=5,6,7\n");
    assert_eq!(home(&s), (3.0, 4.0));
    assert_eq!(p, ["home: expected latitude, longitude in degrees"]);
}

#[test]
fn a_region_is_checked_in_order() {
    let says = |r: Region| r.check().unwrap_err();
    assert!(says(region(38.0, -123.0, 38.0, -122.0)).contains("below north"));
    assert!(says(region(30.0, -120.0, 38.5, -119.0)).contains("at most 8°"));
    assert!(says(region(30.0, -120.0, 31.0, -109.9)).contains("by 10°"));
    assert!(says(region(21.1, -120.0, 22.0, -119.0)).contains("outside HRRR"));
    assert!(says(region(50.0, -120.0, 52.7, -119.0)).contains("outside HRRR"));
    assert!(says(region(50.0, -134.5, 51.0, -130.0)).contains("outside HRRR"));
    assert!(says(region(40.0, -62.0, 41.0, -60.9)).contains("outside HRRR"));
    assert!(region(21.2, -134.0, 29.2, -124.0).check().is_ok());
    assert!(region(44.6, -71.0, 52.6, -61.0).check().is_ok());
}

#[test]
fn a_region_holds_its_edges() {
    let bay = Region::bay();
    assert!(bay.contains(&num(36.8), &num(-123.8)));
    assert!(bay.contains(&num(38.8), &num(-121.6)));
    assert!(!bay.contains(&num(36.79), &num(-122.0)));
    assert!(!bay.contains(&num(37.0), &num(-121.5)));
    assert!(region(0.0, 1.0, 2.0, 3.0).equals(&region(-0.0, 1.0, 2.0, 3.0)));
    assert!(!bay.equals(&region(36.8, -123.8, 38.8, -121.5)));
}

#[test]
fn four_numbers_make_a_region() {
    let n = |x: f64| Some(num(x));
    let r = Region::of(&[n(1.0), n(2.0), n(3.0), n(4.0)]).unwrap();
    assert_eq!(edges(&r), [1.0, 2.0, 3.0, 4.0]);
    assert!(Region::of(&[n(1.0), None, n(3.0), n(4.0)]).is_none());
    assert!(Region::of(&[n(1.0), n(2.0), n(3.0)]).is_none());
    assert!(Region::parse("1,2,3,4,5").is_none());
    assert!(Region::parse("1,2,3,inf").is_none());
}

#[test]
fn a_place_is_on_earth() {
    assert!(place(Some(num(90.0)), Some(num(-180.0))).is_some());
    assert!(place(Some(num(90.1)), Some(num(0.0))).is_none());
    assert!(place(None, Some(num(0.0))).is_none());
    assert!(is_on_earth(&num(-90.0), &num(180.0)));
    assert!(!is_on_earth(&num(0.0), &num(180.5)));
}

#[test]
fn a_settings_file_may_be_missing_or_unreadable() {
    let (s, p) = load(&Found::Missing);
    assert_eq!(home(&s), (37.8663, -122.3148));
    assert!(p.is_empty());
    let (_, p) = load(&Found::Unreadable("permission denied".to_string()));
    assert_eq!(p, ["config.toml: permission denied"]);
    let (s, p) = load(&Found::Text("home = 37.8, -122.45\nbogus = 1\n".to_string()));
    assert_eq!(home(&s), (37.8, -122.45));
    assert_eq!(p, ["config.toml: unknown setting bogus"]);
}

fn environment(home: Option<&str>, config: Option<&str>, xdg: Option<&str>) -> Environment {
    let bytes = |s: Option<&str>| s.map(|s| s.as_bytes().to_vec());
    Environment {
        home: bytes(home),
        omawind_config: bytes(config),
        config_home: bytes(xdg),
        cache_home: bytes(xdg),
        runtime_dir: bytes(xdg),
    }
}

#[test]
fn files_are_where_the_environment_says() {
    let plain = environment(Some("/home/me"), None, None);
    assert_eq!(home_dir(&plain), b"/home/me");
    assert_eq!(config_path(&plain), b"/home/me/.config/omawind/config.toml");
    assert_eq!(cache_dir(&plain), b"/home/me/.cache/omawind");
    let none = environment(None, None, Some("relative"));
    assert_eq!(home_dir(&none), b"/");
    assert_eq!(config_path(&none), b"/.config/omawind/config.toml");
    assert_eq!(cache_dir(&none), b"/.cache/omawind");
    let xdg = environment(Some("/home/me"), None, Some("/xdg/"));
    assert_eq!(config_path(&xdg), b"/xdg/omawind/config.toml");
    assert_eq!(cache_dir(&xdg), b"/xdg/omawind");
    let set = environment(Some("/home/me"), Some("wind.toml"), Some("/xdg"));
    assert_eq!(config_path(&set), b"wind.toml");
}
