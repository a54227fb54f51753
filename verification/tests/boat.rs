use omawind::json::{from_text, Json};
use omawind::keel::{default_socket, hear, parted, read, update, Boat, Heard, Update};
use omawind::paths::Environment;

fn seen(u: Option<Update>) -> Option<Option<(f64, f64, bool)>> {
    match u {
        Some(Update::Boat(b)) => Some(b.map(|b: Boat| {
            (f64::from_bits(b.lat.bits()), f64::from_bits(b.lon.bits()), b.current)
        })),
        _ => None,
    }
}

#[test]
fn reads_the_fix_from_omakeel_state() {
    let ok = r#"{"type":"state","v":1,"fix":{"status":"ok","lat":37.8647,"lon":-122.3207,"ageSeconds":0},"sources":[]}"#;
    assert_eq!(seen(read(ok)), Some(Some((37.8647, -122.3207, true))));
    let stale = ok.replace("\"ok\"", "\"stale\"");
    assert_eq!(seen(read(&stale)), Some(Some((37.8647, -122.3207, false))));
    let none = r#"{"type":"state","v":1,"fix":{"status":"none"},"sources":[]}"#;
    assert_eq!(seen(read(none)), Some(None));
    assert!(read(r#"{"type":"targets","v":1,"targets":[]}"#).is_none());
    assert!(matches!(read(r#"{"type":"hello","v":2}"#), Some(Update::Incompatible(2))));
    assert!(read("{}").is_none());
    assert!(read("garbage").is_none());
}

#[test]
fn a_fix_must_be_on_earth_and_say_it_has_a_position() {
    let fix = |body: &str| seen(read(&format!("{{\"type\":\"state\",\"v\":1,\"fix\":{body}}}")));
    assert_eq!(fix(r#"{"status":"ok","lat":91,"lon":0}"#), Some(None));
    assert_eq!(fix(r#"{"status":"ok","lat":0,"lon":-181}"#), Some(None));
    assert_eq!(fix(r#"{"status":"none","lat":1,"lon":2}"#), Some(None));
    assert_eq!(fix(r#"{"lat":1,"lon":2}"#), Some(None));
    assert_eq!(fix(r#"{"status":"ok","lat":"1","lon":2}"#), Some(None));
    assert_eq!(fix(r#"{"status":"ok","lat":-90,"lon":180}"#), Some(Some((-90.0, 180.0, true))));
    assert_eq!(fix("3"), Some(None));
    assert!(read(r#"{"type":"state","v":1}"#).is_none());
    assert!(read(r#"{"type":"state","v":-1,"fix":{}}"#).is_none());
    assert!(read(r#"{"type":7,"v":1,"fix":{}}"#).is_none());
    assert!(read("[1]").is_none());
}

#[test]
fn a_parsed_message_is_read_the_same() {
    let m = from_text(r#"{"v":3}"#).unwrap();
    assert!(matches!(update(&m), Some(Update::Incompatible(3))));
    assert!(update(&Json::Null).is_none());
}

#[test]
fn another_version_ends_the_connection_for_longer() {
    assert!(matches!(hear(None), Heard::Nothing));
    assert!(matches!(hear(Some(Update::Boat(None))), Heard::Tell(Update::Boat(None))));
    assert!(matches!(hear(Some(Update::Incompatible(2))), Heard::Part(Update::Incompatible(2))));
    assert!(matches!(parted(false), (Some(Update::Lost), 2)));
    assert!(matches!(parted(true), (None, 30)));
}

#[test]
fn omakeels_socket_is_in_the_runtime_directory() {
    let env = |dir: Option<&str>| Environment {
        home: None,
        omawind_config: None,
        config_home: None,
        cache_home: None,
        runtime_dir: dir.map(|d| d.as_bytes().to_vec()),
    };
    assert_eq!(default_socket(&env(Some("/run/user/1"))).unwrap(), b"/run/user/1/omakeel/keel.sock");
    assert!(default_socket(&env(Some("run"))).is_none());
    assert!(default_socket(&env(None)).is_none());
}

#[test]
fn json_is_read_as_serde_json_reads_it() {
    let j = from_text(r#"{"a":[null,true,"x"],"n":7,"m":-7,"f":1.5}"#).unwrap();
    assert_eq!(j.get("n").unwrap().as_u64(), Some(7));
    assert_eq!(j.get("m").unwrap().as_u64(), None);
    let num = |k: &str| f64::from_bits(j.get(k).unwrap().as_real().unwrap().bits());
    assert_eq!((num("n"), num("m"), num("f")), (7.0, -7.0, 1.5));
    match j.get("m").unwrap() {
        Json::Number(n) => assert_eq!((n.unsigned, n.signed), (None, Some(-7))),
        _ => panic!("not a number"),
    }
    match j.get("a").unwrap() {
        Json::List(v) => {
            assert!(matches!(v[0], Json::Null) && matches!(v[1], Json::Bool(true)));
            assert_eq!(v[2].as_text().unwrap(), "x");
        }
        _ => panic!("not a list"),
    }
    assert!(j.get("b").is_none() && j.get("a").unwrap().get("a").is_none());
    assert!(from_text("{").is_none() && from_text("1 2").is_none());
    assert!(matches!(j.copy().get("f"), Some(Json::Number(_))));
}
