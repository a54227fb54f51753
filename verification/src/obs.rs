//! Measured wind, from NOAA's National Data Buoy Center. One text file holds
//! every station's latest report: the buoys offshore, and around the Bay the
//! piers and tide gauges of NOAA's PORTS program. Another names them. Both
//! are read here from scratch.

use crate::config::{is_on_earth, on_earth, Region, RegionView};
use crate::number::{spelled, whole, worth, Real};
use crate::paths::{ascii, below, join};
use crate::text::{
    all_digits,
    before,
    chars_of,
    control,
    copy_of,
    find_run,
    find_text,
    is_all_digits,
    is_at,
    is_before,
    is_control,
    lemma_before_chain,
    lemma_before_total,
    lines,
    lines_of,
    runs,
    same,
    same_text,
    spells,
    split,
    split_at,
    split_by,
    split_text,
    stands,
    string_of,
    trim,
    trimmed,
    upper_all,
    uppercase,
    words,
    words_of,
};
use crate::time;
use vstd::hash_map::StringHashMap;
use vstd::prelude::*;
use vstd::slice::slice_subrange;

verus! {

/// A report older than this is left out, seconds.
pub const MAX_AGE: i64 = 7200;

/// Clocks drift; a report further ahead than this is wrong, seconds.
pub const AHEAD: i64 = 900;

/// Names change rarely, so the table is kept for a week, seconds.
pub const NAMES_KEPT: u64 = 604_800;

/// The reports weigh about 100 KB, the names 360 KB.
pub const LIMIT: u64 = 8_388_608;

/// Where the reports and the names come from: NDBC, or files in tests.
#[derive(Clone, Debug)]
pub struct Source {
    pub latest: String,
    pub names: String,
}

impl Source {
    pub fn ndbc() -> (r: Source)
        ensures
            r.latest@ == "https://www.ndbc.noaa.gov/data/latest_obs/latest_obs.txt"@,
            r.names@ == "https://www.ndbc.noaa.gov/data/stations/station_table.txt"@,
    {
        Source {
            latest: "https://www.ndbc.noaa.gov/data/latest_obs/latest_obs.txt".to_owned(),
            names: "https://www.ndbc.noaa.gov/data/stations/station_table.txt".to_owned(),
        }
    }
}

#[derive(Debug)]
pub struct Station {
    /// NDBC's id, like `AAMC1` or `46026`.
    pub id: String,
    /// Like `Alameda`, when NDBC's table names it.
    pub name: Option<String>,
    pub lat: Real,
    pub lon: Real,
    /// When the report was taken, Unix seconds.
    pub time: i64,
    /// Metres a second, averaged over 2 minutes ashore, 8 on a buoy.
    pub speed: Real,
    /// Where it blows from, degrees true. None only in a calm.
    pub from_deg: Option<Real>,
    /// Metres a second.
    pub gust: Option<Real>,
}

/// What a station reports.
pub ghost struct StationView {
    pub id: Seq<char>,
    pub name: Option<Seq<char>>,
    pub lat: u64,
    pub lon: u64,
    pub time: int,
    pub speed: u64,
    pub from_deg: Option<u64>,
    pub gust: Option<u64>,
}

/// A text, if there is one.
pub open spec fn text_view(s: Option<String>) -> Option<Seq<char>> {
    match s {
        Some(s) => Some(s@),
        None => None,
    }
}

/// A number's bits, if there is one.
pub open spec fn real_view(x: Option<Real>) -> Option<u64> {
    match x {
        Some(x) => Some(x@),
        None => None,
    }
}

impl View for Station {
    type V = StationView;

    open spec fn view(&self) -> StationView {
        StationView {
            id: self.id@,
            name: text_view(self.name),
            lat: self.lat@,
            lon: self.lon@,
            time: self.time as int,
            speed: self.speed@,
            from_deg: real_view(self.from_deg),
            gust: real_view(self.gust),
        }
    }
}

/// What each station in a list reports.
pub open spec fn stations_view(v: Seq<Station>) -> Seq<StationView> {
    Seq::new(v.len(), |i: int| v[i]@)
}

// --- One row -------------------------------------------------------------------------

/// Which word of a row each of the columns read is.
#[derive(Clone, Copy, Debug)]
pub struct Columns {
    pub stn: usize,
    pub lat: usize,
    pub lon: usize,
    pub year: usize,
    pub month: usize,
    pub day: usize,
    pub hour: usize,
    pub minute: usize,
    pub wdir: usize,
    pub wspd: usize,
    pub gst: usize,
}

/// A row's word, if it has that many.
pub open spec fn word_at(f: Seq<Seq<char>>, i: usize) -> Option<Seq<char>> {
    if i < f.len() {
        Some(f[i as int])
    } else {
        None
    }
}

/// A row's word as a number. NDBC's missing value is "MM", which doesn't read.
pub open spec fn number_at(f: Seq<Seq<char>>, i: usize) -> Option<u64> {
    match word_at(f, i) {
        Some(w) => spelled(w),
        None => None,
    }
}

/// A letter or digit of ASCII.
pub open spec fn alphanumeric(c: char) -> bool {
    '0' <= c <= '9' || 'A' <= c <= 'Z' || 'a' <= c <= 'z'
}

/// Whether a word can be a station's id.
pub open spec fn id_ok(id: Seq<char>) -> bool {
    id.len() <= 12 && forall|i: int| 0 <= i < id.len() ==> alphanumeric(#[trigger] id[i])
}

/// When a row's report was taken, if it says.
pub open spec fn time_in(f: Seq<Seq<char>>, c: Columns) -> Option<int> {
    let (y, m, d) = (word_at(f, c.year), word_at(f, c.month), word_at(f, c.day));
    let (h, min) = (word_at(f, c.hour), word_at(f, c.minute));
    if y is Some && m is Some && d is Some && h is Some && min is Some {
        time::iso_value(
            y->0 + "-"@ + m->0 + "-"@ + d->0 + "T"@ + h->0 + ":"@ + min->0 + "Z"@,
        )
    } else {
        None
    }
}

/// A number, if it is from 0 to `most`.
pub open spec fn up_to(x: Option<u64>, most: int) -> Option<u64> {
    if x is Some && 0 <= worth(x->0) <= whole(most) {
        x
    } else {
        None
    }
}

/// A direction from 0 to 360 degrees, with 360 as 0.
pub open spec fn direction(x: Option<u64>) -> Option<u64> {
    match up_to(x, 360) {
        Some(bits) => if worth(bits) == whole(360) {
            Some(0)
        } else {
            Some(bits)
        },
        None => None,
    }
}

/// What a station reports, by what its row reads as: nothing, if that isn't
/// an id, a place on Earth and a time, else its wind, or that it has none to
/// draw.
pub open spec fn reported(
    id: Seq<char>,
    lat: Option<u64>,
    lon: Option<u64>,
    t: Option<int>,
    wdir: Option<u64>,
    wspd: Option<u64>,
    gst: Option<u64>,
) -> Option<Option<StationView>> {
    let speed = up_to(wspd, 100);
    let from_deg = direction(wdir);
    if !id_ok(id) || lat is None || lon is None || !on_earth(lat->0, lon->0) || t is None {
        None
    } else if speed is None || (from_deg is None && worth(speed->0) > 0) {
        Some(None)
    } else {
        Some(
            Some(
                StationView {
                    id: upper_all(id),
                    name: None,
                    lat: lat->0,
                    lon: lon->0,
                    time: t->0,
                    speed: speed->0,
                    from_deg,
                    gust: up_to(gst, 150),
                },
            ),
        )
    }
}

/// What a row says: nothing, if it doesn't read.
pub open spec fn row_says(f: Seq<Seq<char>>, c: Columns) -> Option<Option<StationView>> {
    if c.stn < f.len() {
        reported(
            f[c.stn as int],
            number_at(f, c.lat),
            number_at(f, c.lon),
            time_in(f, c),
            number_at(f, c.wdir),
            number_at(f, c.wspd),
            number_at(f, c.gst),
        )
    } else {
        None
    }
}

/// What a row says, as a station says it.
pub open spec fn report_view(r: Option<Option<Station>>) -> Option<Option<StationView>> {
    match r {
        None => None,
        Some(None) => Some(None),
        Some(Some(s)) => Some(Some(s@)),
    }
}

fn is_id(id: &[char]) -> (r: bool)
    ensures
        r == id_ok(id@),
{
    if id.len() > 12 {
        return false;
    }
    let mut i: usize = 0;
    while i < id.len()
        invariant
            i <= id@.len(),
            forall|j: int| 0 <= j < i ==> alphanumeric(#[trigger] id@[j]),
        decreases id@.len() - i,
    {
        let c: char = id[i];
        if !('0' <= c && c <= '9' || 'A' <= c && c <= 'Z' || 'a' <= c && c <= 'z') {
            assert(!alphanumeric(id@[i as int]));
            return false;
        }
        i += 1;
    }
    true
}

/// A row's word as a number.
fn read_number(f: &Vec<Vec<char>>, i: usize) -> (r: Option<Real>)
    ensures
        real_view(r) == number_at(runs(f@), i),
{
    if i < f.len() {
        assert(runs(f@)[i as int] == f@[i as int]@);
        Real::parse(string_of(f[i].as_slice()).as_str())
    } else {
        None
    }
}

/// When a row's report was taken, if it says.
fn read_time(f: &Vec<Vec<char>>, c: &Columns) -> (r: Option<i64>)
    ensures
        match r {
            Some(t) => time_in(runs(f@), *c) == Some(t as int),
            None => time_in(runs(f@), *c) is None,
        },
{
    let n: usize = f.len();
    if c.year >= n || c.month >= n || c.day >= n || c.hour >= n || c.minute >= n {
        return None;
    }
    let mut s = string_of(f[c.year].as_slice());
    s.append("-");
    s.append(string_of(f[c.month].as_slice()).as_str());
    s.append("-");
    s.append(string_of(f[c.day].as_slice()).as_str());
    s.append("T");
    s.append(string_of(f[c.hour].as_slice()).as_str());
    s.append(":");
    s.append(string_of(f[c.minute].as_slice()).as_str());
    s.append("Z");
    time::parse_iso(s.as_str())
}

/// A number, if it is from 0 to `most`.
fn within(x: Option<Real>, most: i32) -> (r: Option<Real>)
    ensures
        real_view(r) == up_to(real_view(x), most as int),
{
    match x {
        Some(v) => {
            assert(worth(0) == 0);
            if v.within(&Real::zero(), &Real::whole(most)) {
                Some(v)
            } else {
                None
            }
        },
        None => None,
    }
}

/// What a station reports, by what its row reads as.
pub fn report(
    id: &[char],
    lat: Option<Real>,
    lon: Option<Real>,
    t: Option<i64>,
    wdir: Option<Real>,
    wspd: Option<Real>,
    gst: Option<Real>,
) -> (r: Option<Option<Station>>)
    ensures
        report_view(r) == reported(
            id@,
            real_view(lat),
            real_view(lon),
            time_view(t),
            real_view(wdir),
            real_view(wspd),
            real_view(gst),
        ),
{
    if !is_id(id) {
        return None;
    }
    let (lat, lon, t) = match (lat, lon, t) {
        (Some(a), Some(b), Some(t)) => (a, b, t),
        _ => return None,
    };
    if !is_on_earth(&lat, &lon) {
        return None;
    }
    let speed = match within(wspd, 100) {
        Some(v) => v,
        None => return Some(None),
    };
    let from_deg = match within(wdir, 360) {
        Some(v) => Some(
            if v.equals(&Real::whole(360)) {
                Real::zero()
            } else {
                v
            },
        ),
        None => None,
    };
    assert(worth(0) == 0);
    if from_deg.is_none() && Real::zero().less(&speed) {
        return Some(None);
    }
    Some(
        Some(
            Station {
                id: string_of(uppercase(id).as_slice()),
                name: None,
                lat,
                lon,
                time: t,
                speed,
                from_deg,
                gust: within(gst, 150),
            },
        ),
    )
}

/// A time, if there is one.
pub open spec fn time_view(t: Option<i64>) -> Option<int> {
    match t {
        Some(t) => Some(t as int),
        None => None,
    }
}

/// What a row says: None for a row that doesn't read; Some(None) for a
/// station's report without a wind to draw.
pub fn row(f: &Vec<Vec<char>>, c: &Columns) -> (r: Option<Option<Station>>)
    ensures
        report_view(r) == row_says(runs(f@), *c),
{
    if c.stn >= f.len() {
        return None;
    }
    assert(runs(f@)[c.stn as int] == f@[c.stn as int]@);
    report(
        f[c.stn].as_slice(),
        read_number(f, c.lat),
        read_number(f, c.lon),
        read_time(f, c),
        read_number(f, c.wdir),
        read_number(f, c.wspd),
        read_number(f, c.gst),
    )
}

// --- The file ------------------------------------------------------------------------

/// Which word of the header names a column.
pub open spec fn position(heads: Seq<Seq<char>>, name: Seq<char>, from: int) -> Option<usize>
    decreases heads.len() - from,
{
    if from >= heads.len() {
        None
    } else if heads[from] == name {
        Some(from as usize)
    } else {
        position(heads, name, from + 1)
    }
}

pub open spec fn no_column(name: Seq<char>) -> Seq<char> {
    "latest_obs.txt: no "@ + name + " column"@
}

/// Where the columns read are, by the header's names, or the first that is
/// missing.
pub open spec fn columns_of(heads: Seq<Seq<char>>) -> Result<Columns, Seq<char>> {
    let stn = position(heads, "STN"@, 0);
    let lat = position(heads, "LAT"@, 0);
    let lon = position(heads, "LON"@, 0);
    let year = position(heads, "YYYY"@, 0);
    let month = position(heads, "MM"@, 0);
    let day = position(heads, "DD"@, 0);
    let hour = position(heads, "hh"@, 0);
    let minute = position(heads, "mm"@, 0);
    let wdir = position(heads, "WDIR"@, 0);
    let wspd = position(heads, "WSPD"@, 0);
    let gst = position(heads, "GST"@, 0);
    if stn is None {
        Err(no_column("STN"@))
    } else if lat is None {
        Err(no_column("LAT"@))
    } else if lon is None {
        Err(no_column("LON"@))
    } else if year is None {
        Err(no_column("YYYY"@))
    } else if month is None {
        Err(no_column("MM"@))
    } else if day is None {
        Err(no_column("DD"@))
    } else if hour is None {
        Err(no_column("hh"@))
    } else if minute is None {
        Err(no_column("mm"@))
    } else if wdir is None {
        Err(no_column("WDIR"@))
    } else if wspd is None {
        Err(no_column("WSPD"@))
    } else if gst is None {
        Err(no_column("GST"@))
    } else {
        Ok(
            Columns {
                stn: stn->0,
                lat: lat->0,
                lon: lon->0,
                year: year->0,
                month: month->0,
                day: day->0,
                hour: hour->0,
                minute: minute->0,
                wdir: wdir->0,
                wspd: wspd->0,
                gst: gst->0,
            },
        )
    }
}

/// Which word of the header names a column, or that none does.
fn column(heads: &Vec<Vec<char>>, name: &str) -> (r: Result<usize, String>)
    ensures
        match r {
            Ok(i) => position(runs(heads@), name@, 0) == Some(i),
            Err(e) => position(runs(heads@), name@, 0) is None && e@ == no_column(name@),
        },
{
    let mut i: usize = 0;
    while i < heads.len()
        invariant
            i <= heads@.len(),
            position(runs(heads@), name@, 0) == position(runs(heads@), name@, i as int),
        decreases heads@.len() - i,
    {
        if spells(heads[i].as_slice(), name) {
            assert(runs(heads@)[i as int] == name@);
            return Ok(i);
        }
        assert(runs(heads@)[i as int] != name@);
        i += 1;
    }
    let mut e = "latest_obs.txt: no ".to_owned();
    e.append(name);
    e.append(" column");
    Err(e)
}

/// Where the columns read are.
fn columns(heads: &Vec<Vec<char>>) -> (r: Result<Columns, String>)
    ensures
        match r {
            Ok(c) => columns_of(runs(heads@)) == Ok::<Columns, Seq<char>>(c),
            Err(e) => columns_of(runs(heads@)) == Err::<Columns, Seq<char>>(e@),
        },
{
    let stn: usize = match column(heads, "STN") {
        Ok(i) => i,
        Err(e) => return Err(e),
    };
    let lat: usize = match column(heads, "LAT") {
        Ok(i) => i,
        Err(e) => return Err(e),
    };
    let lon: usize = match column(heads, "LON") {
        Ok(i) => i,
        Err(e) => return Err(e),
    };
    let year: usize = match column(heads, "YYYY") {
        Ok(i) => i,
        Err(e) => return Err(e),
    };
    let month: usize = match column(heads, "MM") {
        Ok(i) => i,
        Err(e) => return Err(e),
    };
    let day: usize = match column(heads, "DD") {
        Ok(i) => i,
        Err(e) => return Err(e),
    };
    let hour: usize = match column(heads, "hh") {
        Ok(i) => i,
        Err(e) => return Err(e),
    };
    let minute: usize = match column(heads, "mm") {
        Ok(i) => i,
        Err(e) => return Err(e),
    };
    let wdir: usize = match column(heads, "WDIR") {
        Ok(i) => i,
        Err(e) => return Err(e),
    };
    let wspd: usize = match column(heads, "WSPD") {
        Ok(i) => i,
        Err(e) => return Err(e),
    };
    let gst: usize = match column(heads, "GST") {
        Ok(i) => i,
        Err(e) => return Err(e),
    };
    Ok(Columns { stn, lat, lon, year, month, day, hour, minute, wdir, wspd, gst })
}

/// A list of stations by id, with one more report: in its place, unless the
/// list has one of the station that is as new.
pub open spec fn put(list: Seq<StationView>, s: StationView) -> Seq<StationView>
    decreases list.len(),
{
    if list.len() == 0 {
        seq![s]
    } else if s.id == list[0].id {
        if list[0].time < s.time {
            seq![s] + list.skip(1)
        } else {
            list
        }
    } else if before(s.id, list[0].id) {
        seq![s] + list
    } else {
        seq![list[0]] + put(list.skip(1), s)
    }
}

/// What a file's rows come to: how many read, and the newest report of each
/// station with a wind to draw, by id.
pub ghost struct Gathered {
    pub read: nat,
    pub stations: Seq<StationView>,
}

/// A line that isn't a row: a comment or the header.
pub open spec fn comment(line: Seq<char>) -> bool {
    line.len() > 0 && line[0] == '#'
}

/// What lines come to, one after the other.
pub open spec fn gathered(all: Seq<Seq<char>>, c: Columns) -> Gathered
    decreases all.len(),
{
    if all.len() == 0 {
        Gathered { read: 0, stations: seq![] }
    } else {
        let g = gathered(all.drop_last(), c);
        if comment(all.last()) {
            g
        } else {
            match row_says(words(all.last()), c) {
                None => g,
                Some(None) => Gathered { read: g.read + 1, ..g },
                Some(Some(s)) => Gathered { read: g.read + 1, stations: put(g.stations, s) },
            }
        }
    }
}

/// The header among lines: the first that starts with `#STN`.
pub open spec fn header(all: Seq<Seq<char>>) -> Option<Seq<char>>
    decreases all.len(),
{
    if all.len() == 0 {
        None
    } else if stands(all[0], "#STN"@, 0) {
        Some(all[0])
    } else {
        header(all.skip(1))
    }
}

/// The stations reporting wind in `latest_obs.txt`, by id, or why it can't be
/// read.
pub open spec fn latest_in(text: Seq<char>) -> Result<Seq<StationView>, Seq<char>> {
    let all = lines(text);
    match header(all) {
        None => Err("latest_obs.txt: no header"@),
        Some(h) => match columns_of(words(h.skip(1))) {
            Err(e) => Err(e),
            Ok(c) => if gathered(all, c).read == 0 {
                Err("latest_obs.txt: no reports in it"@)
            } else {
                Ok(gathered(all, c).stations)
            },
        },
    }
}

/// Whether stations are in order of their ids, each once.
pub open spec fn by_id(list: Seq<StationView>) -> bool {
    forall|i: int, j: int|
        0 <= i < j < list.len() ==> before(#[trigger] list[i].id, #[trigger] list[j].id)
}

/// Where in a list by id a report goes, and what that makes of the list.
proof fn lemma_put(list: Seq<StationView>, s: StationView, k: int)
    requires
        by_id(list),
        0 <= k <= list.len(),
        forall|j: int| 0 <= j < k ==> before(#[trigger] list[j].id, s.id),
        k < list.len() ==> !before(list[k].id, s.id),
    ensures
        put(list, s) == (if k < list.len() && list[k].id == s.id {
            if list[k].time < s.time {
                list.update(k, s)
            } else {
                list
            }
        } else {
            list.insert(k, s)
        }),
    decreases k,
{
    if k == 0 {
        if list.len() == 0 {
            assert(list.insert(0, s) =~= seq![s]);
        } else {
            lemma_before_total(list[0].id, s.id);
            assert(seq![s] + list.skip(1) =~= list.update(0, s));
            assert(seq![s] + list =~= list.insert(0, s));
        }
    } else {
        let rest = list.skip(1);
        lemma_before_total(list[0].id, s.id);
        assert forall|j: int| 0 <= j < k - 1 implies before(#[trigger] rest[j].id, s.id) by {
            assert(rest[j] == list[j + 1]);
        }
        assert(by_id(rest)) by {
            assert forall|i: int, j: int| 0 <= i < j < rest.len() implies before(
                #[trigger] rest[i].id,
                #[trigger] rest[j].id,
            ) by {
                assert(rest[i] == list[i + 1] && rest[j] == list[j + 1]);
            }
        }
        lemma_put(rest, s, k - 1);
        assert(seq![list[0]] + rest =~= list);
        assert(seq![list[0]] + rest.insert(k - 1, s) =~= list.insert(k, s));
        if k < list.len() {
            assert(seq![list[0]] + rest.update(k - 1, s) =~= list.update(k, s));
        }
    }
}

/// A list by id stays one.
proof fn lemma_put_keeps_order(list: Seq<StationView>, s: StationView, k: int)
    requires
        by_id(list),
        0 <= k <= list.len(),
        forall|j: int| 0 <= j < k ==> before(#[trigger] list[j].id, s.id),
        k < list.len() ==> !before(list[k].id, s.id),
    ensures
        by_id(put(list, s)),
{
    lemma_put(list, s, k);
    let new = put(list, s);
    if k < list.len() && list[k].id == s.id {
        if list[k].time < s.time {
            assert forall|i: int, j: int| 0 <= i < j < new.len() implies before(
                #[trigger] new[i].id,
                #[trigger] new[j].id,
            ) by {
                assert(new[i].id == list[i].id && new[j].id == list[j].id);
            }
        }
    } else {
        assert forall|i: int, j: int| 0 <= i < j < new.len() implies before(
            #[trigger] new[i].id,
            #[trigger] new[j].id,
        ) by {
            let a = if i < k {
                i
            } else {
                i - 1
            };
            let b = if j < k {
                j
            } else {
                j - 1
            };
            if i == k {
                assert(new[j] == list[b]);
                lemma_before_total(list[k].id, s.id);
                if b > k {
                    lemma_before_chain(s.id, list[k].id, list[b].id);
                }
            } else if j == k {
                assert(new[i] == list[a]);
            } else {
                assert(new[i] == list[a] && new[j] == list[b]);
            }
        }
    }
}

/// Where in a list by id a report goes.
fn place(list: &Vec<Station>, id: &[char]) -> (r: usize)
    requires
        by_id(stations_view(list@)),
    ensures
        r <= list@.len(),
        forall|j: int| 0 <= j < r ==> before(#[trigger] stations_view(list@)[j].id, id@),
        r < list@.len() ==> !before(stations_view(list@)[r as int].id, id@),
{
    let ghost v = stations_view(list@);
    let mut low: usize = 0;
    let mut high: usize = list.len();
    while low < high
        invariant
            low <= high <= list@.len(),
            v == stations_view(list@),
            by_id(v),
            forall|j: int| 0 <= j < low ==> before(#[trigger] v[j].id, id@),
            forall|j: int| high <= j < v.len() ==> !before(#[trigger] v[j].id, id@),
        decreases high - low,
    {
        let mid: usize = low + (high - low) / 2;
        let other = chars_of(list[mid].id.as_str());
        assert(v[mid as int].id == other@);
        if is_before(other.as_slice(), id) {
            proof {
                assert forall|j: int| 0 <= j < mid + 1 implies before(#[trigger] v[j].id, id@) by {
                    if j < mid {
                        lemma_before_chain(v[j].id, v[mid as int].id, id@);
                    }
                }
            }
            low = mid + 1;
        } else {
            proof {
                assert forall|j: int| mid <= j < v.len() implies !before(
                    #[trigger] v[j].id,
                    id@,
                ) by {
                    if j > mid && before(v[j].id, id@) {
                        lemma_before_chain(v[mid as int].id, v[j].id, id@);
                    }
                }
            }
            high = mid;
        }
    }
    low
}

/// Adds a report to a list by id.
fn add_report(list: &mut Vec<Station>, s: Station)
    requires
        by_id(stations_view(old(list)@)),
    ensures
        stations_view(final(list)@) == put(stations_view(old(list)@), s@),
        by_id(stations_view(final(list)@)),
{
    let id = chars_of(s.id.as_str());
    let k: usize = place(list, id.as_slice());
    let ghost was = stations_view(list@);
    proof {
        lemma_put(was, s@, k as int);
        lemma_put_keeps_order(was, s@, k as int);
    }
    if k < list.len() && same_text(list[k].id.as_str(), s.id.as_str()) {
        assert(was[k as int].id == s@.id);
        if list[k].time < s.time {
            let ghost new = s@;
            list.set(k, s);
            assert(stations_view(list@) =~= was.update(k as int, new));
        }
    } else {
        let ghost new = s@;
        list.insert(k, s);
        assert(stations_view(list@) =~= was.insert(k as int, new));
    }
}

/// The header among lines.
fn find_header(all: &Vec<Vec<char>>) -> (r: Option<usize>)
    ensures
        match r {
            Some(i) => i < all@.len() && header(runs(all@)) == Some(all@[i as int]@),
            None => header(runs(all@)) is None,
        },
        r matches Some(i) ==> stands(all@[i as int]@, "#STN"@, 0),
{
    let mark = chars_of("#STN");
    let mut i: usize = 0;
    assert(runs(all@).skip(0) =~= runs(all@));
    while i < all.len()
        invariant
            i <= all@.len(),
            mark@ == "#STN"@,
            header(runs(all@)) == header(runs(all@).skip(i as int)),
        decreases all@.len() - i,
    {
        assert(runs(all@).skip(i as int)[0] == all@[i as int]@);
        if is_at(all[i].as_slice(), mark.as_slice(), 0) {
            return Some(i);
        }
        assert(runs(all@).skip(i as int).skip(1) =~= runs(all@).skip(i + 1));
        i += 1;
    }
    None
}

/// The stations reporting wind in `latest_obs.txt`, by id. Columns are found
/// by the header's names. A row without a speed, or with a speed and no
/// direction, has no barb to draw and is left out, as is a row that doesn't
/// read. A file with no row that reads is an error, not an empty Bay, so the
/// last good reports stay.
pub fn parse_latest(text: &str) -> (r: Result<Vec<Station>, String>)
    ensures
        match r {
            Ok(v) => latest_in(text@) == Ok::<Seq<StationView>, Seq<char>>(stations_view(v@)),
            Err(e) => latest_in(text@) == Err::<Seq<StationView>, Seq<char>>(e@),
        },
        r matches Ok(v) ==> by_id(stations_view(v@)),
{
    let chars = chars_of(text);
    let all = lines_of(chars.as_slice());
    let h: usize = match find_header(&all) {
        Some(h) => h,
        None => return Err("latest_obs.txt: no header".to_owned()),
    };
    proof {
        reveal_strlit("#STN");
    }
    let head = slice_subrange(all[h].as_slice(), 1, all[h].len());
    assert(head@ =~= all@[h as int]@.skip(1));
    let heads = words_of(head);
    let c = match columns(&heads) {
        Ok(c) => c,
        Err(e) => return Err(e),
    };
    let mut stations: Vec<Station> = Vec::new();
    let mut any = false;
    let mut i: usize = 0;
    assert(runs(all@).take(0) =~= seq![]);
    assert(stations_view(stations@) =~= seq![]);
    while i < all.len()
        invariant
            i <= all@.len(),
            any == (gathered(runs(all@).take(i as int), c).read > 0),
            stations_view(stations@) == gathered(runs(all@).take(i as int), c).stations,
            by_id(stations_view(stations@)),
        decreases all@.len() - i,
    {
        let line = all[i].as_slice();
        proof {
            assert(runs(all@).take(i + 1).drop_last() =~= runs(all@).take(i as int));
            assert(runs(all@).take(i + 1).last() == line@);
        }
        if line.len() == 0 || line[0] != '#' {
            let f = words_of(line);
            if let Some(report) = row(&f, &c) {
                any = true;
                if let Some(s) = report {
                    add_report(&mut stations, s);
                }
            }
        }
        i += 1;
    }
    assert(runs(all@).take(i as int) =~= runs(all@));
    if !any {
        return Err("latest_obs.txt: no reports in it".to_owned());
    }
    Ok(stations)
}

// --- Names -----------------------------------------------------------------------------

/// `s` without its control characters.
pub open spec fn printable(s: Seq<char>) -> Seq<char>
    decreases s.len(),
{
    if s.len() == 0 {
        seq![]
    } else if control(s.last()) {
        printable(s.drop_last())
    } else {
        printable(s.drop_last()).push(s.last())
    }
}

/// `pieces` with `&` between them.
pub open spec fn with_ands(pieces: Seq<Seq<char>>) -> Seq<char>
    decreases pieces.len(),
{
    if pieces.len() == 0 {
        seq![]
    } else if pieces.len() == 1 {
        pieces[0]
    } else {
        with_ands(pieces.drop_last()).push('&') + pieces.last()
    }
}

/// `s` with each `&amp;` as `&`.
pub open spec fn unescaped(s: Seq<char>) -> Seq<char> {
    with_ands(split_text(s, "&amp;"@))
}

/// `s` without a tide gauge's number before it.
pub open spec fn without_number(s: Seq<char>) -> Seq<char> {
    let i = find_text(s, " - "@, 0);
    if 0 < i < s.len() && all_digits(s.take(i)) {
        s.skip(i + 3)
    } else {
        s
    }
}

/// A capital letter of ASCII.
pub open spec fn capital(c: char) -> bool {
    'A' <= c <= 'Z'
}

/// `s` without a state after it.
pub open spec fn without_state(s: Seq<char>) -> Seq<char> {
    let n = s.len() as int;
    if n >= 4 && stands(s, ", "@, n - 4) && capital(s[n - 2]) && capital(s[n - 1]) {
        s.take(n - 4)
    } else {
        s
    }
}

/// A name for a chart, if there is anything left of it.
pub open spec fn cleaned(raw: Seq<char>) -> Option<Seq<char>> {
    let s = trim(without_state(without_number(unescaped(trim(printable(raw))))));
    if s.len() == 0 {
        None
    } else {
        Some(s)
    }
}

/// The id and name a line of NDBC's table gives a station.
pub open spec fn entry(line: Seq<char>) -> Option<(Seq<char>, Seq<char>)> {
    let f = split(line, '|');
    let id = upper_all(trim(f[0]));
    if comment(line) || f.len() < 5 || cleaned(f[4]) is None || id.len() == 0 {
        None
    } else {
        Some((id, cleaned(f[4])->0))
    }
}

/// The names lines give stations, by id, a later one over an earlier.
pub open spec fn names_in(all: Seq<Seq<char>>) -> Map<Seq<char>, Seq<char>>
    decreases all.len(),
{
    if all.len() == 0 {
        Map::empty()
    } else {
        match entry(all.last()) {
            Some((id, name)) => names_in(all.drop_last()).insert(id, name),
            None => names_in(all.drop_last()),
        }
    }
}

/// The names NDBC's table gives stations, by id.
pub open spec fn names_of(text: Seq<char>) -> Map<Seq<char>, Seq<char>> {
    names_in(lines(text))
}

/// What names are, by id.
pub open spec fn names_view(m: Map<Seq<char>, String>) -> Map<Seq<char>, Seq<char>> {
    m.map_values(|s: String| s@)
}

fn printable_chars(s: &[char]) -> (r: Vec<char>)
    ensures
        r@ == printable(s@),
{
    let mut out: Vec<char> = Vec::new();
    let mut i: usize = 0;
    assert(s@.take(0) =~= seq![]);
    while i < s.len()
        invariant
            i <= s@.len(),
            out@ == printable(s@.take(i as int)),
        decreases s@.len() - i,
    {
        assert(s@.take(i + 1).drop_last() =~= s@.take(i as int));
        if !is_control(s[i]) {
            out.push(s[i]);
        }
        i += 1;
    }
    assert(s@.take(i as int) =~= s@);
    out
}

fn unescape(s: &[char]) -> (r: Vec<char>)
    ensures
        r@ == unescaped(s@),
{
    let mark = chars_of("&amp;");
    proof {
        reveal_strlit("&amp;");
    }
    let pieces = split_by(s, mark.as_slice());
    let mut out = copy_of(pieces[0].as_slice());
    let mut i: usize = 1;
    assert(runs(pieces@).take(1)[0] == out@);
    while i < pieces.len()
        invariant
            1 <= i <= pieces@.len(),
            out@ == with_ands(runs(pieces@).take(i as int)),
        decreases pieces@.len() - i,
    {
        let mut next = copy_of(pieces[i].as_slice());
        let ghost piece = next@;
        proof {
            assert(runs(pieces@).take(i + 1).drop_last() =~= runs(pieces@).take(i as int));
            assert(runs(pieces@).take(i + 1).last() == piece);
        }
        out.push('&');
        out.append(&mut next);
        i += 1;
    }
    assert(runs(pieces@).take(i as int) =~= runs(pieces@));
    out
}

/// A name for a chart: `9414750 - Alameda, CA` is `Alameda`.
pub fn clean_name(raw: &[char]) -> (r: Option<String>)
    ensures
        text_view(r) == cleaned(raw@),
{
    // The names come off the network and go to terminals and the chart:
    // no control characters.
    let plain = trimmed(printable_chars(raw).as_slice());
    let s = unescape(plain.as_slice());
    // A tide gauge's number comes first.
    let dash = chars_of(" - ");
    proof {
        reveal_strlit(" - ");
        reveal_strlit(", ");
        crate::text::lemma_find_text(s@, " - "@, 0);
    }
    let i: usize = find_run(s.as_slice(), dash.as_slice(), 0);
    let start: usize = if 0 < i && i < s.len() && is_all_digits(
        slice_subrange(s.as_slice(), 0, i),
    ) {
        i + 3
    } else {
        0
    };
    proof {
        assert(s@.subrange(0, i as int) =~= s@.take(i as int));
        assert(s@.skip(0) =~= s@);
    }
    let t = slice_subrange(s.as_slice(), start, s.len());
    assert(t@ =~= without_number(s@));
    // And the state last.
    let comma = chars_of(", ");
    let n: usize = t.len();
    let end: usize = if n >= 4 && is_at(t, comma.as_slice(), n - 4) && is_capital(t[n - 2])
        && is_capital(t[n - 1]) {
        n - 4
    } else {
        n
    };
    let u = slice_subrange(t, 0, end);
    assert(u@ =~= without_state(t@));
    let name = trimmed(u);
    if name.len() == 0 {
        None
    } else {
        Some(string_of(name.as_slice()))
    }
}

fn is_capital(c: char) -> (r: bool)
    ensures
        r == capital(c),
{
    'A' <= c && c <= 'Z'
}

/// The id and name a line of NDBC's table gives a station.
fn read_entry(line: &[char]) -> (r: Option<(String, String)>)
    ensures
        match r {
            Some((id, name)) => entry(line@) == Some((id@, name@)),
            None => entry(line@) is None,
        },
{
    if line.len() > 0 && line[0] == '#' {
        return None;
    }
    let f = split_at(line, '|');
    assert(runs(f@).len() == f@.len());
    if f.len() < 5 {
        return None;
    }
    assert(runs(f@)[0] == f@[0]@ && runs(f@)[4] == f@[4]@);
    let id = uppercase(trimmed(f[0].as_slice()).as_slice());
    match clean_name(f[4].as_slice()) {
        None => None,
        Some(name) => {
            if id.len() == 0 {
                None
            } else {
                Some((string_of(id.as_slice()), name))
            }
        },
    }
}

/// NDBC's names by id, trimmed for a chart: `9414750 - Alameda, CA` is
/// `Alameda`.
pub fn parse_names(text: &str) -> (r: StringHashMap<String>)
    ensures
        names_view(r@) == names_of(text@),
{
    let chars = chars_of(text);
    let all = lines_of(chars.as_slice());
    let mut names: StringHashMap<String> = StringHashMap::new();
    let mut i: usize = 0;
    assert(runs(all@).take(0) =~= seq![]);
    assert(names_view(names@) =~= Map::empty());
    while i < all.len()
        invariant
            i <= all@.len(),
            names_view(names@) == names_in(runs(all@).take(i as int)),
        decreases all@.len() - i,
    {
        proof {
            assert(runs(all@).take(i + 1).drop_last() =~= runs(all@).take(i as int));
            assert(runs(all@).take(i + 1).last() == all@[i as int]@);
        }
        let ghost was = names@;
        if let Some((id, name)) = read_entry(all[i].as_slice()) {
            let ghost (k, v) = (id@, name@);
            names.insert(id, name);
            assert(names_view(names@) =~= names_view(was).insert(k, v));
        }
        i += 1;
    }
    assert(runs(all@).take(i as int) =~= runs(all@));
    names
}

/// `<cache>/ndbc/station_table.txt`.
pub fn names_file(cache: &[u8]) -> (r: Vec<u8>)
    ensures
        r@ == below(below(cache@, ascii("ndbc"@)), ascii("station_table.txt"@)),
{
    proof {
        reveal_strlit("ndbc");
        reveal_strlit("station_table.txt");
    }
    join(join(cache, "ndbc").as_slice(), "station_table.txt")
}

/// Where the station names are to come from.
pub enum Choice {
    /// The copy on disk.
    Kept(StringHashMap<String>),
    /// NDBC, which hasn't been asked yet.
    Ask,
    /// What NDBC answered, which is to be kept.
    Fetched(StringHashMap<String>),
    Failed(String),
}

/// Where the station names are to come from.
pub ghost enum ChoiceView {
    Kept(Map<Seq<char>, Seq<char>>),
    Ask,
    Fetched(Map<Seq<char>, Seq<char>>),
    Failed(Seq<char>),
}

impl View for Choice {
    type V = ChoiceView;

    open spec fn view(&self) -> ChoiceView {
        match *self {
            Choice::Kept(m) => ChoiceView::Kept(names_view(m@)),
            Choice::Ask => ChoiceView::Ask,
            Choice::Fetched(m) => ChoiceView::Fetched(names_view(m@)),
            Choice::Failed(e) => ChoiceView::Failed(e@),
        }
    }
}

/// The names a copy on disk gives, or else the failure.
pub open spec fn kept_or(kept: Option<Seq<char>>, e: Seq<char>) -> ChoiceView {
    if kept is Some && !names_of(kept->0).is_empty() {
        ChoiceView::Kept(names_of(kept->0))
    } else {
        ChoiceView::Failed(e)
    }
}

/// Whether a copy so many seconds old is kept: under a week.
pub open spec fn fresh(age: Option<u64>) -> bool {
    age is Some && age->0 < NAMES_KEPT
}

/// The copy on disk while it's under a week old, else NDBC's again. An older
/// copy stands in when NDBC can't be reached.
pub open spec fn chosen(
    url: Seq<char>,
    age: Option<u64>,
    kept: Option<Seq<char>>,
    fetched: Option<Result<Seq<char>, Seq<char>>>,
) -> ChoiceView {
    if fresh(age) && kept is Some && !names_of(kept->0).is_empty() {
        ChoiceView::Kept(names_of(kept->0))
    } else {
        match fetched {
            None => ChoiceView::Ask,
            Some(Err(e)) => kept_or(kept, e),
            Some(Ok(text)) => if names_of(text).is_empty() {
                kept_or(kept, url + ": no station names in it"@)
            } else {
                ChoiceView::Fetched(names_of(text))
            },
        }
    }
}

/// What was fetched, if anything was.
pub open spec fn fetched_view(f: Option<Result<String, String>>) -> Option<
    Result<Seq<char>, Seq<char>>,
> {
    match f {
        None => None,
        Some(Ok(text)) => Some(Ok(text@)),
        Some(Err(e)) => Some(Err(e@)),
    }
}

fn kept_names(kept: &Option<String>, e: String) -> (r: Choice)
    ensures
        r@ == kept_or(text_view(*kept), e@),
{
    if let Some(text) = kept {
        let m = parse_names(text.as_str());
        proof {
            lemma_empty(m@);
        }
        if !m.is_empty() {
            return Choice::Kept(m);
        }
    }
    Choice::Failed(e)
}

proof fn lemma_empty(m: Map<Seq<char>, String>)
    ensures
        m.is_empty() == names_view(m).is_empty(),
{
    if m.is_empty() {
        assert(names_view(m) =~= Map::empty());
    }
    if names_view(m).is_empty() {
        assert(m.dom() =~= names_view(m).dom());
    }
}

/// The station names: the copy on disk, `age` seconds old, while that's under
/// a week, else NDBC's again. An older copy stands in when NDBC can't be
/// reached.
pub fn names(
    source: &Source,
    age: Option<u64>,
    kept: &Option<String>,
    fetched: &Option<Result<String, String>>,
) -> (r: Choice)
    ensures
        r@ == chosen(source.names@, age, text_view(*kept), fetched_view(*fetched)),
{
    let is_fresh = match age {
        Some(a) => a < NAMES_KEPT,
        None => false,
    };
    if is_fresh {
        if let Some(text) = kept {
            let m = parse_names(text.as_str());
            proof {
                lemma_empty(m@);
            }
            if !m.is_empty() {
                return Choice::Kept(m);
            }
        }
    }
    match fetched {
        None => Choice::Ask,
        Some(Err(e)) => kept_names(kept, e.as_str().to_owned()),
        Some(Ok(text)) => {
            let m = parse_names(text.as_str());
            proof {
                lemma_empty(m@);
            }
            if m.is_empty() {
                let mut e = source.names.as_str().to_owned();
                e.append(": no station names in it");
                kept_names(kept, e)
            } else {
                Choice::Fetched(m)
            }
        },
    }
}

// --- Reports to show -------------------------------------------------------------------

/// A station, named where the table names it.
pub open spec fn named(s: StationView, names: Map<Seq<char>, Seq<char>>) -> StationView {
    StationView {
        name: if names.contains_key(s.id) {
            Some(names[s.id])
        } else {
            None
        },
        ..s
    }
}

/// Stations, each named where the table names it.
pub open spec fn all_named(list: Seq<StationView>, names: Map<Seq<char>, Seq<char>>) -> Seq<
    StationView,
> {
    Seq::new(list.len(), |i: int| named(list[i], names))
}

/// Every station's latest report, named where the table names it.
pub fn latest(text: &str, names: &StringHashMap<String>) -> (r: Result<Vec<Station>, String>)
    ensures
        match r {
            Ok(v) => latest_in(text@) is Ok && stations_view(v@) == all_named(
                latest_in(text@)->Ok_0,
                names_view(names@),
            ),
            Err(e) => latest_in(text@) == Err::<Seq<StationView>, Seq<char>>(e@),
        },
        r matches Ok(v) ==> by_id(stations_view(v@)),
{
    let stations = match parse_latest(text) {
        Ok(v) => v,
        Err(e) => return Err(e),
    };
    let ghost all = stations_view(stations@);
    let ghost n = names_view(names@);
    let mut out: Vec<Station> = Vec::new();
    let mut i: usize = 0;
    while i < stations.len()
        invariant
            i <= stations@.len(),
            all == stations_view(stations@),
            n == names_view(names@),
            stations_view(out@) == all_named(all, n).take(i as int),
        decreases stations@.len() - i,
    {
        let s = &stations[i];
        let name = match names.get(s.id.as_str()) {
            Some(name) => Some(name.as_str().to_owned()),
            None => None,
        };
        let next = Station {
            id: s.id.as_str().to_owned(),
            name,
            lat: s.lat,
            lon: s.lon,
            time: s.time,
            speed: s.speed,
            from_deg: s.from_deg,
            gust: s.gust,
        };
        let ghost was = out@;
        assert(next@ == named(all[i as int], n));
        out.push(next);
        i += 1;
        assert(stations_view(out@) =~= all_named(all, n).take(i as int)) by {
            assert(stations_view(out@) =~= stations_view(was).push(next@));
        }
    }
    assert(all_named(all, n).take(i as int) =~= all_named(all, n));
    assert(by_id(stations_view(out@))) by {
        let v = stations_view(out@);
        assert forall|a: int, b: int| 0 <= a < b < v.len() implies before(
            #[trigger] v[a].id,
            #[trigger] v[b].id,
        ) by {
            assert(v[a].id == all[a].id && v[b].id == all[b].id);
        }
    }
    Ok(out)
}

/// Whether a report is worth showing for a region now: inside it, not over 2
/// hours old, and not over 15 minutes ahead.
pub open spec fn showing(s: StationView, region: RegionView, now: int) -> bool {
    region.contains(s.lat, s.lon) && s.time >= now - MAX_AGE && s.time <= now + AHEAD
}

/// The reports among the first `n` that are worth showing.
pub open spec fn showing_below(list: Seq<StationView>, region: RegionView, now: int, n: int) -> Seq<
    usize,
>
    decreases n,
{
    if n <= 0 {
        seq![]
    } else if showing(list[n - 1], region, now) {
        showing_below(list, region, now, n - 1).push((n - 1) as usize)
    } else {
        showing_below(list, region, now, n - 1)
    }
}

/// The reports worth showing for a region now: inside it, and no older than
/// `MAX_AGE`. Which of the list they are, in order.
pub fn current(stations: &[Station], region: &Region, now: i64) -> (r: Vec<usize>)
    ensures
        r@ == showing_below(
            stations_view(stations@),
            region@,
            now as int,
            stations@.len() as int,
        ),
        forall|k: int| 0 <= k < r@.len() ==> #[trigger] r@[k] < stations@.len(),
{
    let mut out: Vec<usize> = Vec::new();
    let mut i: usize = 0;
    while i < stations.len()
        invariant
            i <= stations@.len(),
            out@ == showing_below(stations_view(stations@), region@, now as int, i as int),
            forall|k: int| 0 <= k < out@.len() ==> #[trigger] out@[k] < i,
        decreases stations@.len() - i,
    {
        let s = &stations[i];
        assert(stations_view(stations@)[i as int] == s@);
        if region.contains(&s.lat, &s.lon) && s.time as i128 >= now as i128 - MAX_AGE as i128
            && s.time as i128 <= now as i128 + AHEAD as i128 {
            out.push(i);
        }
        i += 1;
    }
    out
}

/// A list by id, with each of the first `n` reports of another put into it.
pub open spec fn put_all(list: Seq<StationView>, more: Seq<StationView>, n: int) -> Seq<StationView>
    decreases n,
{
    if n <= 0 {
        list
    } else {
        put(put_all(list, more, n - 1), more[n - 1])
    }
}

/// The reports just fetched, and of each station they leave out, or have
/// nothing as new of, the report there was.
pub fn merge(kept: Vec<Station>, fetched: Vec<Station>) -> (r: Vec<Station>)
    requires
        by_id(stations_view(fetched@)),
    ensures
        stations_view(r@) == put_all(
            stations_view(fetched@),
            stations_view(kept@),
            kept@.len() as int,
        ),
        by_id(stations_view(r@)),
{
    let ghost all = stations_view(kept@);
    let ghost start = stations_view(fetched@);
    let mut out = fetched;
    let mut i: usize = 0;
    while i < kept.len()
        invariant
            i <= kept@.len(),
            all == stations_view(kept@),
            stations_view(out@) == put_all(start, all, i as int),
            by_id(stations_view(out@)),
        decreases kept@.len() - i,
    {
        let s = &kept[i];
        let name = match &s.name {
            Some(name) => Some(name.as_str().to_owned()),
            None => None,
        };
        let copy = Station {
            id: s.id.as_str().to_owned(),
            name,
            lat: s.lat,
            lon: s.lon,
            time: s.time,
            speed: s.speed,
            from_deg: s.from_deg,
            gust: s.gust,
        };
        assert(copy@ == all[i as int]);
        add_report(&mut out, copy);
        i += 1;
    }
    out
}

// --- Laws ------------------------------------------------------------------------------

/// Whether a list has a report of the station that is as new.
pub open spec fn covers(list: Seq<StationView>, s: StationView) -> bool {
    exists|k: int| 0 <= k < list.len() && #[trigger] list[k].id == s.id && list[k].time >= s.time
}

/// Putting a report into a list covers it, and whatever was covered.
proof fn lemma_put_covers(list: Seq<StationView>, s: StationView, x: StationView)
    ensures
        covers(put(list, s), s),
        covers(list, x) ==> covers(put(list, s), x),
    decreases list.len(),
{
    let new = put(list, s);
    if list.len() == 0 {
        assert(new[0].id == s.id);
    } else if s.id == list[0].id {
        assert(new[0].id == s.id);
        if covers(list, x) {
            let k = choose|k: int|
                0 <= k < list.len() && #[trigger] list[k].id == x.id && list[k].time >= x.time;
            assert(new[k].id == x.id);
        }
    } else if before(s.id, list[0].id) {
        assert(new[0].id == s.id);
        if covers(list, x) {
            let k = choose|k: int|
                0 <= k < list.len() && #[trigger] list[k].id == x.id && list[k].time >= x.time;
            assert(new[k + 1].id == x.id);
        }
    } else {
        let rest = list.skip(1);
        lemma_put_covers(rest, s, x);
        let tail = put(rest, s);
        let k = choose|k: int|
            0 <= k < tail.len() && #[trigger] tail[k].id == s.id && tail[k].time >= s.time;
        assert(new[k + 1].id == s.id);
        if covers(list, x) {
            let k = choose|k: int|
                0 <= k < list.len() && #[trigger] list[k].id == x.id && list[k].time >= x.time;
            if k == 0 {
                assert(new[0].id == x.id);
            } else {
                assert(rest[k - 1].id == x.id);
                let j = choose|j: int|
                    0 <= j < tail.len() && #[trigger] tail[j].id == x.id && tail[j].time >= x.time;
                assert(new[j + 1].id == x.id);
            }
        }
    }
}

/// A list a report was put into holds that report, and what it held.
proof fn lemma_put_adds_nothing_else(list: Seq<StationView>, s: StationView, k: int)
    requires
        0 <= k < put(list, s).len(),
    ensures
        put(list, s)[k] == s || list.contains(put(list, s)[k]),
    decreases list.len(),
{
    let new = put(list, s);
    if list.len() > 0 {
        if s.id == list[0].id {
            if k > 0 || !(list[0].time < s.time) {
                assert(new[k] == list[k]);
            }
        } else if before(s.id, list[0].id) {
            if k > 0 {
                assert(new[k] == list[k - 1]);
            }
        } else if k == 0 {
            assert(new[0] == list[0]);
        } else {
            lemma_put_adds_nothing_else(list.skip(1), s, k - 1);
            assert(new[k] == put(list.skip(1), s)[k - 1]);
            if new[k] != s {
                let j = choose|j: int| 0 <= j < list.skip(1).len() && list.skip(1)[j] == new[k];
                assert(list[j + 1] == new[k]);
            }
        }
    }
}

/// A station's newest report is the one kept: none that a file gives is newer.
pub proof fn law_a_stations_newest_report_is_kept(
    all: Seq<Seq<char>>,
    c: Columns,
    i: int,
    s: StationView,
)
    requires
        0 <= i < all.len(),
        !comment(all[i]),
        row_says(words(all[i]), c) == Some(Some(s)),
    ensures
        covers(gathered(all, c).stations, s),
    decreases all.len(),
{
    let before = all.drop_last();
    if i == all.len() - 1 {
        lemma_put_covers(gathered(before, c).stations, s, s);
    } else {
        assert(before[i] == all[i]);
        law_a_stations_newest_report_is_kept(before, c, i, s);
        if !comment(all.last()) {
            if let Some(Some(t)) = row_says(words(all.last()), c) {
                lemma_put_covers(gathered(before, c).stations, t, s);
            }
        }
    }
}

/// Every report kept is one the file gives.
pub proof fn law_a_report_kept_was_made(all: Seq<Seq<char>>, c: Columns, k: int)
    requires
        0 <= k < gathered(all, c).stations.len(),
    ensures
        exists|i: int|
            0 <= i < all.len() && !comment(all[i]) && row_says(words(#[trigger] all[i]), c) == Some(
                Some(gathered(all, c).stations[k]),
            ),
    decreases all.len(),
{
    let before = all.drop_last();
    let list = gathered(all, c).stations;
    let was = gathered(before, c).stations;
    let last = all.len() - 1;
    let fresh = !comment(all.last()) && (row_says(words(all.last()), c) matches Some(Some(_)));
    if fresh {
        let t = row_says(words(all.last()), c)->0->0;
        lemma_put_adds_nothing_else(was, t, k);
        if list[k] == t {
            assert(row_says(words(all[last]), c) == Some(Some(list[k])));
        }
    }
    if was.contains(list[k]) {
        let j = choose|j: int| 0 <= j < was.len() && was[j] == list[k];
        law_a_report_kept_was_made(before, c, j);
        let i = choose|i: int|
            0 <= i < before.len() && !comment(before[i]) && row_says(
                words(#[trigger] before[i]),
                c,
            ) == Some(Some(was[j]));
        assert(all[i] == before[i]);
    }
}

/// Merging loses no station: each report, fetched or kept, is there, or one
/// of the same station that is as new.
pub proof fn law_merging_loses_no_station(
    fetched: Seq<StationView>,
    kept: Seq<StationView>,
    n: int,
    s: StationView,
)
    requires
        0 <= n <= kept.len(),
        covers(fetched, s) || exists|i: int| 0 <= i < n && #[trigger] kept[i] == s,
    ensures
        covers(put_all(fetched, kept, n), s),
    decreases n,
{
    if n > 0 {
        let t = kept[n - 1];
        let was = put_all(fetched, kept, n - 1);
        lemma_put_covers(was, t, s);
        if t != s {
            law_merging_loses_no_station(fetched, kept, n - 1, s);
        }
    }
}

} // verus!
