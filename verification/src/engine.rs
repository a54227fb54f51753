//! `omawind run`: keeps the newest forecast for the region, follows the
//! boat through omakeel, and answers apps over the Unix socket, all as
//! docs/protocol.md says.

use crate::config::{Region, RegionView, Settings, SettingsView};
use crate::forecast::{Forecast, ForecastView};
use crate::json::{
    field_named,
    lemma_field_after,
    lemma_full,
    lemma_full_list,
    lemma_no_null,
    list,
    list_view,
    no_null,
    Fields,
    Json,
    JsonView,
};
use crate::keel::{boat_view, float_named, real_named, Boat, BoatView, Update, UpdateView};
use crate::number::{nearest, to_i64, worth, Real};
use crate::obs::{current, showing_below, stations_view, Source, Station, StationView};
use crate::paths::{copy_path, socket, socket_path, variable, Environment};
use crate::text::{joined, same_text, strings};
use crate::time;
use vstd::prelude::*;

verus! {

pub const VERSION: u64 = 1;

/// Messages queued for one app. An app this far behind is dropped.
pub const QUEUE: usize = 64;

/// An app that can't take one message in this many seconds has stalled.
pub const WRITE_TIMEOUT: u64 = 2;

/// How often NOMADS is asked for a newer run, and NDBC for reports, seconds.
pub const CHECK_EVERY: u64 = 600;

/// A forecast from a run this old, in seconds, means newer runs couldn't be
/// fetched.
pub const OLD_AFTER: i64 = 14_400;

/// The most points a `field` answer may carry.
pub const MAX_POINTS: u64 = 2000;

pub struct Config {
    pub socket: Vec<u8>,
    /// omakeel's socket, for the boat's position. None to never ask.
    pub keel: Option<Vec<u8>>,
    pub cache: Vec<u8>,
    /// The settings file.
    pub settings: Vec<u8>,
    /// Whether to download forecasts, or only use what's cached.
    pub fetch: bool,
    /// Where stations' reports come from. None to never ask.
    pub stations: Option<Source>,
}

/// `$XDG_RUNTIME_DIR/omawind/wind.sock`.
pub fn default_socket(env: &Environment) -> (r: Result<Vec<u8>, String>)
    ensures
        match socket_path(variable(env.runtime_dir), "omawind"@, "wind.sock"@) {
            Some(p) => r matches Ok(path) && path@ == p,
            None => r matches Err(e) && e@ == "XDG_RUNTIME_DIR must be set to an absolute path"@,
        },
{
    proof {
        reveal_strlit("omawind");
        reveal_strlit("wind.sock");
    }
    match socket(&env.runtime_dir, "omawind", "wind.sock") {
        Some(path) => Ok(path),
        None => Err("XDG_RUNTIME_DIR must be set to an absolute path".to_owned()),
    }
}

/// The lock file beside a socket.
pub fn lock_path(socket: &[u8]) -> (r: Vec<u8>)
    ensures
        r@ == socket@ + seq![0x2eu8, 0x6c, 0x6f, 0x63, 0x6b],
{
    let mut out = copy_path(socket);
    out.push(0x2e);
    out.push(0x6c);
    out.push(0x6f);
    out.push(0x63);
    out.push(0x6b);
    assert(out@ =~= socket@ + seq![0x2eu8, 0x6c, 0x6f, 0x63, 0x6b]);
    out
}

/// A line, ended.
pub fn encode(v: &str) -> (r: String)
    ensures
        r@ == v@.push('\n'),
{
    let mut line = v.to_owned();
    line.push('\n');
    line
}

// --- What is known --------------------------------------------------------------------

#[derive(Clone, Copy, Debug)]
pub enum FetchStatus {
    /// Forecasts aren't downloaded.
    Off,
    Checking,
    /// So many hours of so many are here.
    Downloading(u64, u64),
    Idle,
    Error,
}

#[derive(Debug)]
pub struct FetchState {
    pub status: FetchStatus,
    /// What went wrong last.
    pub message: Option<String>,
    /// When NOMADS was last checked successfully, Unix seconds.
    pub checked: Option<i64>,
}

#[derive(Clone, Copy, Debug)]
pub enum KeelStatus {
    /// omakeel is never asked.
    Off,
    Lost,
    Connected,
    Incompatible,
}

#[derive(Clone, Copy, Debug)]
pub enum StationStatus {
    /// NDBC is never asked.
    Off,
    Waiting,
    Answered,
    Error,
}

#[derive(Debug)]
pub struct StationState {
    pub status: StationStatus,
    /// What went wrong last.
    pub message: Option<String>,
    /// When NDBC last answered, Unix seconds.
    pub checked: Option<i64>,
    /// Every station's last report, by id.
    pub reports: Vec<Station>,
}

/// All the engine knows.
#[derive(Debug)]
pub struct Wind {
    pub settings: Settings,
    /// What is wrong with the settings.
    pub problems: Vec<String>,
    pub forecast: Option<Forecast>,
    /// The folder of the run shown.
    pub run: Option<String>,
    /// Why what's cached can't be read.
    pub load_problem: Option<String>,
    pub fetch: FetchState,
    pub boat: Option<Boat>,
    pub keel: KeelStatus,
    pub stations: StationState,
}

/// How fetching stands.
pub ghost struct FetchView {
    pub status: FetchStatus,
    pub message: Option<Seq<char>>,
    pub checked: Option<i64>,
}

/// How the stations stand.
pub ghost struct StationsView {
    pub status: StationStatus,
    pub message: Option<Seq<char>>,
    pub checked: Option<i64>,
    pub reports: Seq<StationView>,
}

/// All the engine knows.
pub ghost struct WindView {
    pub settings: SettingsView,
    pub problems: Seq<Seq<char>>,
    pub forecast: Option<ForecastView>,
    pub run: Option<Seq<char>>,
    pub load_problem: Option<Seq<char>>,
    pub fetch: FetchView,
    pub boat: Option<BoatView>,
    pub keel: KeelStatus,
    pub stations: StationsView,
}

/// A text, if there is one.
pub open spec fn text_view(s: Option<String>) -> Option<Seq<char>> {
    match s {
        Some(s) => Some(s@),
        None => None,
    }
}

/// A forecast, if there is one.
pub open spec fn forecast_view(f: Option<Forecast>) -> Option<ForecastView> {
    match f {
        Some(f) => Some(f@),
        None => None,
    }
}

impl View for Wind {
    type V = WindView;

    open spec fn view(&self) -> WindView {
        WindView {
            settings: self.settings@,
            problems: strings(self.problems@),
            forecast: forecast_view(self.forecast),
            run: text_view(self.run),
            load_problem: text_view(self.load_problem),
            fetch: FetchView {
                status: self.fetch.status,
                message: text_view(self.fetch.message),
                checked: self.fetch.checked,
            },
            boat: boat_view(self.boat),
            keel: self.keel,
            stations: StationsView {
                status: self.stations.status,
                message: text_view(self.stations.message),
                checked: self.stations.checked,
                reports: stations_view(self.stations.reports@),
            },
        }
    }
}

impl WindView {
    /// What always holds: the forecast is sound, and reports are by id.
    pub open spec fn sound(self) -> bool {
        &&& self.forecast matches Some(f) ==> f.sound()
        &&& crate::obs::by_id(self.stations.reports)
    }

    /// The newest good run cached is shown. What's on show stays while
    /// nothing cached can be read, and the problem is said.
    pub open spec fn loaded(
        self,
        found: Option<(Seq<char>, ForecastView)>,
        problem: Option<Seq<char>>,
    ) -> WindView {
        match found {
            Some((run, f)) => WindView {
                forecast: Some(f),
                run: Some(run),
                load_problem: problem,
                ..self
            },
            None => if problem is None {
                WindView { forecast: None, run: None, load_problem: None, ..self }
            } else {
                WindView { load_problem: problem, ..self }
            },
        }
    }

    /// The settings, read again. A forecast for another region is no use.
    pub open spec fn resettled(self, settings: SettingsView, problems: Seq<Seq<char>>) -> WindView {
        if settings.region.equal(self.settings.region) {
            WindView { settings, problems, ..self }
        } else {
            WindView { settings, problems, forecast: None, run: None, ..self }
        }
    }

    /// What omakeel says, taken in. Without a connection that works there is
    /// no boat.
    pub open spec fn updated(self, u: UpdateView) -> WindView {
        match u {
            UpdateView::Boat(boat) => WindView { boat, keel: KeelStatus::Connected, ..self },
            UpdateView::Lost => WindView { boat: None, keel: KeelStatus::Lost, ..self },
            UpdateView::Incompatible(_) => WindView {
                boat: None,
                keel: KeelStatus::Incompatible,
                ..self
            },
        }
    }
}

/// What a fetch of the forecast comes to, as it goes.
#[derive(Debug)]
pub enum FetchEvent {
    Checking,
    Downloading(u64, u64),
    /// The run's folder is up to date.
    Fetched(String),
    Failed(String),
}

/// What a fetch of the forecast comes to, as it goes.
pub ghost enum FetchEventView {
    Checking,
    Downloading(u64, u64),
    Fetched(Seq<char>),
    Failed(Seq<char>),
}

impl View for FetchEvent {
    type V = FetchEventView;

    open spec fn view(&self) -> FetchEventView {
        match *self {
            FetchEvent::Checking => FetchEventView::Checking,
            FetchEvent::Downloading(done, total) => FetchEventView::Downloading(done, total),
            FetchEvent::Fetched(run) => FetchEventView::Fetched(run@),
            FetchEvent::Failed(e) => FetchEventView::Failed(e@),
        }
    }
}

/// What to do next with the cache.
#[derive(Debug)]
pub enum Then {
    Nothing,
    /// Read it again.
    Reload,
    /// Read it again, then delete runs older than the one shown and this one.
    ReloadAndPrune(String),
}

impl FetchView {
    /// How fetching stands once this has happened.
    pub open spec fn after(self, e: FetchEventView, now: i64) -> FetchView {
        match e {
            FetchEventView::Checking => FetchView { status: FetchStatus::Checking, ..self },
            FetchEventView::Downloading(done, total) => FetchView {
                status: FetchStatus::Downloading(done, total),
                ..self
            },
            FetchEventView::Fetched(_) => FetchView {
                status: FetchStatus::Idle,
                message: None,
                checked: Some(now),
            },
            FetchEventView::Failed(e) => FetchView {
                status: FetchStatus::Error,
                message: Some(e),
                ..self
            },
        }
    }
}

/// What to do with the cache once this has happened: the hours that did
/// arrive may have made a run ready, even when fetching failed.
pub open spec fn then_of(e: FetchEventView) -> Option<Option<Seq<char>>> {
    match e {
        FetchEventView::Fetched(run) => Some(Some(run)),
        FetchEventView::Failed(_) => Some(None),
        _ => None,
    }
}

/// What to do next: nothing, read the cache, or read it and keep a run.
pub open spec fn then_view(t: Then) -> Option<Option<Seq<char>>> {
    match t {
        Then::Nothing => None,
        Then::Reload => Some(None),
        Then::ReloadAndPrune(run) => Some(Some(run@)),
    }
}

impl Wind {
    /// Before anything is read: whether forecasts are downloaded, omakeel is
    /// followed, and stations are asked for.
    pub fn new(fetching: bool, keel: bool, stations: bool) -> (r: Wind)
        ensures
            r@.sound(),
            r@ == (WindView {
                settings: crate::config::default_view(),
                problems: seq![],
                forecast: None,
                run: None,
                load_problem: None,
                fetch: FetchView {
                    status: if fetching {
                        FetchStatus::Idle
                    } else {
                        FetchStatus::Off
                    },
                    message: None,
                    checked: None,
                },
                boat: None,
                keel: if keel {
                    KeelStatus::Lost
                } else {
                    KeelStatus::Off
                },
                stations: StationsView {
                    status: if stations {
                        StationStatus::Waiting
                    } else {
                        StationStatus::Off
                    },
                    message: None,
                    checked: None,
                    reports: seq![],
                },
            }),
    {
        let r = Wind {
            settings: Settings::default(),
            problems: Vec::new(),
            forecast: None,
            run: None,
            load_problem: None,
            fetch: FetchState {
                status: if fetching {
                    FetchStatus::Idle
                } else {
                    FetchStatus::Off
                },
                message: None,
                checked: None,
            },
            boat: None,
            keel: if keel {
                KeelStatus::Lost
            } else {
                KeelStatus::Off
            },
            stations: StationState {
                status: if stations {
                    StationStatus::Waiting
                } else {
                    StationStatus::Off
                },
                message: None,
                checked: None,
                reports: Vec::new(),
            },
        };
        assert(strings(r.problems@) =~= seq![]);
        assert(stations_view(r.stations.reports@) =~= seq![]);
        r
    }

    /// The newest good run cached, or why there is none. What's on show stays
    /// while nothing cached can be read, and the problem is said.
    pub fn load_newest(&mut self, found: Option<(String, Forecast)>, problem: Option<String>)
        requires
            old(self)@.sound(),
            found matches Some((_, f)) ==> f@.sound(),
        ensures
            final(self)@.sound(),
            final(self)@ == old(self)@.loaded(
                match found {
                    Some((run, f)) => Some((run@, f@)),
                    None => None,
                },
                text_view(problem),
            ),
    {
        let bad = problem.is_some();
        self.load_problem = problem;
        match found {
            Some((run, f)) => {
                self.forecast = Some(f);
                self.run = Some(run);
            },
            None => {
                if !bad {
                    self.forecast = None;
                    self.run = None;
                }
            },
        }
    }

    /// The settings, read again. True if the region changed, and what's
    /// cached is to be read again for it.
    pub fn reread_settings(&mut self, settings: Settings, problems: Vec<String>) -> (r: bool)
        requires
            old(self)@.sound(),
        ensures
            final(self)@.sound(),
            final(self)@ == old(self)@.resettled(settings@, strings(problems@)),
            r == !settings@.region.equal(old(self)@.settings.region),
    {
        let moved = !settings.region.equals(&self.settings.region);
        self.settings = settings;
        self.problems = problems;
        if moved {
            self.forecast = None;
            self.run = None;
        }
        moved
    }

    /// What a fetch of the forecast comes to, taken in, and what to do with
    /// the cache then.
    pub fn fetched(&mut self, e: FetchEvent, now: i64) -> (r: Then)
        requires
            old(self)@.sound(),
        ensures
            final(self)@.sound(),
            final(self)@ == (WindView { fetch: old(self)@.fetch.after(e@, now), ..old(self)@ }),
            then_view(r) == then_of(e@),
    {
        match e {
            FetchEvent::Checking => {
                self.fetch.status = FetchStatus::Checking;
                Then::Nothing
            },
            FetchEvent::Downloading(done, total) => {
                self.fetch.status = FetchStatus::Downloading(done, total);
                Then::Nothing
            },
            FetchEvent::Fetched(run) => {
                self.fetch = FetchState {
                    status: FetchStatus::Idle,
                    message: None,
                    checked: Some(now),
                };
                // A new run, new hours of this one, or hours another omawind
                // fetched: reading the cache again is cheap.
                Then::ReloadAndPrune(run)
            },
            FetchEvent::Failed(e) => {
                self.fetch.status = FetchStatus::Error;
                self.fetch.message = Some(e);
                // The hours that did arrive may have made a run ready.
                Then::Reload
            },
        }
    }

    /// What omakeel says, taken in.
    pub fn update(&mut self, u: Update)
        requires
            old(self)@.sound(),
        ensures
            final(self)@.sound(),
            final(self)@ == old(self)@.updated(u@),
    {
        match u {
            Update::Boat(boat) => {
                self.boat = boat;
                self.keel = KeelStatus::Connected;
            },
            Update::Lost => {
                self.boat = None;
                self.keel = KeelStatus::Lost;
            },
            Update::Incompatible(_) => {
                self.boat = None;
                self.keel = KeelStatus::Incompatible;
            },
        }
    }

    /// What asking NDBC came to, taken in. The last report stays of a station
    /// a fetch leaves out, and all of them after an error.
    pub fn reported(&mut self, answer: Result<Vec<Station>, String>, now: i64)
        requires
            old(self)@.sound(),
            answer matches Ok(v) ==> crate::obs::by_id(stations_view(v@)),
        ensures
            final(self)@.sound(),
            final(self)@ == (WindView {
                stations: old(self)@.stations.after(
                    match answer {
                        Ok(v) => Ok(stations_view(v@)),
                        Err(e) => Err(e@),
                    },
                    now,
                ),
                ..old(self)@
            }),
    {
        match answer {
            Ok(v) => {
                let mut kept: Vec<Station> = Vec::new();
                kept.append(&mut self.stations.reports);
                self.stations = StationState {
                    status: StationStatus::Answered,
                    message: None,
                    checked: Some(now),
                    reports: crate::obs::merge(kept, v),
                };
            },
            Err(e) => {
                self.stations.status = StationStatus::Error;
                self.stations.message = Some(e);
            },
        }
    }
}

impl StationsView {
    /// How the stations stand once NDBC was asked.
    pub open spec fn after(self, answer: Result<Seq<StationView>, Seq<char>>, now: i64) -> StationsView {
        match answer {
            Ok(v) => StationsView {
                status: StationStatus::Answered,
                message: None,
                checked: Some(now),
                reports: crate::obs::put_all(v, self.reports, self.reports.len() as int),
            },
            Err(e) => StationsView { status: StationStatus::Error, message: Some(e), ..self },
        }
    }
}

// --- Taking turns ------------------------------------------------------------------------

/// How often the settings are looked at, in ticks of a second.
pub const SETTINGS_EVERY: u64 = 5;

/// What a tick calls for.
#[derive(Clone, Copy, Debug, PartialEq, Eq, Structural)]
pub enum Tick {
    Nothing,
    /// Read the settings again if they changed.
    Reread,
    /// Tell the fetcher the new region, to fetch for it at once.
    Refetch,
}

/// What a tick calls for, the `ticks`th: first by the count alone, then, once
/// the settings were read again, by whether the region moved.
pub fn tick(ticks: u64, moved: Option<bool>) -> (r: Tick)
    ensures
        r == Tick::Reread <==> moved is None && ticks % SETTINGS_EVERY == 0,
        r == Tick::Refetch <==> moved == Some(true),
{
    match moved {
        None => {
            if ticks % SETTINGS_EVERY == 0 {
                Tick::Reread
            } else {
                Tick::Nothing
            }
        },
        Some(true) => Tick::Refetch,
        Some(false) => Tick::Nothing,
    }
}

/// The region to fetch for next: the last that was told since, else the same.
pub fn next_fetch(region: Region, told: &[Region]) -> (r: Region)
    ensures
        r@ == (if told@.len() == 0 {
            region@
        } else {
            told@.last()@
        }),
{
    if told.len() == 0 {
        region
    } else {
        told[told.len() - 1]
    }
}

// --- The state message ------------------------------------------------------------------

/// The forecast at a place and time.
#[derive(Clone, Copy, Debug)]
pub struct Sample {
    pub speed_kn: Real,
    /// Where the wind blows from, degrees true.
    pub from_deg: Real,
    pub gust_kn: Option<Real>,
    pub pressure_hpa: Option<Real>,
}

/// The forecast at a place and time.
pub ghost struct SampleView {
    pub speed_kn: u64,
    pub from_deg: u64,
    pub gust_kn: Option<u64>,
    pub pressure_hpa: Option<u64>,
}

/// A number's bits, if there is one.
pub open spec fn real_view(x: Option<Real>) -> Option<u64> {
    match x {
        Some(x) => Some(x@),
        None => None,
    }
}

impl View for Sample {
    type V = SampleView;

    open spec fn view(&self) -> SampleView {
        SampleView {
            speed_kn: self.speed_kn@,
            from_deg: self.from_deg@,
            gust_kn: real_view(self.gust_kn),
            pressure_hpa: real_view(self.pressure_hpa),
        }
    }
}

/// A sample, if there is one.
pub open spec fn sample_view(s: Option<Sample>) -> Option<SampleView> {
    match s {
        Some(s) => Some(s@),
        None => None,
    }
}

/// Each sample, where there is one.
pub open spec fn samples_view(v: Seq<Option<Sample>>) -> Seq<Option<SampleView>> {
    Seq::new(v.len(), |i: int| sample_view(v[i]))
}

/// A field with a text.
pub open spec fn text_field(name: Seq<char>, v: Seq<char>) -> (Seq<char>, JsonView) {
    (name, JsonView::Text(v))
}

/// A field with a number to a tenth, if there is a number.
pub open spec fn tenth_field(name: Seq<char>, x: Option<u64>) -> Seq<(Seq<char>, JsonView)> {
    match x {
        Some(x) => seq![(name, JsonView::Rounded(x, 1))],
        None => seq![],
    }
}

/// A direction as a whole number of degrees from 0 to 359.
pub open spec fn degrees(bits: u64) -> nat {
    (to_i64(nearest(worth(bits))) % 360) as nat
}

impl SampleView {
    /// What a message says of it.
    pub open spec fn fields(self) -> Seq<(Seq<char>, JsonView)> {
        seq![
            ("speedKn"@, JsonView::Rounded(self.speed_kn, 1)),
            ("dirDeg"@, JsonView::Count(degrees(self.from_deg))),
        ] + tenth_field("gustKn"@, self.gust_kn) + tenth_field("pressureHpa"@, self.pressure_hpa)
    }
}

/// A direction as a whole number of degrees from 0 to 359.
fn whole_degrees(x: &Real) -> (r: u64)
    ensures
        r as int == degrees(x@),
        r < 360,
{
    let n: i64 = x.rounded();
    time::floor_mod(n, 360) as u64
}

/// Adds what a message says of a sample.
fn sample_into(m: &mut Fields, s: &Sample)
    ensures
        final(m)@ == old(m)@ + s@.fields(),
{
    m.put("speedKn", Json::Rounded(s.speed_kn, 1));
    m.put("dirDeg", Json::Count(whole_degrees(&s.from_deg)));
    if let Some(g) = s.gust_kn {
        m.put("gustKn", Json::Rounded(g, 1));
    }
    if let Some(p) = s.pressure_hpa {
        m.put("pressureHpa", Json::Rounded(p, 1));
    }
    assert(m@ =~= old(m)@ + s@.fields());
}

/// How current a forecast is.
pub open spec fn standing(f: ForecastView, now: int) -> Seq<char> {
    if now > f.last() {
        "expired"@
    } else if now - f.run >= OLD_AFTER {
        "old"@
    } else {
        "ok"@
    }
}

/// A region's edges.
pub open spec fn region_json(r: RegionView) -> JsonView {
    JsonView::Object(
        seq![
            ("south"@, JsonView::Exact(r.south)),
            ("west"@, JsonView::Exact(r.west)),
            ("north"@, JsonView::Exact(r.north)),
            ("east"@, JsonView::Exact(r.east)),
        ],
    )
}

/// Minutes since a time: none before it.
pub open spec fn minutes_since(t: int, now: int) -> nat {
    if now > t {
        ((now - t) / 60) as nat
    } else {
        0
    }
}

/// What the state says of a forecast.
pub open spec fn run_fields(f: ForecastView, now: int) -> Seq<(Seq<char>, JsonView)> {
    seq![
        text_field("status"@, standing(f, now)),
        text_field("model"@, "HRRR"@),
        text_field("run"@, time::iso_text(f.run)),
        ("ageMinutes"@, JsonView::Count(minutes_since(f.run, now))),
        text_field("first"@, time::iso_text(f.first())),
        text_field("last"@, time::iso_text(f.last())),
        ("hours"@, JsonView::Count(f.hours.len())),
    ]
}

/// What the state says of the forecast, if there is one.
pub open spec fn forecast_json(f: Option<ForecastView>, region: RegionView, now: int) -> JsonView {
    let known = match f {
        None => seq![text_field("status"@, "none"@)],
        Some(f) => run_fields(f, now),
    };
    JsonView::Object(known.push(("region"@, region_json(region))))
}

pub open spec fn fetch_word(s: FetchStatus) -> Seq<char> {
    match s {
        FetchStatus::Off => "off"@,
        FetchStatus::Checking => "checking"@,
        FetchStatus::Downloading(_, _) => "downloading"@,
        FetchStatus::Idle => "idle"@,
        FetchStatus::Error => "error"@,
    }
}

/// A field with when something was last checked, if it was.
pub open spec fn checked_field(t: Option<i64>) -> Seq<(Seq<char>, JsonView)> {
    match t {
        Some(t) => seq![text_field("checked"@, time::iso_text(t as int))],
        None => seq![],
    }
}

/// What the state says of fetching: how far it is while downloading, and what
/// went wrong with an error.
pub open spec fn fetch_json(f: FetchView) -> JsonView {
    JsonView::Object(
        seq![text_field("status"@, fetch_word(f.status))] + (match f.status {
            FetchStatus::Downloading(done, total) => seq![
                ("done"@, JsonView::Count(done as nat)),
                ("total"@, JsonView::Count(total as nat)),
            ],
            _ => seq![],
        }) + (if f.status is Error && f.message is Some {
            seq![text_field("message"@, f.message->0)]
        } else {
            seq![]
        }) + checked_field(f.checked),
    )
}

pub open spec fn keel_word(k: KeelStatus) -> Seq<char> {
    match k {
        KeelStatus::Off => "off"@,
        KeelStatus::Lost => "lost"@,
        KeelStatus::Connected => "connected"@,
        KeelStatus::Incompatible => "incompatible"@,
    }
}

/// The minute a time is in.
pub open spec fn minute(t: int) -> int {
    t - t % 60
}

impl WindView {
    /// Where the wind is reported: the boat, else home.
    pub open spec fn here(self) -> (u64, u64) {
        match self.boat {
            Some(b) => (b.lat, b.lon),
            None => self.settings.home,
        }
    }

    /// Which of them that is.
    pub open spec fn at(self) -> Seq<char> {
        if self.boat is Some {
            "boat"@
        } else {
            "home"@
        }
    }

    /// Why there's no forecast here now, if there's one at all: its area
    /// doesn't reach here, or its hours don't reach now.
    pub open spec fn why_not(self, ever: bool) -> Seq<char> {
        let (lat, lon) = self.here();
        if self.forecast is None {
            "no forecast yet"@
        } else if !self.settings.region.contains(lat, lon) || !ever {
            "the "@ + self.at() + " is outside the forecast area"@
        } else {
            "no forecast for now: the newest one has run out"@
        }
    }

    /// What the state says of the wind here, by the forecast's sample here
    /// and now, and whether it ever has one here.
    pub open spec fn here_json(self, now: int, sample: Option<SampleView>, ever: bool) -> JsonView {
        let (lat, lon) = self.here();
        let stale: Seq<(Seq<char>, JsonView)> = if self.boat is Some && !self.boat->0.current {
            seq![("stale"@, JsonView::Bool(true))]
        } else {
            seq![]
        };
        JsonView::Object(
            seq![text_field("at"@, self.at())] + stale + seq![
                ("lat"@, JsonView::Rounded(lat, 5)),
                ("lon"@, JsonView::Rounded(lon, 5)),
                text_field("time"@, time::iso_text(now)),
            ] + (if self.forecast is Some && sample is Some {
                sample->0.fields()
            } else {
                seq![text_field("note"@, self.why_not(ever))]
            }),
        )
    }

    /// What the state says is wrong.
    pub open spec fn all_problems(self) -> Seq<Seq<char>> {
        self.problems + (match self.load_problem {
            Some(p) => seq![p],
            None => seq![],
        }) + (if self.keel is Incompatible {
            seq!["omakeel speaks another protocol version: update omawind"@]
        } else {
            seq![]
        })
    }
}

/// What an hour of the outlook says.
pub open spec fn hour_json(valid: int, s: SampleView) -> JsonView {
    JsonView::Object(seq![text_field("time"@, time::iso_text(valid))] + s.fields())
}

/// The first `n` hours' part of the outlook: from the hour under way on, where
/// there is a sample.
pub open spec fn outlook_below(f: ForecastView, now: int, samples: Seq<Option<SampleView>>, n: int) -> Seq<
    JsonView,
>
    decreases n,
{
    if n <= 0 {
        seq![]
    } else {
        let valid = f.hours[n - 1].valid;
        if valid > now - 3600 && samples[n - 1] is Some {
            outlook_below(f, now, samples, n - 1).push(hour_json(valid, samples[n - 1]->0))
        } else {
            outlook_below(f, now, samples, n - 1)
        }
    }
}

/// The forecast here, one entry per hour, from the hour under way to the
/// run's last.
pub open spec fn outlook(f: Option<ForecastView>, now: int, samples: Seq<Option<SampleView>>) -> Seq<
    JsonView,
> {
    match f {
        Some(f) => outlook_below(f, now, samples, f.hours.len() as int),
        None => seq![],
    }
}

/// Texts, as JSON.
pub open spec fn texts(v: Seq<Seq<char>>) -> Seq<JsonView> {
    Seq::new(v.len(), |i: int| JsonView::Text(v[i]))
}

/// A message's first fields.
pub open spec fn message(kind: Seq<char>) -> Seq<(Seq<char>, JsonView)> {
    seq![text_field("type"@, kind), ("v"@, JsonView::Count(1))]
}

/// A state message of its parts.
pub open spec fn state_json(
    forecast: JsonView,
    fetch: JsonView,
    keel: Seq<char>,
    here: JsonView,
    outlook: JsonView,
    problems: Seq<JsonView>,
) -> JsonView {
    JsonView::Object(
        message("state"@) + seq![
            ("forecast"@, forecast),
            ("fetch"@, fetch),
            text_field("keel"@, keel),
            ("here"@, here),
            ("outlook"@, outlook),
        ] + (if problems.len() > 0 {
            seq![("problems"@, JsonView::List(problems))]
        } else {
            seq![]
        }),
    )
}

impl WindView {
    /// The complete current state. `sample` is the forecast here and now,
    /// `ever` whether its first hour has one here, and `samples` hold each
    /// hour's.
    pub open spec fn state(
        self,
        now: int,
        sample: Option<SampleView>,
        ever: bool,
        samples: Seq<Option<SampleView>>,
    ) -> JsonView {
        let t = minute(now);
        state_json(
            forecast_json(self.forecast, self.settings.region, t),
            fetch_json(self.fetch),
            keel_word(self.keel),
            self.here_json(t, sample, ever),
            JsonView::List(outlook(self.forecast, t, samples)),
            texts(self.all_problems()),
        )
    }
}

/// A state message of its parts.
fn state_value(
    forecast: Json,
    fetch: Json,
    keel: &str,
    here: Json,
    outlook: Json,
    problems: Vec<Json>,
) -> (r: Json)
    ensures
        r@ == state_json(forecast@, fetch@, keel@, here@, outlook@, list_view(problems@)),
{
    let mut m = Fields::new();
    m.text("type", "state");
    m.put("v", Json::Count(VERSION));
    m.put("forecast", forecast);
    m.put("fetch", fetch);
    m.text("keel", keel);
    m.put("here", here);
    m.put("outlook", outlook);
    if problems.len() > 0 {
        m.put("problems", list(problems));
    }
    assert(m@ =~= state_json(
        forecast@,
        fetch@,
        keel@,
        here@,
        outlook@,
        list_view(problems@),
    )->Object_0);
    m.object()
}

/// How near the ends of what 64 bits count a clock may not come, seconds.
pub const MARGIN: i64 = 1_000_000_000_000;

/// Whether a clock's time can be counted with.
pub open spec fn clock_ok(now: int) -> bool {
    i64::MIN + MARGIN <= now <= i64::MAX - MARGIN
}

/// Whether the minute such a time is in can.
spec fn minute_ok(t: int) -> bool {
    i64::MIN + MARGIN - 60 <= t <= i64::MAX - MARGIN
}

fn region_value(r: &Region) -> (v: Json)
    ensures
        v@ == region_json(r@),
{
    let mut m = Fields::new();
    m.put("south", Json::Exact(r.south));
    m.put("west", Json::Exact(r.west));
    m.put("north", Json::Exact(r.north));
    m.put("east", Json::Exact(r.east));
    assert(m@ =~= region_json(r@)->Object_0);
    m.object()
}

/// How current a forecast is.
fn standing_word(f: &Forecast, now: i64) -> (r: &'static str)
    requires
        minute_ok(now as int),
        f@.sound(),
    ensures
        r@ == standing(f@, now as int),
{
    if now > f.last() {
        "expired"
    } else if now - f.run >= OLD_AFTER {
        "old"
    } else {
        "ok"
    }
}

/// What the state says of a forecast.
fn run_into(m: &mut Fields, f: &Forecast, now: i64)
    requires
        minute_ok(now as int),
        f@.sound(),
        old(m)@.len() == 0,
    ensures
        final(m)@ == run_fields(f@, now as int),
{
    m.text("status", standing_word(f, now));
    m.text("model", "HRRR");
    m.text("run", time::iso(f.run).as_str());
    let minutes: u64 = if now > f.run {
        ((now - f.run) / 60) as u64
    } else {
        0
    };
    m.put("ageMinutes", Json::Count(minutes));
    m.text("first", time::iso(f.first()).as_str());
    m.text("last", time::iso(f.last()).as_str());
    m.put("hours", Json::Count(f.hours.len() as u64));
    assert(m@ =~= run_fields(f@, now as int));
}

fn forecast_value(f: &Option<Forecast>, region: &Region, now: i64) -> (v: Json)
    requires
        minute_ok(now as int),
        f matches Some(f) ==> f@.sound(),
    ensures
        v@ == forecast_json(forecast_view(*f), region@, now as int),
{
    let mut m = Fields::new();
    match f {
        None => {
            m.text("status", "none");
            assert(m@ =~= seq![text_field("status"@, "none"@)]);
        },
        Some(f) => run_into(&mut m, f, now),
    }
    m.put("region", region_value(region));
    m.object()
}

impl FetchState {
    /// What the state says of fetching.
    fn value(&self) -> (v: Json)
        ensures
            v@ == fetch_json(
                FetchView {
                    status: self.status,
                    message: text_view(self.message),
                    checked: self.checked,
                },
            ),
    {
        let mut m = Fields::new();
        let word = match self.status {
            FetchStatus::Off => "off",
            FetchStatus::Checking => "checking",
            FetchStatus::Downloading(_, _) => "downloading",
            FetchStatus::Idle => "idle",
            FetchStatus::Error => "error",
        };
        m.text("status", word);
        if let FetchStatus::Downloading(done, total) = self.status {
            m.put("done", Json::Count(done));
            m.put("total", Json::Count(total));
        }
        if let (FetchStatus::Error, Some(e)) = (&self.status, &self.message) {
            m.text("message", e.as_str());
        }
        if let Some(t) = self.checked {
            m.text("checked", time::iso(t).as_str());
        }
        assert(m@ =~= fetch_json(
            FetchView {
                status: self.status,
                message: text_view(self.message),
                checked: self.checked,
            },
        )->Object_0);
        m.object()
    }
}

/// The forecast's samples here: now, if there is one; whether its first hour
/// has one; and each hour's, where there is one.
#[derive(Debug)]
pub struct Samples {
    pub now: Option<Sample>,
    pub ever: bool,
    pub hours: Vec<Option<Sample>>,
}

impl Wind {
    /// Where the wind is reported: the boat, else home. Also whether that is
    /// the boat, and whether it's only where the boat was last seen.
    pub fn here(&self) -> (r: (Real, Real, bool, bool))
        ensures
            (r.0@, r.1@) == self@.here(),
            r.2 == self@.boat is Some,
            r.3 == (self@.boat matches Some(b) && !b.current),
    {
        match &self.boat {
            Some(b) => (b.lat, b.lon, true, !b.current),
            None => (self.settings.home.0, self.settings.home.1, false, false),
        }
    }

    fn here_value(&self, now: i64, sample: &Option<Sample>, ever: bool) -> (v: Json)
        ensures
            v@ == self@.here_json(now as int, sample_view(*sample), ever),
    {
        let (lat, lon, boat, stale) = self.here();
        let at = if boat {
            "boat"
        } else {
            "home"
        };
        let mut m = Fields::new();
        m.text("at", at);
        if stale {
            m.put("stale", Json::Bool(true));
        }
        m.put("lat", Json::Rounded(lat, 5));
        m.put("lon", Json::Rounded(lon, 5));
        m.text("time", time::iso(now).as_str());
        match (&self.forecast, sample) {
            (Some(_), Some(s)) => sample_into(&mut m, s),
            (Some(_), None) => {
                if !self.settings.region.contains(&lat, &lon) || !ever {
                    let mut why = "the ".to_owned();
                    why.append(at);
                    why.append(" is outside the forecast area");
                    m.text("note", why.as_str());
                } else {
                    m.text("note", "no forecast for now: the newest one has run out");
                }
            },
            (None, _) => m.text("note", "no forecast yet"),
        }
        assert(m@ =~= self@.here_json(now as int, sample_view(*sample), ever)->Object_0);
        m.object()
    }

    /// The forecast here, hour by hour.
    fn outlook_value(&self, now: i64, samples: &Vec<Option<Sample>>) -> (v: Json)
        requires
            minute_ok(now as int),
            self@.sound(),
            self.forecast matches Some(f) ==> samples@.len() == f.hours@.len(),
        ensures
            v@ == JsonView::List(outlook(self@.forecast, now as int, samples_view(samples@))),
    {
        let mut out: Vec<Json> = Vec::new();
        assert(list_view(out@) =~= seq![]);
        if let Some(f) = &self.forecast {
            let mut i: usize = 0;
            while i < f.hours.len()
                invariant
                    i <= f.hours@.len(),
                    samples@.len() == f.hours@.len(),
                    minute_ok(now as int),
                    list_view(out@) == outlook_below(
                        f@,
                        now as int,
                        samples_view(samples@),
                        i as int,
                    ),
                decreases f.hours@.len() - i,
            {
                let valid: i64 = f.hours[i].valid;
                assert(f@.hours[i as int].valid == valid);
                assert(samples_view(samples@)[i as int] == sample_view(samples@[i as int]));
                if valid > now - time::HOUR {
                    if let Some(s) = &samples[i] {
                        let mut m = Fields::new();
                        m.text("time", time::iso(valid).as_str());
                        sample_into(&mut m, s);
                        assert(m@ =~= hour_json(valid as int, s@)->Object_0);
                        let hour = m.object();
                        let ghost was = out@;
                        out.push(hour);
                        assert(list_view(out@) =~= list_view(was).push(hour@));
                    }
                }
                i += 1;
            }
        }
        list(out)
    }

    /// What the state says is wrong.
    fn problem_values(&self) -> (v: Vec<Json>)
        ensures
            list_view(v@) == texts(self@.all_problems()),
    {
        let mut out: Vec<Json> = Vec::new();
        let mut i: usize = 0;
        while i < self.problems.len()
            invariant
                i <= self.problems@.len(),
                list_view(out@) == texts(strings(self.problems@).take(i as int)),
            decreases self.problems@.len() - i,
        {
            push_text(&mut out, self.problems[i].as_str());
            i += 1;
            assert(list_view(out@) =~= texts(strings(self.problems@).take(i as int)));
        }
        assert(strings(self.problems@).take(i as int) =~= strings(self.problems@));
        if let Some(p) = &self.load_problem {
            push_text(&mut out, p.as_str());
        }
        if let KeelStatus::Incompatible = self.keel {
            push_text(&mut out, "omakeel speaks another protocol version: update omawind");
        }
        assert(list_view(out@) =~= texts(self@.all_problems()));
        out
    }

    /// The complete current state, to the minute, so that it changes once a
    /// minute and not every second.
    pub fn state(&self, now: i64, samples: &Samples) -> (r: Json)
        requires
            self@.sound(),
            clock_ok(now as int),
            self.forecast matches Some(f) ==> samples.hours@.len() == f.hours@.len(),
        ensures
            r@ == self@.state(
                now as int,
                sample_view(samples.now),
                samples.ever,
                samples_view(samples.hours@),
            ),
    {
        let t: i64 = now - time::floor_mod(now, 60);
        let keel = match self.keel {
            KeelStatus::Off => "off",
            KeelStatus::Lost => "lost",
            KeelStatus::Connected => "connected",
            KeelStatus::Incompatible => "incompatible",
        };
        let forecast = forecast_value(&self.forecast, &self.settings.region, t);
        let fetch = self.fetch.value();
        let here = self.here_value(t, &samples.now, samples.ever);
        let outlook = self.outlook_value(t, &samples.hours);
        let problems = self.problem_values();
        state_value(forecast, fetch, keel, here, outlook, problems)
    }
}

/// Adds a text to a list.
fn push_text(out: &mut Vec<Json>, s: &str)
    ensures
        list_view(final(out)@) == list_view(old(out)@).push(JsonView::Text(s@)),
{
    let ghost was = out@;
    let v = Json::Text(s.to_owned());
    out.push(v);
    assert(list_view(out@) =~= list_view(was).push(v@));
}

// --- Other messages ----------------------------------------------------------------------

/// The first message an app gets.
pub fn hello() -> (r: Json)
    ensures
        r@ == JsonView::Object(message("hello"@).push(text_field("wind"@, "0.1.0"@))),
{
    let mut m = Fields::new();
    m.text("type", "hello");
    m.put("v", Json::Count(VERSION));
    m.text("wind", "0.1.0");
    assert(m@ =~= message("hello"@).push(text_field("wind"@, "0.1.0"@)));
    m.object()
}

/// A field with a speed in knots, if there is one.
pub open spec fn knots_field(name: Seq<char>, x: Option<u64>) -> Seq<(Seq<char>, JsonView)> {
    match x {
        Some(x) => seq![(name, JsonView::Knots(x))],
        None => seq![],
    }
}

/// What a station measured.
pub open spec fn station_json(s: StationView) -> JsonView {
    JsonView::Object(
        seq![text_field("id"@, s.id)] + (match s.name {
            Some(name) => seq![text_field("name"@, name)],
            None => seq![],
        }) + seq![
            ("lat"@, JsonView::Exact(s.lat)),
            ("lon"@, JsonView::Exact(s.lon)),
            text_field("time"@, time::iso_text(s.time)),
            ("speedKn"@, JsonView::Knots(s.speed)),
        ] + (match s.from_deg {
            Some(d) => seq![("dirDeg"@, JsonView::Count(degrees(d)))],
            None => seq![],
        }) + knots_field("gustKn"@, s.gust),
    )
}

pub open spec fn station_word(s: StationStatus) -> Seq<char> {
    match s {
        StationStatus::Off => "off"@,
        StationStatus::Waiting => "waiting"@,
        StationStatus::Answered => "ok"@,
        StationStatus::Error => "error"@,
    }
}

/// What stations measured, of those picked.
pub open spec fn picked_json(list: Seq<StationView>, picked: Seq<usize>) -> Seq<JsonView> {
    Seq::new(picked.len(), |i: int| station_json(list[picked[i] as int]))
}

/// The wind measured at stations in the region, in reports new enough.
pub open spec fn stations_json(s: StationsView, region: RegionView, now: int) -> JsonView {
    JsonView::Object(
        message("stations"@) + seq![
            text_field("source"@, "NDBC"@),
            text_field("status"@, station_word(s.status)),
        ] + (if s.status is Error && s.message is Some {
            seq![text_field("message"@, s.message->0)]
        } else {
            seq![]
        }) + checked_field(s.checked) + seq![
            (
                "stations"@,
                JsonView::List(
                    picked_json(
                        s.reports,
                        showing_below(s.reports, region, now, s.reports.len() as int),
                    ),
                ),
            ),
        ],
    )
}

fn station_value(s: &Station) -> (r: Json)
    ensures
        r@ == station_json(s@),
{
    let mut m = Fields::new();
    m.text("id", s.id.as_str());
    if let Some(name) = &s.name {
        m.text("name", name.as_str());
    }
    m.put("lat", Json::Exact(s.lat));
    m.put("lon", Json::Exact(s.lon));
    m.text("time", time::iso(s.time).as_str());
    m.put("speedKn", Json::Knots(s.speed));
    if let Some(d) = &s.from_deg {
        m.put("dirDeg", Json::Count(whole_degrees(d)));
    }
    if let Some(g) = s.gust {
        m.put("gustKn", Json::Knots(g));
    }
    assert(m@ =~= station_json(s@)->Object_0);
    m.object()
}

impl Wind {
    /// The wind measured at stations in the region, in reports new enough.
    pub fn stations_message(&self, now: i64) -> (r: Json)
        ensures
            r@ == stations_json(self@.stations, self@.settings.region, now as int),
    {
        let picked = current(self.stations.reports.as_slice(), &self.settings.region, now);
        let ghost reports = stations_view(self.stations.reports@);
        let mut out: Vec<Json> = Vec::new();
        let mut i: usize = 0;
        while i < picked.len()
            invariant
                i <= picked@.len(),
                reports == stations_view(self.stations.reports@),
                forall|k: int| 0 <= k < picked@.len() ==> #[trigger] picked@[k] < reports.len(),
                list_view(out@) == picked_json(reports, picked@).take(i as int),
            decreases picked@.len() - i,
        {
            assert(picked@[i as int] < reports.len());
            let v = station_value(&self.stations.reports[picked[i]]);
            let ghost was = out@;
            out.push(v);
            i += 1;
            assert(list_view(out@) =~= picked_json(reports, picked@).take(i as int)) by {
                assert(list_view(out@) =~= list_view(was).push(v@));
            }
        }
        assert(picked_json(reports, picked@).take(i as int) =~= picked_json(reports, picked@));
        let mut m = Fields::new();
        m.text("type", "stations");
        m.put("v", Json::Count(VERSION));
        m.text("source", "NDBC");
        let word = match self.stations.status {
            StationStatus::Off => "off",
            StationStatus::Waiting => "waiting",
            StationStatus::Answered => "ok",
            StationStatus::Error => "error",
        };
        m.text("status", word);
        if let (StationStatus::Error, Some(e)) = (&self.stations.status, &self.stations.message) {
            m.text("message", e.as_str());
        }
        if let Some(t) = self.stations.checked {
            m.text("checked", time::iso(t).as_str());
        }
        m.put("stations", list(out));
        assert(m@ =~= stations_json(
            self@.stations,
            self@.settings.region,
            now as int,
        )->Object_0);
        m.object()
    }
}

// --- Requests --------------------------------------------------------------------------

/// A request that can be answered.
#[derive(Clone, Copy, Debug)]
pub enum Ask {
    /// The wind across an area at a time, in so many points at most.
    Field(Region, i64, usize),
    /// The forecast at a latitude and longitude, and a time.
    Point(Real, Real, i64),
}

/// A request that can be answered.
pub ghost enum AskView {
    Field(RegionView, int, nat),
    Point(u64, u64, int),
}

impl View for Ask {
    type V = AskView;

    open spec fn view(&self) -> AskView {
        match *self {
            Ask::Field(area, t, max) => AskView::Field(area@, t as int, max as nat),
            Ask::Point(lat, lon, t) => AskView::Point(lat@, lon@, t as int),
        }
    }
}

/// The time a request is for: now, unless it says.
pub open spec fn time_of(m: JsonView, kind: Seq<char>, now: int) -> Result<int, Seq<char>> {
    match m.get("time"@) {
        None => Ok(now),
        Some(v) => match v.text() {
            None => Err(kind + ": time must be a string"@),
            Some(s) => match time::iso_value(s) {
                None => Err(kind + ": time must be like 2026-09-14T03:00:00Z"@),
                Some(t) => Ok(t),
            },
        },
    }
}

/// The most points a request asks for: 400, unless it says.
pub open spec fn max_of(m: JsonView) -> Result<nat, Seq<char>> {
    match m.get("max"@) {
        None => Ok(400),
        Some(v) => match v.unsigned() {
            Some(n) => if 1 <= n <= MAX_POINTS {
                Ok(n as nat)
            } else {
                Err("field: max must be 1 to 2000"@)
            },
            None => Err("field: max must be 1 to 2000"@),
        },
    }
}

/// Why a time can't be answered for, if it can't: there is no forecast, or it
/// is outside it.
pub open spec fn unforecast(f: Option<ForecastView>, kind: Seq<char>, t: int) -> Option<Seq<char>> {
    match f {
        None => Some(kind + ": no forecast yet"@),
        Some(f) => if f.bracket(t) is None {
            Some(
                kind + ": "@ + time::iso_text(t) + " is outside the forecast, "@ + time::iso_text(
                    f.first(),
                ) + " to "@ + time::iso_text(f.last()),
            )
        } else {
            None
        },
    }
}

pub open spec fn not_a_number(kind: Seq<char>, key: Seq<char>) -> Seq<char> {
    kind + ": "@ + key + " must be a number"@
}

/// A `field` request, or why it can't be answered.
pub open spec fn field_ask(f: Option<ForecastView>, m: JsonView, now: int) -> Result<
    AskView,
    Seq<char>,
> {
    let south = float_named(m, "south"@);
    let west = float_named(m, "west"@);
    let north = float_named(m, "north"@);
    let east = float_named(m, "east"@);
    let area = RegionView { south: south->0, west: west->0, north: north->0, east: east->0 };
    if south is None {
        Err(not_a_number("field"@, "south"@))
    } else if west is None {
        Err(not_a_number("field"@, "west"@))
    } else if north is None {
        Err(not_a_number("field"@, "north"@))
    } else if east is None {
        Err(not_a_number("field"@, "east"@))
    } else if !area.upright() {
        Err("field: south must be below north and west below east"@)
    } else {
        match time_of(m, "field"@, now) {
            Err(e) => Err(e),
            Ok(t) => match max_of(m) {
                Err(e) => Err(e),
                Ok(max) => match unforecast(f, "field"@, t) {
                    Some(e) => Err(e),
                    None => Ok(AskView::Field(area, t, max)),
                },
            },
        }
    }
}

/// A `point` request, or why it can't be answered.
pub open spec fn point_ask(f: Option<ForecastView>, m: JsonView, now: int) -> Result<
    AskView,
    Seq<char>,
> {
    let lat = float_named(m, "lat"@);
    let lon = float_named(m, "lon"@);
    if lat is None {
        Err(not_a_number("point"@, "lat"@))
    } else if lon is None {
        Err(not_a_number("point"@, "lon"@))
    } else {
        match time_of(m, "point"@, now) {
            Err(e) => Err(e),
            Ok(t) => match unforecast(f, "point"@, t) {
                Some(e) => Err(e),
                None => Ok(AskView::Point(lat->0, lon->0, t)),
            },
        }
    }
}

/// What a request asks for, or why it can't be answered.
pub open spec fn ask_of(f: Option<ForecastView>, m: JsonView, now: int) -> Result<
    AskView,
    Seq<char>,
> {
    let kind = match m.get("type"@) {
        Some(v) => v.text(),
        None => None,
    };
    match kind {
        None => Err("missing type"@),
        Some(k) => if k == "field"@ {
            field_ask(f, m, now)
        } else if k == "point"@ {
            point_ask(f, m, now)
        } else {
            Err("unknown type "@ + k)
        },
    }
}

fn followed(a: &str, b: &str) -> (r: String)
    ensures
        r@ == a@ + b@,
{
    let mut s = a.to_owned();
    s.append(b);
    s
}

/// A number a request must have.
fn number(m: &Json, kind: &str, key: &str) -> (r: Result<Real, String>)
    ensures
        match r {
            Ok(x) => float_named(m@, key@) == Some(x@),
            Err(e) => float_named(m@, key@) is None && e@ == not_a_number(kind@, key@),
        },
{
    match real_named(m, key) {
        Some(x) => Ok(x),
        None => {
            let mut e = joined(kind, ": ", key);
            e.append(" must be a number");
            Err(e)
        },
    }
}

/// The time a request is for.
fn read_time(m: &Json, kind: &str, now: i64) -> (r: Result<i64, String>)
    ensures
        match r {
            Ok(t) => time_of(m@, kind@, now as int) == Ok::<int, Seq<char>>(t as int),
            Err(e) => time_of(m@, kind@, now as int) == Err::<int, Seq<char>>(e@),
        },
{
    match m.get("time") {
        None => Ok(now),
        Some(v) => match v.as_text() {
            None => Err(followed(kind, ": time must be a string")),
            Some(s) => match time::parse_iso(s.as_str()) {
                None => Err(followed(kind, ": time must be like 2026-09-14T03:00:00Z")),
                Some(t) => Ok(t),
            },
        },
    }
}

/// The most points a request asks for.
fn read_max(m: &Json) -> (r: Result<usize, String>)
    ensures
        match r {
            Ok(n) => max_of(m@) == Ok::<nat, Seq<char>>(n as nat),
            Err(e) => max_of(m@) == Err::<nat, Seq<char>>(e@),
        },
{
    match m.get("max") {
        None => Ok(400),
        Some(v) => {
            if let Some(n) = v.as_u64() {
                if 1 <= n && n <= MAX_POINTS {
                    return Ok(n as usize);
                }
            }
            Err("field: max must be 1 to 2000".to_owned())
        },
    }
}

/// Why a time can't be answered for, if it can't.
fn cant_forecast(f: &Option<Forecast>, kind: &str, t: i64) -> (r: Option<String>)
    requires
        f matches Some(f) ==> f@.sound(),
    ensures
        text_view(r) == unforecast(forecast_view(*f), kind@, t as int),
{
    match f {
        None => Some(followed(kind, ": no forecast yet")),
        Some(f) => {
            if f.bracket(t).is_some() {
                return None;
            }
            let mut e = joined(kind, ": ", time::iso(t).as_str());
            e.append(" is outside the forecast, ");
            e.append(time::iso(f.first()).as_str());
            e.append(" to ");
            e.append(time::iso(f.last()).as_str());
            Some(e)
        },
    }
}

impl Wind {
    /// A `field` request.
    fn field(&self, m: &Json, now: i64) -> (r: Result<Ask, String>)
        requires
            self@.sound(),
        ensures
            match r {
                Ok(a) => field_ask(self@.forecast, m@, now as int) == Ok::<AskView, Seq<char>>(a@),
                Err(e) => field_ask(self@.forecast, m@, now as int) == Err::<AskView, Seq<char>>(
                    e@,
                ),
            },
    {
        let south = match number(m, "field", "south") {
            Ok(x) => x,
            Err(e) => return Err(e),
        };
        let west = match number(m, "field", "west") {
            Ok(x) => x,
            Err(e) => return Err(e),
        };
        let north = match number(m, "field", "north") {
            Ok(x) => x,
            Err(e) => return Err(e),
        };
        let east = match number(m, "field", "east") {
            Ok(x) => x,
            Err(e) => return Err(e),
        };
        let area = Region { south, west, north, east };
        if !(area.south.less(&area.north) && area.west.less(&area.east)) {
            return Err("field: south must be below north and west below east".to_owned());
        }
        let t: i64 = match read_time(m, "field", now) {
            Ok(t) => t,
            Err(e) => return Err(e),
        };
        let max: usize = match read_max(m) {
            Ok(n) => n,
            Err(e) => return Err(e),
        };
        match cant_forecast(&self.forecast, "field", t) {
            Some(e) => Err(e),
            None => Ok(Ask::Field(area, t, max)),
        }
    }

    /// A `point` request.
    fn point(&self, m: &Json, now: i64) -> (r: Result<Ask, String>)
        requires
            self@.sound(),
        ensures
            match r {
                Ok(a) => point_ask(self@.forecast, m@, now as int) == Ok::<AskView, Seq<char>>(a@),
                Err(e) => point_ask(self@.forecast, m@, now as int) == Err::<AskView, Seq<char>>(
                    e@,
                ),
            },
    {
        let lat = match number(m, "point", "lat") {
            Ok(x) => x,
            Err(e) => return Err(e),
        };
        let lon = match number(m, "point", "lon") {
            Ok(x) => x,
            Err(e) => return Err(e),
        };
        let t: i64 = match read_time(m, "point", now) {
            Ok(t) => t,
            Err(e) => return Err(e),
        };
        match cant_forecast(&self.forecast, "point", t) {
            Some(e) => Err(e),
            None => Ok(Ask::Point(lat, lon, t)),
        }
    }

    /// What a request asks for, or why it can't be answered.
    fn ask(&self, m: &Json, now: i64) -> (r: Result<Ask, String>)
        requires
            self@.sound(),
        ensures
            match r {
                Ok(a) => ask_of(self@.forecast, m@, now as int) == Ok::<AskView, Seq<char>>(a@),
                Err(e) => ask_of(self@.forecast, m@, now as int) == Err::<AskView, Seq<char>>(e@),
            },
    {
        let kind = match m.get("type") {
            Some(v) => v.as_text(),
            None => None,
        };
        match kind {
            None => Err("missing type".to_owned()),
            Some(k) => {
                if same_text(k.as_str(), "field") {
                    self.field(m, now)
                } else if same_text(k.as_str(), "point") {
                    self.point(m, now)
                } else {
                    Err(followed("unknown type ", k.as_str()))
                }
            },
        }
    }
}

// --- Answers ---------------------------------------------------------------------------

/// A request's `id`, if it has one, as a field of its answer.
pub open spec fn id_field(m: JsonView) -> Seq<(Seq<char>, JsonView)> {
    match m.get("id"@) {
        Some(id) => seq![("id"@, id)],
        None => seq![],
    }
}

/// The answer to a request that can't be answered.
pub open spec fn error_json(m: JsonView, e: Seq<char>) -> JsonView {
    JsonView::Object(message("error"@).push(text_field("message"@, e)) + id_field(m))
}

impl Wind {
    /// What a request asks for, or the answer to one that can't be answered.
    pub fn answer(&self, m: &Json, now: i64) -> (r: Result<Ask, Json>)
        requires
            self@.sound(),
        ensures
            match ask_of(self@.forecast, m@, now as int) {
                Ok(a) => r matches Ok(ask) && ask@ == a,
                Err(e) => r matches Err(reply) && reply@ == error_json(m@, e),
            },
    {
        match self.ask(m, now) {
            Ok(a) => Ok(a),
            Err(e) => Err(error_reply(m, e.as_str())),
        }
    }
}

/// A point of a field, and the forecast there.
#[derive(Clone, Copy, Debug)]
pub struct Point {
    pub lat: Real,
    pub lon: Real,
    pub sample: Sample,
}

/// A point of a field, and the forecast there.
pub open spec fn point_json(p: Point) -> JsonView {
    JsonView::Object(
        seq![
            ("lat"@, JsonView::Rounded(p.lat@, 4)),
            ("lon"@, JsonView::Rounded(p.lon@, 4)),
        ] + p.sample@.fields(),
    )
}

/// The points of a field.
pub open spec fn points_json(v: Seq<Point>) -> Seq<JsonView> {
    Seq::new(v.len(), |i: int| point_json(v[i]))
}

/// The answer to a `field` request.
pub open spec fn field_json(m: JsonView, run: int, t: int, step: nat, points: Seq<Point>) -> JsonView {
    JsonView::Object(
        message("field"@) + seq![
            text_field("time"@, time::iso_text(t)),
            text_field("run"@, time::iso_text(run)),
            ("step"@, JsonView::Count(step)),
            ("points"@, JsonView::List(points_json(points))),
        ] + id_field(m),
    )
}

/// The answer to a `point` request: without a sample there, why there's none.
pub open spec fn point_reply_json(
    m: JsonView,
    run: int,
    lat: u64,
    lon: u64,
    t: int,
    sample: Option<SampleView>,
) -> JsonView {
    JsonView::Object(
        message("point"@) + seq![
            ("lat"@, JsonView::Exact(lat)),
            ("lon"@, JsonView::Exact(lon)),
            text_field("time"@, time::iso_text(t)),
            text_field("run"@, time::iso_text(run)),
        ] + (match sample {
            Some(s) => s.fields(),
            None => seq![text_field("note"@, "the point is outside the forecast area"@)],
        }) + id_field(m),
    )
}

/// Copies a request's `id` to its answer.
fn copy_id(out: &mut Fields, m: &Json)
    ensures
        final(out)@ == old(out)@ + id_field(m@),
{
    match m.get("id") {
        Some(id) => out.put("id", id.copy()),
        None => {},
    }
    assert(out@ =~= old(out)@ + id_field(m@));
}

/// The answer to a request that can't be answered.
pub fn error_reply(m: &Json, e: &str) -> (r: Json)
    ensures
        r@ == error_json(m@, e@),
{
    let mut out = Fields::new();
    out.text("type", "error");
    out.put("v", Json::Count(VERSION));
    out.text("message", e);
    assert(out@ =~= message("error"@).push(text_field("message"@, e@)));
    copy_id(&mut out, m);
    out.object()
}

/// The answer to a `field` request, of the run it comes from.
pub fn field_reply(m: &Json, run: i64, t: i64, step: usize, points: &[Point]) -> (r: Json)
    ensures
        r@ == field_json(m@, run as int, t as int, step as nat, points@),
{
    let mut values: Vec<Json> = Vec::new();
    let mut i: usize = 0;
    while i < points.len()
        invariant
            i <= points@.len(),
            list_view(values@) == points_json(points@).take(i as int),
        decreases points@.len() - i,
    {
        let p = &points[i];
        let mut m = Fields::new();
        m.put("lat", Json::Rounded(p.lat, 4));
        m.put("lon", Json::Rounded(p.lon, 4));
        sample_into(&mut m, &p.sample);
        assert(m@ =~= point_json(*p)->Object_0);
        let v = m.object();
        let ghost was = values@;
        values.push(v);
        i += 1;
        assert(list_view(values@) =~= points_json(points@).take(i as int)) by {
            assert(list_view(values@) =~= list_view(was).push(v@));
        }
    }
    assert(points_json(points@).take(i as int) =~= points_json(points@));
    let mut out = Fields::new();
    out.text("type", "field");
    out.put("v", Json::Count(VERSION));
    out.text("time", time::iso(t).as_str());
    out.text("run", time::iso(run).as_str());
    out.put("step", Json::Count(step as u64));
    out.put("points", list(values));
    assert(out@ =~= message("field"@) + seq![
        text_field("time"@, time::iso_text(t as int)),
        text_field("run"@, time::iso_text(run as int)),
        ("step"@, JsonView::Count(step as nat)),
        ("points"@, JsonView::List(points_json(points@))),
    ]);
    copy_id(&mut out, m);
    out.object()
}

/// The answer to a `point` request, of the run it comes from.
pub fn point_reply(
    m: &Json,
    run: i64,
    lat: &Real,
    lon: &Real,
    t: i64,
    sample: &Option<Sample>,
) -> (r: Json)
    ensures
        r@ == point_reply_json(m@, run as int, lat@, lon@, t as int, sample_view(*sample)),
{
    let mut out = Fields::new();
    out.text("type", "point");
    out.put("v", Json::Count(VERSION));
    out.put("lat", Json::Exact(*lat));
    out.put("lon", Json::Exact(*lon));
    out.text("time", time::iso(t).as_str());
    out.text("run", time::iso(run).as_str());
    assert(out@ =~= message("point"@) + seq![
        ("lat"@, JsonView::Exact(lat@)),
        ("lon"@, JsonView::Exact(lon@)),
        text_field("time"@, time::iso_text(t as int)),
        text_field("run"@, time::iso_text(run as int)),
    ]);
    match sample {
        Some(s) => sample_into(&mut out, s),
        None => {
            let ghost was = out@;
            out.text("note", "the point is outside the forecast area");
            assert(out@ =~= was + seq![
                text_field("note"@, "the point is outside the forecast area"@),
            ]);
        },
    }
    copy_id(&mut out, m);
    out.object()
}

// --- Laws ------------------------------------------------------------------------------

/// Whether a message says what it is and what version it is.
pub open spec fn marked(j: JsonView, kind: Seq<char>) -> bool {
    j.get("type"@) == Some(JsonView::Text(kind)) && j.get("v"@) == Some(JsonView::Count(1))
}

/// A message that starts as messages do is marked, and has the `id` of what
/// follows.
proof fn lemma_message(kind: Seq<char>, rest: Seq<(Seq<char>, JsonView)>)
    ensures
        marked(JsonView::Object(message(kind) + rest), kind),
        JsonView::Object(message(kind) + rest).get("id"@) == field_named(rest, "id"@),
{
    reveal_strlit("type");
    reveal_strlit("v");
    reveal_strlit("id");
    let all = message(kind) + rest;
    assert("type"@ != "v"@ && "type"@ != "id"@ && "v"@ != "id"@) by {
        assert("type"@.len() == 4 && "v"@.len() == 1 && "id"@.len() == 2);
    }
    assert(all[0] == text_field("type"@, kind));
    assert(all.skip(1)[0] == ("v"@, JsonView::Count(1)));
    assert(field_named(all, "v"@) == field_named(all.skip(1), "v"@));
    lemma_field_after(message(kind), rest, "id"@);
}

/// A sample's fields aren't called `id`.
proof fn lemma_sample_has_no_id(s: SampleView)
    ensures
        forall|i: int| 0 <= i < s.fields().len() ==> (#[trigger] s.fields()[i]).0 != "id"@,
{
    reveal_strlit("id");
    reveal_strlit("speedKn");
    reveal_strlit("dirDeg");
    reveal_strlit("gustKn");
    reveal_strlit("pressureHpa");
    assert("id"@.len() == 2 && "speedKn"@.len() == 7 && "dirDeg"@.len() == 6 && "gustKn"@.len()
        == 6 && "pressureHpa"@.len() == 11);
}

/// The `id` at the end of a message is the request's.
proof fn lemma_id_last(rest: Seq<(Seq<char>, JsonView)>, m: JsonView)
    requires
        forall|i: int| 0 <= i < rest.len() ==> (#[trigger] rest[i]).0 != "id"@,
    ensures
        field_named(rest + id_field(m), "id"@) == m.get("id"@),
{
    lemma_field_after(rest, id_field(m), "id"@);
    if let Some(id) = m.get("id"@) {
        assert(id_field(m)[0] == ("id"@, id));
    }
}

/// A refusal says it is an error, and carries the request's `id` when it had
/// one.
pub proof fn law_an_error_carries_the_id(m: JsonView, e: Seq<char>)
    ensures
        marked(error_json(m, e), "error"@),
        error_json(m, e).get("message"@) == Some(JsonView::Text(e)),
        error_json(m, e).get("id"@) == m.get("id"@),
{
    reveal_strlit("id");
    reveal_strlit("message");
    reveal_strlit("type");
    reveal_strlit("v");
    let rest = seq![text_field("message"@, e)];
    assert("id"@.len() == 2 && "message"@.len() == 7 && "type"@.len() == 4 && "v"@.len() == 1);
    lemma_id_last(rest, m);
    let all = message("error"@) + (rest + id_field(m));
    assert(error_json(m, e)->Object_0 =~= all);
    lemma_message("error"@, rest + id_field(m));
    lemma_field_after(message("error"@), rest + id_field(m), "message"@);
    assert((rest + id_field(m))[0] == text_field("message"@, e));
}

/// A field's answer says what it is, and carries the request's `id` when it
/// had one.
pub proof fn law_a_field_carries_the_id(m: JsonView, run: int, t: int, step: nat, points: Seq<Point>)
    ensures
        marked(field_json(m, run, t, step, points), "field"@),
        field_json(m, run, t, step, points).get("id"@) == m.get("id"@),
{
    reveal_strlit("id");
    reveal_strlit("time");
    reveal_strlit("run");
    reveal_strlit("step");
    reveal_strlit("points");
    let rest = seq![
        text_field("time"@, time::iso_text(t)),
        text_field("run"@, time::iso_text(run)),
        ("step"@, JsonView::Count(step)),
        ("points"@, JsonView::List(points_json(points))),
    ];
    assert("id"@.len() == 2 && "time"@.len() == 4 && "run"@.len() == 3 && "step"@.len() == 4
        && "points"@.len() == 6);
    lemma_id_last(rest, m);
    assert(field_json(m, run, t, step, points)->Object_0 =~= message("field"@) + (rest + id_field(
        m,
    )));
    lemma_message("field"@, rest + id_field(m));
}

/// A point's answer says what it is, and carries the request's `id` when it
/// had one.
pub proof fn law_a_point_carries_the_id(
    m: JsonView,
    run: int,
    lat: u64,
    lon: u64,
    t: int,
    sample: Option<SampleView>,
)
    ensures
        marked(point_reply_json(m, run, lat, lon, t, sample), "point"@),
        point_reply_json(m, run, lat, lon, t, sample).get("id"@) == m.get("id"@),
{
    reveal_strlit("id");
    reveal_strlit("lat");
    reveal_strlit("lon");
    reveal_strlit("time");
    reveal_strlit("run");
    reveal_strlit("note");
    let first = seq![
        ("lat"@, JsonView::Exact(lat)),
        ("lon"@, JsonView::Exact(lon)),
        text_field("time"@, time::iso_text(t)),
        text_field("run"@, time::iso_text(run)),
    ];
    let second = match sample {
        Some(s) => s.fields(),
        None => seq![text_field("note"@, "the point is outside the forecast area"@)],
    };
    assert("id"@.len() == 2 && "lat"@.len() == 3 && "lon"@.len() == 3 && "time"@.len() == 4
        && "run"@.len() == 3 && "note"@.len() == 4);
    if let Some(s) = sample {
        lemma_sample_has_no_id(s);
    }
    let rest = first + second;
    assert forall|i: int| 0 <= i < rest.len() implies (#[trigger] rest[i]).0 != "id"@ by {
        if i < 4 {
            assert(rest[i] == first[i]);
        } else {
            assert(rest[i] == second[i - 4]);
        }
    }
    lemma_id_last(rest, m);
    assert(point_reply_json(m, run, lat, lon, t, sample)->Object_0 =~= message("point"@) + (rest
        + id_field(m)));
    lemma_message("point"@, rest + id_field(m));
}

/// A value that is a field's.
proof fn lemma_no_null_fields(f: Seq<(Seq<char>, JsonView)>)
    requires
        forall|i: int| 0 <= i < f.len() ==> no_null((#[trigger] f[i]).1),
    ensures
        no_null(JsonView::Object(f)),
{
    lemma_full(f);
}

proof fn lemma_sample_full(s: SampleView)
    ensures
        no_null(JsonView::Object(s.fields())),
{
    lemma_no_null_fields(s.fields());
}

proof fn lemma_outlook_full(f: ForecastView, now: int, samples: Seq<Option<SampleView>>, n: int)
    ensures
        forall|i: int|
            0 <= i < outlook_below(f, now, samples, n).len() ==> no_null(
                #[trigger] outlook_below(f, now, samples, n)[i],
            ),
    decreases n,
{
    if n > 0 {
        lemma_outlook_full(f, now, samples, n - 1);
        if samples[n - 1] is Some {
            let s = samples[n - 1]->0;
            let head = seq![text_field("time"@, time::iso_text(f.hours[n - 1].valid))];
            lemma_no_null_fields(head);
            lemma_sample_full(s);
            lemma_no_null(head, s.fields());
            assert(no_null(hour_json(f.hours[n - 1].valid, s)));
        }
        let before = outlook_below(f, now, samples, n - 1);
        let all = outlook_below(f, now, samples, n);
        assert forall|i: int| 0 <= i < all.len() implies no_null(#[trigger] all[i]) by {
            if i < before.len() {
                assert(all[i] == before[i]);
            }
        }
    }
}

proof fn lemma_here_full(w: WindView, now: int, sample: Option<SampleView>, ever: bool)
    ensures
        no_null(w.here_json(now, sample, ever)),
{
    let all = w.here_json(now, sample, ever)->Object_0;
    if w.forecast is Some && sample is Some {
        let s = sample->0.fields();
        let first = all.take(all.len() - s.len());
        lemma_no_null_fields(first);
        lemma_sample_full(sample->0);
        lemma_no_null(first, s);
        assert(first + s =~= all);
    } else {
        lemma_no_null_fields(all);
    }
}

proof fn lemma_forecast_full(f: Option<ForecastView>, region: RegionView, now: int)
    ensures
        no_null(forecast_json(f, region, now)),
{
    lemma_no_null_fields(region_json(region)->Object_0);
    lemma_no_null_fields(forecast_json(f, region, now)->Object_0);
}

/// The state says what it is, and nothing in it is null.
pub proof fn law_the_state_is_marked_and_never_null(
    w: WindView,
    now: int,
    sample: Option<SampleView>,
    ever: bool,
    samples: Seq<Option<SampleView>>,
)
    ensures
        marked(w.state(now, sample, ever, samples), "state"@),
        no_null(w.state(now, sample, ever, samples)),
{
    let t = minute(now);
    let all = w.state(now, sample, ever, samples)->Object_0;
    let rest = all.skip(2);
    assert(all =~= message("state"@) + rest);
    lemma_message("state"@, rest);
    lemma_forecast_full(w.forecast, w.settings.region, t);
    lemma_no_null_fields(fetch_json(w.fetch)->Object_0);
    lemma_here_full(w, t, sample, ever);
    let ahead = outlook(w.forecast, t, samples);
    if let Some(f) = w.forecast {
        lemma_outlook_full(f, t, samples, f.hours.len() as int);
    }
    lemma_full_list(ahead);
    lemma_full_list(texts(w.all_problems()));
    lemma_no_null_fields(all);
}

/// What stations measured says what it is, and nothing in it is null.
pub proof fn law_stations_are_marked_and_never_null(s: StationsView, region: RegionView, now: int)
    ensures
        marked(stations_json(s, region, now), "stations"@),
        no_null(stations_json(s, region, now)),
{
    let all = stations_json(s, region, now)->Object_0;
    let rest = all.skip(2);
    assert(all =~= message("stations"@) + rest);
    lemma_message("stations"@, rest);
    let picked = showing_below(s.reports, region, now, s.reports.len() as int);
    let list = picked_json(s.reports, picked);
    assert forall|i: int| 0 <= i < list.len() implies no_null(#[trigger] list[i]) by {
        lemma_no_null_fields(station_json(s.reports[picked[i] as int])->Object_0);
    }
    lemma_full_list(list);
    lemma_no_null_fields(all);
}

/// The state doesn't change within a minute for the time's sake.
pub proof fn law_the_state_is_to_the_minute(
    w: WindView,
    a: int,
    b: int,
    sample: Option<SampleView>,
    ever: bool,
    samples: Seq<Option<SampleView>>,
)
    requires
        a / 60 == b / 60,
    ensures
        w.state(a, sample, ever, samples) == w.state(b, sample, ever, samples),
{
    assert(minute(a) == minute(b)) by {
        assert(a == 60 * (a / 60) + a % 60);
        assert(b == 60 * (b / 60) + b % 60);
    }
}

/// A direction is a whole number of degrees from 0 to 359.
pub proof fn law_directions_are_below_360(bits: u64)
    ensures
        0 <= degrees(bits) <= 359,
{
}

/// Without an omakeel that can be understood there is no boat, and the wind is
/// reported at home.
pub proof fn law_without_omakeel_the_wind_is_at_home(w: WindView, u: UpdateView)
    requires
        !(u is Boat),
    ensures
        w.updated(u).here() == w.settings.home,
        w.updated(u).at() == "home"@,
{
}

/// A failure says so and leaves the rest: when NOMADS and NDBC last answered,
/// and what the stations last reported.
pub proof fn law_a_failure_keeps_what_was_known(
    f: FetchView,
    s: StationsView,
    e: Seq<char>,
    now: i64,
)
    ensures
        f.after(FetchEventView::Failed(e), now).checked == f.checked,
        f.after(FetchEventView::Failed(e), now).message == Some(e),
        s.after(Err(e), now).checked == s.checked,
        s.after(Err(e), now).reports == s.reports,
        s.after(Err(e), now).message == Some(e),
{
}

/// What is on show stays while nothing cached can be read, and the problem is
/// said.
pub proof fn law_a_bad_cache_keeps_what_is_shown(w: WindView, problem: Seq<char>)
    ensures
        w.loaded(None, Some(problem)).forecast == w.forecast,
        w.loaded(None, Some(problem)).all_problems().contains(problem),
{
    let after = w.loaded(None, Some(problem));
    assert(after.all_problems()[w.problems.len() as int] == problem);
}

} // verus!
