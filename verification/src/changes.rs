//! What the engine's values hold, and what each thing that happens changes of
//! what it knows, and leaves.

use crate::config::{Edges, RegionView, Settings, SettingsView};
use crate::engine::{
    FetchEventView,
    FetchStatus,
    FetchView,
    Sample,
    StationsView,
    Wind,
    WindView,
};
use crate::fetch::Run;
use crate::forecast::{Forecast, ForecastView, Hour};
use crate::grib::Field;
use crate::keel::{BoatView, Update, UpdateView};
use crate::number::worth;
use crate::obs::{covers, law_merging_loses_no_station, Station, StationView};
use vstd::prelude::*;

verus! {

// --- What values hold ---------------------------------------------------------------------

/// A field and its values are seen as they are, part by part.
pub proof fn law_a_field_is_seen_as_it_is(f: Field)
    ensures
        f@.discipline == f.discipline && f@.category == f.category && f@.number == f.number,
        f@.surface == f.surface && f@.level == f.level,
        f@.reference == f.reference && f@.lead == f.lead && f@.grid == f.grid,
        f@.values == f.values@,
        f.values@.reference == f.values.reference,
        f.values@.binary == f.values.binary && f.values@.decimal == f.values.decimal,
        f.values@.values == f.values.values@,
{
}

/// A forecast's hour is seen as it is, part by part.
pub proof fn law_an_hour_is_seen_as_it_is(h: Hour)
    ensures
        h@.valid == h.valid,
        h@.u == h.u@ && h@.v == h.v@,
        h.gust matches Some(g) ==> h@.gust == Some(g@),
        h.gust is None ==> h@.gust is None,
        h.pressure matches Some(p) ==> h@.pressure == Some(p@),
        h.pressure is None ==> h@.pressure is None,
{
}

/// A forecast is seen as it is, hour by hour.
pub proof fn law_a_forecast_is_seen_as_it_is(f: Forecast)
    ensures
        f@.run == f.run && f@.grid == f.grid,
        f@.hours.len() == f.hours@.len(),
        forall|i: int| 0 <= i < f.hours@.len() ==> #[trigger] f@.hours[i] == f.hours@[i]@,
{
}

/// A station's report is seen as it is, part by part.
pub proof fn law_a_station_is_seen_as_it_is(s: Station)
    ensures
        s@.id == s.id@,
        s.name matches Some(n) ==> s@.name == Some(n@),
        s.name is None ==> s@.name is None,
        s@.lat == s.lat@ && s@.lon == s.lon@,
        s@.time == s.time && s@.speed == s.speed@,
        s.from_deg matches Some(x) ==> s@.from_deg == Some(x@),
        s.from_deg is None ==> s@.from_deg is None,
        s.gust matches Some(x) ==> s@.gust == Some(x@),
        s.gust is None ==> s@.gust is None,
{
}

/// A sample is seen as it is, part by part.
pub proof fn law_a_sample_is_seen_as_it_is(s: Sample)
    ensures
        s@.speed_kn == s.speed_kn@ && s@.from_deg == s.from_deg@,
        s.gust_kn matches Some(x) ==> s@.gust_kn == Some(x@),
        s.gust_kn is None ==> s@.gust_kn is None,
        s.pressure_hpa matches Some(x) ==> s@.pressure_hpa == Some(x@),
        s.pressure_hpa is None ==> s@.pressure_hpa is None,
{
}

/// Settings, a region and a region's edges as text are seen as they are.
pub proof fn law_settings_are_seen_as_they_are(s: Settings, e: Edges)
    ensures
        s@.region == s.region@,
        s@.home == (s.home.0@, s.home.1@),
        s.region@.south == s.region.south@ && s.region@.north == s.region.north@,
        s.region@.west == s.region.west@ && s.region@.east == s.region.east@,
        e@.south == e.south@ && e@.north == e.north@,
        e@.west == e.west@ && e@.east == e.east@,
{
}

/// A run is seen as it is, and so is what omakeel says.
pub proof fn law_a_run_and_an_update_are_seen_as_they_are(r: Run, u: Update)
    ensures
        r@.day == r.day@ && r@.hour == r.hour && r@.hours == r.hours@,
        u matches Update::Boat(Some(b)) ==> (u@ matches UpdateView::Boat(Some(v)) && v.lat == b.lat@
            && v.lon == b.lon@ && v.current == b.current),
        u matches Update::Boat(None) ==> u@ == UpdateView::Boat(None),
        u is Lost ==> u@ is Lost,
        u matches Update::Incompatible(n) ==> u@ == UpdateView::Incompatible(n),
{
}

/// All the engine knows is seen as it is, part by part.
pub proof fn law_the_engine_is_seen_as_it_is(w: Wind)
    ensures
        w@.settings == w.settings@,
        w@.problems.len() == w.problems@.len(),
        forall|i: int| 0 <= i < w.problems@.len() ==> #[trigger] w@.problems[i] == w.problems@[i]@,
        w.forecast matches Some(f) ==> w@.forecast == Some(f@),
        w.forecast is None ==> w@.forecast is None,
        w.run matches Some(r) ==> w@.run == Some(r@),
        w.run is None ==> w@.run is None,
        w.load_problem matches Some(p) ==> w@.load_problem == Some(p@),
        w.load_problem is None ==> w@.load_problem is None,
        w@.fetch.status == w.fetch.status && w@.fetch.checked == w.fetch.checked,
        w.fetch.message matches Some(m) ==> w@.fetch.message == Some(m@),
        w.fetch.message is None ==> w@.fetch.message is None,
        w.boat matches Some(b) ==> w@.boat == Some(
            BoatView { lat: b.lat@, lon: b.lon@, current: b.current },
        ),
        w.boat is None ==> w@.boat is None,
        w@.keel == w.keel,
        w@.stations.status == w.stations.status && w@.stations.checked == w.stations.checked,
        w.stations.message matches Some(m) ==> w@.stations.message == Some(m@),
        w.stations.message is None ==> w@.stations.message is None,
        w@.stations.reports.len() == w.stations.reports@.len(),
        forall|i: int|
            0 <= i < w.stations.reports@.len() ==> #[trigger] w@.stations.reports[i]
                == w.stations.reports@[i]@,
{
}

// --- What changes -------------------------------------------------------------------------

/// While a fetch goes on, how far it is changes, and nothing else; when it has
/// ended well it is idle, with nothing wrong, and NOMADS was checked then; when
/// it failed, that is said.
pub proof fn law_a_fetch_is_followed(f: FetchView, e: FetchEventView, now: i64)
    ensures
        e is Checking ==> f.after(e, now).status is Checking,
        e matches FetchEventView::Downloading(done, total) ==> f.after(e, now).status
            == FetchStatus::Downloading(done, total),
        e is Checking || e is Downloading ==> f.after(e, now).message == f.message && f.after(
            e,
            now,
        ).checked == f.checked,
        e is Fetched ==> f.after(e, now).status is Idle && f.after(e, now).message is None
            && f.after(e, now).checked == Some(now),
        e matches FetchEventView::Failed(why) ==> f.after(e, now).status is Error && f.after(
            e,
            now,
        ).message == Some(why) && f.after(e, now).checked == f.checked,
{
}

/// Whether two regions have the same edges.
pub open spec fn same_edges(a: RegionView, b: RegionView) -> bool {
    &&& worth(a.south) == worth(b.south) && worth(a.north) == worth(b.north)
    &&& worth(a.west) == worth(b.west) && worth(a.east) == worth(b.east)
}

/// New settings are taken whole, with what was wrong with them. The forecast on
/// show stays just when the region does; nothing else changes.
pub proof fn law_a_forecast_is_shown_for_its_region_only(
    w: WindView,
    settings: SettingsView,
    problems: Seq<Seq<char>>,
)
    ensures
        ({
            let after = w.resettled(settings, problems);
            &&& after.settings == settings && after.problems == problems
            &&& if same_edges(settings.region, w.settings.region) {
                after.forecast == w.forecast && after.run == w.run
            } else {
                after.forecast is None && after.run is None
            }
            &&& after.load_problem == w.load_problem && after.fetch == w.fetch
            &&& after.boat == w.boat && after.keel == w.keel && after.stations == w.stations
        }),
{
}

/// What is read from the cache is shown, under its run's name, with what was
/// wrong; an empty cache shows nothing. Nothing else changes.
pub proof fn law_what_is_cached_is_shown(
    w: WindView,
    run: Seq<char>,
    f: ForecastView,
    problem: Option<Seq<char>>,
)
    ensures
        ({
            let after = w.loaded(Some((run, f)), problem);
            &&& after.forecast == Some(f) && after.run == Some(run)
            &&& after.load_problem == problem
            &&& after.settings == w.settings && after.problems == w.problems
            &&& after.fetch == w.fetch && after.boat == w.boat && after.keel == w.keel
            &&& after.stations == w.stations
        }),
        w.loaded(None, None).forecast is None && w.loaded(None, None).run is None,
        w.loaded(None, None).load_problem is None,
        problem is Some ==> w.loaded(None, problem).forecast == w.forecast && w.loaded(
            None,
            problem,
        ).run == w.run && w.loaded(None, problem).load_problem == problem,
{
}

/// What omakeel says changes where the boat is and how omakeel stands, and
/// nothing else. The wind is then reported where the boat is, if it is anywhere.
pub proof fn law_the_boat_is_followed(w: WindView, u: UpdateView)
    ensures
        ({
            let after = w.updated(u);
            &&& u matches UpdateView::Boat(boat) ==> after.boat == boat && after.keel is Connected
            &&& u matches UpdateView::Boat(Some(b)) ==> after.here() == (b.lat, b.lon)
            &&& u matches UpdateView::Boat(None) ==> after.here() == w.settings.home
            &&& u is Lost ==> after.boat is None && after.keel is Lost
            &&& u is Incompatible ==> after.boat is None && after.keel is Incompatible
            &&& after.settings == w.settings && after.problems == w.problems
            &&& after.forecast == w.forecast && after.run == w.run
            &&& after.load_problem == w.load_problem && after.fetch == w.fetch
            &&& after.stations == w.stations
        }),
{
}

/// Once NDBC has answered, nothing is wrong, it was checked then, and every
/// station that was known or is reported has a report as new as any.
pub proof fn law_an_answer_loses_no_station(
    s: StationsView,
    fetched: Seq<StationView>,
    now: i64,
    x: StationView,
)
    requires
        covers(fetched, x) || exists|i: int|
            0 <= i < s.reports.len() && #[trigger] s.reports[i] == x,
    ensures
        ({
            let after = s.after(Ok(fetched), now);
            &&& after.status is Answered && after.message is None && after.checked == Some(now)
            &&& exists|k: int|
                0 <= k < after.reports.len() && (#[trigger] after.reports[k]).id == x.id
                    && after.reports[k].time >= x.time
        }),
{
    let n = s.reports.len() as int;
    law_merging_loses_no_station(fetched, s.reports, n, x);
    let all = s.after(Ok(fetched), now).reports;
    let k = choose|k: int|
        0 <= k < all.len() && #[trigger] all[k].id == x.id && all[k].time >= x.time;
    assert(all[k].id == x.id);
}

} // verus!
