//! Getting forecasts from NOAA's NOMADS server: its folder listing says
//! which HRRR runs are out, and its filter cuts each hour down to the
//! region and the four fields omawind reads, about 32 KB for the Bay.
//!
//! Cache: `<cache>/hrrr/<YYYYMMDDHH>/f00.grib2` and on, with a `region` file
//! naming the area the hours were cut to.

use crate::config::{Edges, EdgesView};
use crate::forecast::MAX_HOURS;
use crate::grib;
use crate::grid::{ten_metres, Scaled};
use crate::paths::{ascii, below, join};
use crate::text::{
    all_digits,
    before,
    chars_of,
    dec,
    decimal,
    decimal_padded,
    digit,
    find,
    find_char,
    find_run,
    has_text,
    is_all_digits,
    is_at,
    is_before,
    lemma_before_chain,
    lemma_before_total,
    lemma_digits_in_order,
    lemma_padded,
    lemma_padded_value,
    lemma_value_joined,
    padded,
    read_digits,
    runs,
    same,
    spells,
    split_by,
    split_text,
    stands,
    string_of,
    strings,
    ten_to,
    trim,
    trimmed,
    value,
};
use crate::time;
use vstd::prelude::*;
use vstd::slice::slice_subrange;

verus! {

/// A run is used once its first 18 hours are out. The 00, 06, 12 and 18
/// UTC runs go on to 48, and those hours are fetched as they appear.
pub const READY_HOURS: u32 = 18;

/// The most a listing or an hour may weigh. The Bay's hours are 33 KB,
/// the biggest region's under half a megabyte, a day's listing 100 KB.
pub const LISTING_LIMIT: u64 = 8_388_608;

pub const HOUR_LIMIT: u64 = 16_777_216;

#[derive(Clone, Debug)]
pub struct Run {
    /// `YYYYMMDD`, UTC.
    pub day: String,
    pub hour: u32,
    /// The forecast hours listed, ascending.
    pub hours: Vec<u32>,
}

/// What a run is.
pub ghost struct RunView {
    pub day: Seq<char>,
    pub hour: u32,
    pub hours: Seq<u32>,
}

impl View for Run {
    type V = RunView;

    open spec fn view(&self) -> RunView {
        RunView { day: self.day@, hour: self.hour, hours: self.hours@ }
    }
}

/// What each run in a list is.
pub open spec fn runs_view(v: Seq<Run>) -> Seq<RunView> {
    Seq::new(v.len(), |i: int| v[i]@)
}

/// How many hours are listed without a gap from hour `h` on, up to the last
/// an HRRR run has.
pub open spec fn reach(hours: Seq<u32>, h: int) -> int
    decreases MAX_HOURS + 1 - h,
{
    if 0 <= h <= MAX_HOURS && hours.contains(h as u32) {
        1 + reach(hours, h + 1)
    } else {
        0
    }
}

/// The hours from 0 up to `n`.
pub open spec fn first_hours(n: int) -> Seq<u32> {
    Seq::new(n as nat, |i: int| i as u32)
}

impl RunView {
    /// `YYYYMMDDHH`.
    pub open spec fn key(self) -> Seq<char> {
        self.day + padded(self.hour as nat, 2)
    }

    /// Whether the first 18 hours, and hour 0, are all out.
    pub open spec fn ready(self) -> bool {
        reach(self.hours, 0) > READY_HOURS
    }

    /// When the run was, Unix seconds, if its day is a date.
    pub open spec fn time(self) -> Option<int> {
        if self.day.len() < 8 {
            None
        } else {
            time::iso_value(
                self.day.subrange(0, 4) + "-"@ + self.day.subrange(4, 6) + "-"@
                    + self.day.subrange(6, 8) + "T"@ + padded(self.hour as nat, 2) + ":00Z"@,
            )
        }
    }
}

/// Whether `h` is among the hours.
fn has_hour(hours: &Vec<u32>, h: u32) -> (r: bool)
    ensures
        r == hours@.contains(h),
{
    let mut i: usize = 0;
    while i < hours.len()
        invariant
            i <= hours@.len(),
            forall|j: int| 0 <= j < i ==> hours@[j] != h,
        decreases hours@.len() - i,
    {
        if hours[i] == h {
            return true;
        }
        i += 1;
    }
    false
}

impl Run {
    /// `YYYYMMDDHH`, the run's cache folder.
    pub fn key(&self) -> (r: String)
        ensures
            r@ == self@.key(),
    {
        let mut s = self.day.as_str().to_owned();
        s.append(decimal_padded(self.hour as u64, 2).as_str());
        s
    }

    /// Forecast hours listed without a gap from hour 0.
    pub fn unbroken(&self) -> (r: Vec<u32>)
        ensures
            r@ == first_hours(reach(self.hours@, 0)),
            r@.len() <= MAX_HOURS + 1,
    {
        let mut out: Vec<u32> = Vec::new();
        let mut h: u32 = 0;
        while h <= MAX_HOURS && has_hour(&self.hours, h)
            invariant
                h <= MAX_HOURS + 1,
                out@ == first_hours(h as int),
                reach(self.hours@, 0) == h + reach(self.hours@, h as int),
            decreases MAX_HOURS + 1 - h,
        {
            out.push(h);
            h += 1;
            assert(out@ =~= first_hours(h as int));
        }
        out
    }

    /// Whether the first 18 hours, and hour 0, are all out.
    pub fn ready(&self) -> (r: bool)
        ensures
            r == self@.ready(),
    {
        let n: usize = self.unbroken().len();
        proof {
            lemma_reach(self.hours@, 0);
        }
        n > READY_HOURS as usize
    }

    /// When the run was, Unix seconds, if its day is a date.
    pub fn time(&self) -> (r: Option<i64>)
        ensures
            match r {
                Some(t) => self@.time() == Some(t as int),
                None => self@.time() is None,
            },
    {
        let day = chars_of(self.day.as_str());
        if day.len() < 8 {
            return None;
        }
        let mut s = string_of(slice_subrange(day.as_slice(), 0, 4));
        s.append("-");
        s.append(string_of(slice_subrange(day.as_slice(), 4, 6)).as_str());
        s.append("-");
        s.append(string_of(slice_subrange(day.as_slice(), 6, 8)).as_str());
        s.append("T");
        s.append(decimal_padded(self.hour as u64, 2).as_str());
        s.append(":00Z");
        time::parse_iso(s.as_str())
    }
}

proof fn lemma_reach(hours: Seq<u32>, h: int)
    requires
        0 <= h <= MAX_HOURS + 1,
    ensures
        0 <= reach(hours, h) <= MAX_HOURS + 1 - h,
    decreases MAX_HOURS + 1 - h,
{
    if h <= MAX_HOURS && hours.contains(h as u32) {
        lemma_reach(hours, h + 1);
    }
}

/// Where a day's runs are listed.
pub open spec fn listing_text(day: Seq<char>) -> Seq<char> {
    "https://nomads.ncep.noaa.gov/pub/data/nccf/com/hrrr/prod/hrrr."@ + day + "/conus/"@
}

/// A day's folder on NOMADS.
pub fn listing_url(day: &str) -> (r: String)
    ensures
        r@ == listing_text(day@),
{
    let mut s = "https://nomads.ncep.noaa.gov/pub/data/nccf/com/hrrr/prod/hrrr.".to_owned();
    s.append(day);
    s.append("/conus/");
    s
}

// --- Listings -------------------------------------------------------------------------

/// `hrrr.t03z.wrfsfcf01.grib2` is run 3, hour 1.
pub open spec fn hour_in(name: Seq<char>) -> Option<(int, int)> {
    if name.len() == 25 && stands(name, "hrrr.t"@, 0) && all_digits(name.subrange(6, 8)) && stands(
        name,
        "z.wrfsfcf"@,
        8,
    ) && all_digits(name.subrange(17, 19)) && stands(name, ".grib2"@, 19) {
        Some((value(name.subrange(6, 8)), value(name.subrange(17, 19))))
    } else {
        None
    }
}

/// `hrrr.t03z.wrfsfcf01.grib2` is run 3, hour 1.
fn hour_of(name: &[char]) -> (r: Option<(u32, u32)>)
    ensures
        match r {
            Some((run, hour)) => hour_in(name@) == Some((run as int, hour as int)),
            None => hour_in(name@) is None,
        },
{
    let start = chars_of("hrrr.t");
    let middle = chars_of("z.wrfsfcf");
    let end = chars_of(".grib2");
    if name.len() != 25 || !is_at(name, start.as_slice(), 0) || !is_at(name, middle.as_slice(), 8)
        || !is_at(name, end.as_slice(), 19) {
        return None;
    }
    let run = slice_subrange(name, 6, 8);
    let hour = slice_subrange(name, 17, 19);
    if !is_all_digits(run) || !is_all_digits(hour) {
        return None;
    }
    Some((read_digits(run), read_digits(hour)))
}

/// A piece up to its first quote.
pub open spec fn quoted(piece: Seq<char>) -> Seq<char> {
    piece.take(find(piece, '"', 0))
}

/// What a page's links lead to: what follows each `href="`, up to a quote or
/// the next.
pub open spec fn links(html: Seq<char>) -> Seq<Seq<char>> {
    let pieces = split_text(html, "href=\""@);
    Seq::new((pieces.len() - 1) as nat, |i: int| quoted(pieces[i + 1]))
}

/// Whether a listing links to this hour of this run.
pub open spec fn shown(html: Seq<char>, run: int, hour: int) -> bool {
    exists|i: int|
        0 <= i < links(html).len() && hour_in(#[trigger] links(html)[i]) == Some((run, hour))
}

/// The hours below `n` that a listing shows of a run, ascending.
pub open spec fn shown_hours(html: Seq<char>, run: int, n: nat) -> Seq<u32>
    decreases n,
{
    if n == 0 {
        seq![]
    } else if shown(html, run, n - 1) {
        shown_hours(html, run, (n - 1) as nat).push((n - 1) as u32)
    } else {
        shown_hours(html, run, (n - 1) as nat)
    }
}

/// The hours a listing shows of a run, ascending, as far as an HRRR run goes.
pub open spec fn all_hours(html: Seq<char>, run: int) -> Seq<u32> {
    shown_hours(html, run, (MAX_HOURS + 1) as nat)
}

/// The runs before `n` o'clock that a day's listing shows, oldest first.
pub open spec fn shown_runs(day: Seq<char>, html: Seq<char>, n: nat) -> Seq<RunView>
    decreases n,
{
    if n == 0 {
        seq![]
    } else {
        let earlier = shown_runs(day, html, (n - 1) as nat);
        let hours = all_hours(html, n - 1);
        if hours.len() > 0 {
            earlier.push(RunView { day, hour: (n - 1) as u32, hours })
        } else {
            earlier
        }
    }
}

/// The runs a day's listing shows, oldest first.
pub open spec fn listing(day: Seq<char>, html: Seq<char>) -> Seq<RunView> {
    shown_runs(day, html, 24)
}

/// The run and hour of each link.
fn linked(html: &[char]) -> (r: Vec<Option<(u32, u32)>>)
    ensures
        r@.len() == links(html@).len(),
        forall|i: int|
            0 <= i < r@.len() ==> hour_in(#[trigger] links(html@)[i]) == pair(r@[i]),
{
    let mark = chars_of("href=\"");
    proof {
        reveal_strlit("href=\"");
    }
    let pieces = split_by(html, mark.as_slice());
    let mut out: Vec<Option<(u32, u32)>> = Vec::new();
    let mut i: usize = 1;
    while i < pieces.len()
        invariant
            1 <= i <= pieces@.len(),
            runs(pieces@) == split_text(html@, "href=\""@),
            out@.len() == i - 1,
            forall|j: int|
                0 <= j < out@.len() ==> hour_in(#[trigger] links(html@)[j]) == pair(out@[j]),
        decreases pieces@.len() - i,
    {
        let piece = pieces[i].as_slice();
        let end: usize = find_char(piece, '"', 0);
        let name = slice_subrange(piece, 0, end);
        assert(runs(pieces@)[i as int] == pieces@[i as int]@);
        assert(name@ =~= links(html@)[i - 1]);
        out.push(hour_of(name));
        i += 1;
    }
    assert(runs(pieces@).len() == pieces@.len());
    out
}

/// A run and hour, as whole numbers.
pub open spec fn pair(p: Option<(u32, u32)>) -> Option<(int, int)> {
    match p {
        Some((run, hour)) => Some((run as int, hour as int)),
        None => None,
    }
}

/// Whether the links lead to this hour of this run.
fn leads_to(pairs: &Vec<Option<(u32, u32)>>, run: u32, hour: u32, Ghost(html): Ghost<Seq<char>>) -> (r:
    bool)
    requires
        pairs@.len() == links(html).len(),
        forall|i: int|
            0 <= i < pairs@.len() ==> hour_in(#[trigger] links(html)[i]) == pair(pairs@[i]),
    ensures
        r == shown(html, run as int, hour as int),
{
    let mut i: usize = 0;
    while i < pairs.len()
        invariant
            i <= pairs@.len(),
            pairs@.len() == links(html).len(),
            forall|j: int|
                0 <= j < pairs@.len() ==> hour_in(#[trigger] links(html)[j]) == pair(pairs@[j]),
            forall|j: int|
                0 <= j < i ==> hour_in(#[trigger] links(html)[j]) != Some((run as int, hour as int)),
        decreases pairs@.len() - i,
    {
        assert(hour_in(links(html)[i as int]) == pair(pairs@[i as int]));
        if let Some((a, b)) = pairs[i] {
            if a == run && b == hour {
                return true;
            }
        }
        i += 1;
    }
    false
}

/// The runs a day's listing shows, oldest first.
pub fn parse_listing(day: &str, html: &str) -> (r: Vec<Run>)
    ensures
        runs_view(r@) == listing(day@, html@),
{
    let page = chars_of(html);
    let pairs = linked(page.as_slice());
    let mut out: Vec<Run> = Vec::new();
    let mut run: u32 = 0;
    assert(runs_view(out@) =~= seq![]);
    while run < 24
        invariant
            run <= 24,
            pairs@.len() == links(html@).len(),
            forall|i: int|
                0 <= i < pairs@.len() ==> hour_in(#[trigger] links(html@)[i]) == pair(pairs@[i]),
            runs_view(out@) == shown_runs(day@, html@, run as nat),
        decreases 24 - run,
    {
        let mut hours: Vec<u32> = Vec::new();
        let mut hour: u32 = 0;
        while hour <= MAX_HOURS
            invariant
                hour <= MAX_HOURS + 1,
                pairs@.len() == links(html@).len(),
                forall|i: int|
                    0 <= i < pairs@.len() ==> hour_in(#[trigger] links(html@)[i]) == pair(
                        pairs@[i],
                    ),
                hours@ == shown_hours(html@, run as int, hour as nat),
            decreases MAX_HOURS + 1 - hour,
        {
            if leads_to(&pairs, run, hour, Ghost(html@)) {
                hours.push(hour);
            }
            hour += 1;
        }
        let ghost before = out@;
        if hours.len() > 0 {
            let next = Run { day: day.to_owned(), hour: run, hours };
            out.push(next);
            assert(runs_view(out@) =~= runs_view(before).push(next@));
        }
        run += 1;
    }
    out
}

/// NOMADS's filter, asked for an hour of a run, cut to the region.
pub open spec fn filter_text(run: RunView, hour: u32, edges: EdgesView) -> Seq<char> {
    "https://nomads.ncep.noaa.gov/cgi-bin/filter_hrrr_2d.pl?dir=%2Fhrrr."@ + run.day
        + "%2Fconus&file=hrrr.t"@ + padded(run.hour as nat, 2) + "z.wrfsfcf"@ + padded(
        hour as nat,
        2,
    ) + ".grib2&var_GUST=on&var_MSLMA=on&var_UGRD=on&var_VGRD=on&lev_10_m_above_ground=on&lev_surface=on&lev_mean_sea_level=on&subregion=&toplat="@
        + edges.north + "&leftlon="@ + edges.west + "&rightlon="@ + edges.east + "&bottomlat="@
        + edges.south
}

/// NOMADS's filter, asked for an hour of a run, cut to the region whose edges
/// these are.
pub fn filter_url(run: &Run, hour: u32, edges: &Edges) -> (r: String)
    ensures
        r@ == filter_text(run@, hour, edges@),
{
    let mut s =
        "https://nomads.ncep.noaa.gov/cgi-bin/filter_hrrr_2d.pl?dir=%2Fhrrr.".to_owned();
    s.append(run.day.as_str());
    s.append("%2Fconus&file=hrrr.t");
    s.append(decimal_padded(run.hour as u64, 2).as_str());
    s.append("z.wrfsfcf");
    s.append(decimal_padded(hour as u64, 2).as_str());
    s.append(
        ".grib2&var_GUST=on&var_MSLMA=on&var_UGRD=on&var_VGRD=on&lev_10_m_above_ground=on&lev_surface=on&lev_mean_sea_level=on&subregion=&toplat=",
    );
    s.append(edges.north.as_str());
    s.append("&leftlon=");
    s.append(edges.west.as_str());
    s.append("&rightlon=");
    s.append(edges.east.as_str());
    s.append("&bottomlat=");
    s.append(edges.south.as_str());
    s
}

// --- The newest run -------------------------------------------------------------------

/// How the search for the newest run stands.
#[derive(Debug)]
pub enum Search {
    /// Ask for this day's listing, and search again with the answer.
    Ask(String),
    Found(Run),
    /// No run with its first 18 hours out is listed.
    NotOut,
    Failed(String),
}

/// How the search for the newest run stands.
pub ghost enum SearchView {
    Ask(Seq<char>),
    Found(RunView),
    NotOut,
    Failed(Seq<char>),
}

impl View for Search {
    type V = SearchView;

    open spec fn view(&self) -> SearchView {
        match *self {
            Search::Ask(day) => SearchView::Ask(day@),
            Search::Found(run) => SearchView::Found(run@),
            Search::NotOut => SearchView::NotOut,
            Search::Failed(e) => SearchView::Failed(e@),
        }
    }
}

/// The newest of these runs that is ready.
pub open spec fn newest_ready(runs: Seq<RunView>) -> Option<RunView>
    decreases runs.len(),
{
    if runs.len() == 0 {
        None
    } else if runs.last().ready() {
        Some(runs.last())
    } else {
        newest_ready(runs.drop_last())
    }
}

/// Today, then yesterday.
pub open spec fn day_back(now: int, k: int) -> Seq<char> {
    time::day_text(now - 86_400 * k)
}

/// An answer: a listing, or why there is none.
pub open spec fn answer_view(a: Result<String, String>) -> Result<Seq<char>, Seq<char>> {
    match a {
        Ok(html) => Ok(html@),
        Err(e) => Err(e@),
    }
}

/// What each answer is.
pub open spec fn answers_view(v: Seq<Result<String, String>>) -> Seq<Result<Seq<char>, Seq<char>>> {
    Seq::new(v.len(), |i: int| answer_view(v[i]))
}

/// The search from the listing `k` days back on: through listings with no run
/// that is ready, and past a day whose folder doesn't exist yet.
pub open spec fn search(now: int, answers: Seq<Result<Seq<char>, Seq<char>>>, k: int) -> SearchView
    decreases 2 - k,
{
    if k >= 2 {
        SearchView::NotOut
    } else if answers.len() <= k {
        SearchView::Ask(day_back(now, k))
    } else {
        match answers[k] {
            Ok(html) => match newest_ready(listing(day_back(now, k), html)) {
                Some(run) => SearchView::Found(run),
                None => search(now, answers, k + 1),
            },
            Err(e) => if has_text(e, "404"@) {
                search(now, answers, k + 1)
            } else {
                SearchView::Failed(e)
            },
        }
    }
}

/// The newest of these runs that is ready.
fn last_ready(runs: Vec<Run>) -> (r: Option<Run>)
    ensures
        match r {
            Some(run) => newest_ready(runs_view(runs@)) == Some(run@),
            None => newest_ready(runs_view(runs@)) is None,
        },
{
    let ghost all = runs_view(runs@);
    let mut left = runs;
    assert(all.take(left@.len() as int) =~= all);
    while left.len() > 0
        invariant
            all == runs_view(runs@),
            left@.len() <= all.len(),
            runs_view(left@) == all.take(left@.len() as int),
            newest_ready(all) == newest_ready(all.take(left@.len() as int)),
        decreases left@.len(),
    {
        let ghost n = left@.len();
        let ghost was = left@;
        proof {
            assert(all.take(n as int).last() == runs_view(was)[n - 1]);
            assert(all.take(n as int).drop_last() =~= all.take(n - 1));
        }
        let last = match left.pop() {
            Some(run) => run,
            None => return None,
        };
        if last.ready() {
            return Some(last);
        }
        assert(runs_view(left@) =~= all.take(n - 1));
    }
    assert(all.take(0) =~= seq![]);
    None
}

/// The newest run with its first 18 hours out, from today's listing, or
/// yesterday's just after midnight UTC: the next listing to ask for, given
/// the answers so far, or what the search came to.
pub fn newest_run(now: i64, answers: &[Result<String, String>]) -> (r: Search)
    requires
        now >= i64::MIN + 86_400,
    ensures
        r@ == search(now as int, answers_view(answers@), 0),
{
    let mut k: usize = 0;
    while k < 2
        invariant
            k <= 2,
            now >= i64::MIN + 86_400,
            search(now as int, answers_view(answers@), 0) == search(
                now as int,
                answers_view(answers@),
                k as int,
            ),
        decreases 2 - k,
    {
        let day = if k == 0 {
            time::day_name(now)
        } else {
            time::day_name(now - 86_400)
        };
        if answers.len() <= k {
            return Search::Ask(day);
        }
        assert(answers_view(answers@)[k as int] == answer_view(answers@[k as int]));
        match &answers[k] {
            Ok(html) => match last_ready(parse_listing(day.as_str(), html.as_str())) {
                Some(run) => return Search::Found(run),
                None => {},
            },
            // Today's folder doesn't exist until the first run lands.
            Err(e) => {
                if !contains(e.as_str(), "404") {
                    return Search::Failed(e.as_str().to_owned());
                }
            },
        }
        k += 1;
    }
    Search::NotOut
}

/// Whether `pat` stands in `s` anywhere.
fn contains(s: &str, pat: &str) -> (r: bool)
    ensures
        r == has_text(s@, pat@),
{
    let a = chars_of(s);
    let b = chars_of(pat);
    find_run(a.as_slice(), b.as_slice(), 0) < a.len()
}

/// What to do next in search of a run to download.
#[derive(Debug)]
pub enum Turn {
    /// Get this page, and search again with the answer.
    List(String),
    Download(Run),
    /// There is nothing to download, and why.
    Fail(String),
}

/// What to do next in search of a run to download.
pub ghost enum TurnView {
    List(Seq<char>),
    Download(RunView),
    Fail(Seq<char>),
}

impl View for Turn {
    type V = TurnView;

    open spec fn view(&self) -> TurnView {
        match *self {
            Turn::List(url) => TurnView::List(url@),
            Turn::Download(run) => TurnView::Download(run@),
            Turn::Fail(e) => TurnView::Fail(e@),
        }
    }
}

/// What a search calls for.
pub open spec fn turn_of(s: SearchView) -> TurnView {
    match s {
        SearchView::Ask(day) => TurnView::List(listing_text(day)),
        SearchView::Found(run) => TurnView::Download(run),
        SearchView::NotOut => TurnView::Fail("NOMADS lists no HRRR run with 18 hours out yet"@),
        SearchView::Failed(e) => TurnView::Fail(e),
    }
}

/// What a search calls for.
pub fn turn(s: Search) -> (r: Turn)
    ensures
        r@ == turn_of(s@),
{
    match s {
        Search::Ask(day) => Turn::List(listing_url(day.as_str())),
        Search::Found(run) => Turn::Download(run),
        Search::NotOut => Turn::Fail("NOMADS lists no HRRR run with 18 hours out yet".to_owned()),
        Search::Failed(e) => Turn::Fail(e),
    }
}

// --- The cache ------------------------------------------------------------------------

/// Where runs are kept.
pub fn runs_dir(cache: &[u8]) -> (r: Vec<u8>)
    ensures
        r@ == below(cache@, ascii("hrrr"@)),
{
    proof {
        reveal_strlit("hrrr");
    }
    join(cache, "hrrr")
}

/// Ten digits: `YYYYMMDDHH`.
pub open spec fn run_name(name: Seq<char>) -> bool {
    name.len() == 10 && all_digits(name)
}

/// Ten digits: `YYYYMMDDHH`.
pub fn is_run_name(name: &str) -> (r: bool)
    ensures
        r == run_name(name@),
{
    let c = chars_of(name);
    c.len() == 10 && is_all_digits(c.as_slice())
}

/// The run whose folder goes by a name, if it is the name of one, with no
/// hours known of it.
pub open spec fn run_of(name: Seq<char>) -> Option<RunView> {
    let run = RunView { day: name.take(8), hour: value(name.skip(8)) as u32, hours: seq![] };
    if run_name(name) && run.time() is Some {
        Some(run)
    } else {
        None
    }
}

/// The run whose folder goes by a name: ten digits, a date's and an hour's.
pub fn named(name: &str) -> (r: Option<Run>)
    ensures
        match r {
            Some(run) => run_of(name@) == Some(run@) && run@.key() == name@,
            None => run_of(name@) is None,
        },
{
    let c = chars_of(name);
    if !is_run_name(name) {
        return None;
    }
    let last = slice_subrange(c.as_slice(), 8, 10);
    assert(last@ =~= name@.skip(8));
    assert(name@.subrange(0, 8) =~= name@.take(8));
    let run = Run {
        day: string_of(slice_subrange(c.as_slice(), 0, 8)),
        hour: read_digits(last),
        hours: Vec::new(),
    };
    proof {
        lemma_padded_value(name@.skip(8));
        assert(run@.hours =~= seq![]);
        assert(run@.key() =~= name@);
    }
    if run.time().is_none() {
        return None;
    }
    Some(run)
}

/// A run's time, by the numbers in its key.
pub proof fn lemma_run_time(r: RunView)
    requires
        r.time() is Some,
        r.day.len() == 8,
    ensures
        run_name(r.key()),
        ({
            let y = value(r.day.subrange(0, 4));
            let m = value(r.day.subrange(4, 6));
            let d = value(r.day.subrange(6, 8));
            &&& time::moment_ok(y, m, d, r.hour as int, 0, 0)
            &&& r.time() == Some(time::unix_time(y, m, d, r.hour as int, 0, 0))
            &&& value(r.key()) == y * 1_000_000 + m * 10_000 + d * 100 + r.hour
        }),
{
    reveal_strlit("-");
    reveal_strlit("T");
    reveal_strlit(":00Z");
    let hour = padded(r.hour as nat, 2);
    let s = r.day.subrange(0, 4) + "-"@ + r.day.subrange(4, 6) + "-"@ + r.day.subrange(6, 8) + "T"@
        + hour + ":00Z"@;
    lemma_padded(r.hour as nat, 2);
    if hour.len() > 2 {
        assert(s[13] == hour[2]);
        assert(digit(hour[2]));
    }
    assert(hour.len() == 2 && s.len() == 17);
    assert(s.subrange(0, 4) =~= r.day.subrange(0, 4));
    assert(s.subrange(5, 7) =~= r.day.subrange(4, 6));
    assert(s.subrange(8, 10) =~= r.day.subrange(6, 8));
    assert(s.subrange(11, 13) =~= hour);
    assert(s.subrange(14, 16) =~= seq!['0', '0']);
    assert(seq!['0', '0'].drop_last() =~= seq!['0']);
    assert(seq!['0'].drop_last() =~= Seq::<char>::empty());
    reveal_with_fuel(value, 3);
    assert(value(seq!['0', '0']) == 0);
    let (a, b, c) = (r.day.subrange(0, 4), r.day.subrange(4, 6), r.day.subrange(6, 8));
    assert(r.key() =~= a + b + c + hour);
    assert forall|i: int| 0 <= i < 10 implies digit(#[trigger] r.key()[i]) by {
        if i < 4 {
            assert(r.key()[i] == a[i]);
        } else if i < 6 {
            assert(r.key()[i] == b[i - 4]);
        } else if i < 8 {
            assert(r.key()[i] == c[i - 6]);
        } else {
            assert(r.key()[i] == hour[i - 8]);
        }
    }
    lemma_value_joined(a, b);
    lemma_value_joined(a + b, c);
    lemma_value_joined(a + b + c, hour);
    assert(ten_to(2) == 100) by {
        reveal_with_fuel(ten_to, 3);
    }
    assert(b.len() == 2 && c.len() == 2);
    assert(value(a + b + c + hour) == ((value(a) * 100 + value(b)) * 100 + value(c)) * 100 + value(
        hour,
    ));
}

/// Runs' folders go by name as the runs do by time: ten digits each, one before
/// the other when its run is earlier, and the same when the runs are at the
/// same time.
pub proof fn law_keys_are_in_order_of_time(a: RunView, b: RunView)
    requires
        a.day.len() == 8,
        b.day.len() == 8,
        a.time() is Some,
        b.time() is Some,
    ensures
        run_name(a.key()),
        run_name(b.key()),
        before(a.key(), b.key()) <==> a.time()->0 < b.time()->0,
        a.key() == b.key() <==> a.time()->0 == b.time()->0,
{
    lemma_run_time(a);
    lemma_run_time(b);
    lemma_digits_in_order(a.key(), b.key());
    let (y, m, d) = (
        value(a.day.subrange(0, 4)),
        value(a.day.subrange(4, 6)),
        value(a.day.subrange(6, 8)),
    );
    let (y2, m2, d2) = (
        value(b.day.subrange(0, 4)),
        value(b.day.subrange(4, 6)),
        value(b.day.subrange(6, 8)),
    );
    time::lemma_civil_is_calendar(y, m, d);
    time::lemma_civil_is_calendar(y2, m2, d2);
    time::law_dates_are_counted_in_order(y, m, d, y2, m2, d2);
    time::law_dates_are_counted_in_order(y2, m2, d2, y, m, d);
}

/// A folder among the runs.
#[derive(Debug)]
pub struct Cached {
    pub name: String,
    /// What its `region` file holds, if it has one.
    pub region: Option<String>,
    /// How many hours it has without a gap from hour 0.
    pub hours: usize,
}

/// Whether a region file names the region.
pub open spec fn cut_to(file: Option<String>, key: Seq<char>) -> bool {
    match file {
        Some(text) => trim(text@) == key,
        None => false,
    }
}

/// Whether a region file names the region.
pub fn is_cut_to(file: &Option<String>, key: &str) -> (r: bool)
    ensures
        r == cut_to(*file, key@),
{
    match file {
        Some(text) => spells(trimmed(chars_of(text.as_str()).as_slice()).as_slice(), key),
        None => false,
    }
}

/// Whether a folder is a run with hours for the region.
pub open spec fn usable(c: Cached, key: Seq<char>) -> bool {
    run_name(c.name@) && cut_to(c.region, key) && c.hours > 0
}

/// Whether a folder's run has its first 18 hours.
pub open spec fn complete(c: Cached) -> bool {
    c.hours > READY_HOURS
}

/// Whether folder `a` is to be shown rather than `b`: with its first 18 hours
/// rather than without, and then the newer.
pub open spec fn better(a: Cached, b: Cached) -> bool {
    if complete(a) == complete(b) {
        before(b.name@, a.name@)
    } else {
        complete(a)
    }
}

/// Whether the `k`th folder is one to show for the region: usable, and none
/// that is usable is better.
pub open spec fn picked(folders: Seq<Cached>, key: Seq<char>, k: int) -> bool {
    &&& 0 <= k < folders.len()
    &&& usable(folders[k], key)
    &&& forall|i: int|
        0 <= i < folders.len() && usable(#[trigger] folders[i], key) ==> !better(
            folders[i],
            folders[k],
        )
}

/// The run to show: the newest whose first 18 hours are cached for this
/// region, else the newest with any hours at all, since an old forecast
/// said to be old beats none.
pub fn newest_cached(folders: &[Cached], key: &str) -> (r: Option<usize>)
    ensures
        r is None <==> forall|i: int| 0 <= i < folders@.len() ==> !usable(#[trigger] folders@[i], key@),
        r matches Some(k) ==> picked(folders@, key@, k as int),
{
    let mut best: Option<usize> = None;
    let mut i: usize = 0;
    while i < folders.len()
        invariant
            i <= folders@.len(),
            best is None <==> forall|j: int| 0 <= j < i ==> !usable(#[trigger] folders@[j], key@),
            best matches Some(k) ==> {
                &&& k < i
                &&& usable(folders@[k as int], key@)
                &&& forall|j: int|
                    0 <= j < i && usable(#[trigger] folders@[j], key@) ==> !better(
                        folders@[j],
                        folders@[k as int],
                    )
            },
        decreases folders@.len() - i,
    {
        let f = &folders[i];
        if is_run_name(f.name.as_str()) && is_cut_to(&f.region, key) && f.hours > 0 {
            match best {
                None => best = Some(i),
                Some(k) => {
                    if is_better(f, &folders[k]) {
                        proof {
                            assert forall|j: int|
                                0 <= j < i && usable(#[trigger] folders@[j], key@) implies !better(
                                folders@[j],
                                folders@[i as int],
                            ) by {
                                if better(folders@[j], folders@[i as int]) {
                                    lemma_better(
                                        folders@[j],
                                        folders@[i as int],
                                        folders@[k as int],
                                    );
                                }
                            }
                        }
                        best = Some(i);
                    }
                },
            }
            proof {
                lemma_before_total(f.name@, f.name@);
            }
        }
        i += 1;
    }
    best
}

/// Whether folder `a` is to be shown rather than `b`.
fn is_better(a: &Cached, b: &Cached) -> (r: bool)
    ensures
        r == better(*a, *b),
{
    let x = a.hours > READY_HOURS as usize;
    let y = b.hours > READY_HOURS as usize;
    if x == y {
        is_before(chars_of(b.name.as_str()).as_slice(), chars_of(a.name.as_str()).as_slice())
    } else {
        x
    }
}

/// What is better than the better is better.
proof fn lemma_better(a: Cached, b: Cached, c: Cached)
    requires
        better(b, c),
        better(a, b),
    ensures
        better(a, c),
{
    if complete(a) == complete(b) && complete(b) == complete(c) {
        lemma_before_chain(c.name@, b.name@, a.name@);
    }
}

// --- Downloads ------------------------------------------------------------------------

/// Whether a field is the wind 10 m up, one way or the other, at an hour of a
/// run.
pub open spec fn is_wind(f: grib::FieldView, number: u8, run: int, hour: u32) -> bool {
    &&& f.discipline == 0 && f.category == 2 && f.number == number && f.surface == 103
    &&& f.level is Some && f.level->0.equal(ten_metres())
    &&& f.reference == run
    &&& f.lead == hour * 3600
}

/// Whether the wind 10 m up, one way or the other, is among fields.
pub open spec fn has_wind(fields: Seq<grib::FieldView>, number: u8, run: int, hour: u32) -> bool {
    exists|i: int| 0 <= i < fields.len() && is_wind(#[trigger] fields[i], number, run, hour)
}

/// Whether a downloaded hour is what was asked for.
pub open spec fn checked(bytes: Seq<u8>, run: RunView, hour: u32) -> Result<(), Seq<char>> {
    match grib::parsed(bytes) {
        Err(e) => Err(e),
        Ok(fields) => match run.time() {
            None => Err("bad run name"@),
            Some(t) => if has_wind(fields, 2, t, hour) && has_wind(fields, 3, t, hour) {
                Ok(())
            } else {
                Err("the download has no 10 m wind for that hour"@)
            },
        },
    }
}

/// Whether the wind 10 m up, one way or the other, is among fields.
fn finds_wind(fields: &Vec<grib::Field>, number: u8, run: i64, hour: u32) -> (r: bool)
    ensures
        r == has_wind(grib::fields_view(fields@), number, run as int, hour),
{
    let ten = Scaled { scale: 0, value: 10 };
    let mut i: usize = 0;
    while i < fields.len()
        invariant
            i <= fields@.len(),
            ten == ten_metres(),
            forall|j: int|
                0 <= j < i ==> !is_wind(
                    #[trigger] grib::fields_view(fields@)[j],
                    number,
                    run as int,
                    hour,
                ),
        decreases fields@.len() - i,
    {
        let f = &fields[i];
        let level = match &f.level {
            Some(l) => l.equals(&ten),
            None => false,
        };
        let ghost v = grib::fields_view(fields@)[i as int];
        if f.discipline == 0 && f.category == 2 && f.number == number && f.surface == 103 && level
            && f.reference == run && f.lead == hour as i64 * time::HOUR {
            assert(is_wind(v, number, run as int, hour));
            return true;
        }
        i += 1;
    }
    false
}

/// Checks a downloaded hour is what was asked for, not an error page.
pub fn check(bytes: &[u8], run: &Run, hour: u32) -> (r: Result<(), String>)
    ensures
        r is Ok ==> checked(bytes@, run@, hour) is Ok,
        r matches Err(e) ==> checked(bytes@, run@, hour) == Err::<(), Seq<char>>(e@),
{
    let fields = match grib::parse(bytes) {
        Ok(f) => f,
        Err(e) => return Err(e),
    };
    match run.time() {
        None => Err("bad run name".to_owned()),
        Some(t) => {
            if finds_wind(&fields, 2, t, hour) && finds_wind(&fields, 3, t, hour) {
                Ok(())
            } else {
                Err("the download has no 10 m wind for that hour".to_owned())
            }
        },
    }
}

/// Checks a downloaded hour, and says which it was if it won't do.
pub fn arrived(bytes: &[u8], run: &Run, hour: u32) -> (r: Result<(), String>)
    ensures
        r is Ok ==> checked(bytes@, run@, hour) is Ok,
        r matches Err(e) ==> checked(bytes@, run@, hour) is Err && e@ == run@.key() + " hour "@
            + dec(hour as nat) + ": "@ + checked(bytes@, run@, hour)->Err_0,
{
    match check(bytes, run, hour) {
        Ok(_) => Ok(()),
        Err(e) => {
            let mut s = run.key();
            s.append(" hour ");
            s.append(decimal(hour as u64).as_str());
            s.append(": ");
            s.append(e.as_str());
            Err(s)
        },
    }
}

/// How `curl` is asked for a page of at most `limit` bytes. NOMADS answers over
/// HTTP/2 with a header curl rejects, so HTTP/1.1.
pub open spec fn curl_words(url: Seq<char>, limit: u64) -> Seq<Seq<char>> {
    seq![
        "--http1.1"@,
        "--fail"@,
        "--silent"@,
        "--show-error"@,
        "--location"@,
        "--connect-timeout"@,
        "20"@,
        "--max-time"@,
        "120"@,
        "--user-agent"@,
        "omawind/0.1.0 (+https://omahoy.org)"@,
        "--max-filesize"@,
        dec(limit as nat),
        url,
    ]
}

/// How `curl` is asked for a page of at most `limit` bytes.
pub fn curl_args(url: &str, limit: u64) -> (r: Vec<String>)
    ensures
        strings(r@) == curl_words(url@, limit),
{
    let mut out: Vec<String> = Vec::new();
    out.push("--http1.1".to_owned());
    out.push("--fail".to_owned());
    out.push("--silent".to_owned());
    out.push("--show-error".to_owned());
    out.push("--location".to_owned());
    out.push("--connect-timeout".to_owned());
    out.push("20".to_owned());
    out.push("--max-time".to_owned());
    out.push("120".to_owned());
    out.push("--user-agent".to_owned());
    out.push("omawind/0.1.0 (+https://omahoy.org)".to_owned());
    out.push("--max-filesize".to_owned());
    out.push(decimal(limit));
    out.push(url.to_owned());
    assert(strings(out@) =~= curl_words(url@, limit));
    out
}

/// How reading a page ended.
pub enum Page {
    /// `curl` couldn't be started, and why.
    NotStarted(String),
    /// Its output couldn't be read, or ran past the limit.
    TooMuch,
    /// How `curl` ended isn't known, and why.
    Unknown(String),
    /// `curl` said it failed, with what it wrote about it.
    Failed(String),
    Whole,
}

/// Why there is no page, if there is none.
pub open spec fn page_fault(page: Page, url: Seq<char>, limit: u64) -> Option<Seq<char>> {
    match page {
        Page::NotStarted(e) => Some("can't run curl: "@ + e@),
        Page::TooMuch => Some(
            url + ": no answer, or more than "@ + dec(limit as nat / 1_048_576) + " MB"@,
        ),
        Page::Unknown(e) => Some("curl: "@ + e@),
        Page::Failed(why) => if trim(why@).len() == 0 {
            Some("curl failed on "@ + url)
        } else {
            Some(trim(why@))
        },
        Page::Whole => None,
    }
}

/// Why there is no page, if there is none.
pub fn get(page: &Page, url: &str, limit: u64) -> (r: Result<(), String>)
    ensures
        r is Ok <==> page_fault(*page, url@, limit) is None,
        r matches Err(e) ==> page_fault(*page, url@, limit) == Some(e@),
{
    match page {
        Page::NotStarted(e) => {
            let mut s = "can't run curl: ".to_owned();
            s.append(e.as_str());
            Err(s)
        },
        Page::TooMuch => {
            let mut s = url.to_owned();
            s.append(": no answer, or more than ");
            s.append(decimal(limit / 1_048_576).as_str());
            s.append(" MB");
            Err(s)
        },
        Page::Unknown(e) => {
            let mut s = "curl: ".to_owned();
            s.append(e.as_str());
            Err(s)
        },
        Page::Failed(why) => {
            let why = trimmed(chars_of(why.as_str()).as_slice());
            if why.len() == 0 {
                let mut s = "curl failed on ".to_owned();
                s.append(url);
                Err(s)
            } else {
                Err(string_of(why.as_slice()))
            }
        },
        Page::Whole => Ok(()),
    }
}

/// How many of a run's hours check out before the first that doesn't.
pub open spec fn good(run: RunView, files: Seq<Seq<u8>>, h: int) -> int
    decreases files.len() - h,
{
    if 0 <= h < files.len() && checked(files[h], run, h as u32) is Ok {
        1 + good(run, files, h + 1)
    } else {
        0
    }
}

/// What each file holds.
pub open spec fn files_view(v: Seq<Vec<u8>>) -> Seq<Seq<u8>> {
    Seq::new(v.len(), |i: int| v[i]@)
}

/// How many of a run's hours, hour 0 first, check out before the first that
/// doesn't. That one ends the forecast and is fetched again.
pub fn good_hours(run: &Run, files: &Vec<Vec<u8>>) -> (r: usize)
    requires
        files@.len() <= MAX_HOURS + 1,
    ensures
        r as int == good(run@, files_view(files@), 0),
        r <= files@.len(),
{
    let mut h: usize = 0;
    while h < files.len()
        invariant
            h <= files@.len() <= MAX_HOURS + 1,
            good(run@, files_view(files@), 0) == h + good(run@, files_view(files@), h as int),
        decreases files@.len() - h,
    {
        assert(files_view(files@)[h as int] == files@[h as int]@);
        match check(files[h].as_slice(), run, h as u32) {
            Ok(_) => {},
            Err(_) => return h,
        }
        h += 1;
    }
    h
}

/// The hours below `n` that aren't here yet, ascending.
pub open spec fn absent(have: Seq<u32>, n: int) -> Seq<u32>
    decreases n,
{
    if n <= 0 {
        seq![]
    } else if have.contains((n - 1) as u32) {
        absent(have, n - 1)
    } else {
        absent(have, n - 1).push((n - 1) as u32)
    }
}

/// The hours of a run that are out and not here yet, ascending.
fn missing(run: &Run, have: &Vec<u32>) -> (r: Vec<u32>)
    ensures
        r@ == absent(have@, reach(run.hours@, 0)),
{
    let wanted = run.unbroken();
    proof {
        lemma_reach(run.hours@, 0);
    }
    let mut out: Vec<u32> = Vec::new();
    let mut i: usize = 0;
    while i < wanted.len()
        invariant
            i <= wanted@.len() <= MAX_HOURS + 1,
            wanted@ == first_hours(wanted@.len() as int),
            out@ == absent(have@, i as int),
        decreases wanted@.len() - i,
    {
        let h: u32 = wanted[i];
        if !has_hour(have, h) {
            out.push(h);
        }
        i += 1;
    }
    out
}

/// What bringing a run's folder up to date takes: whether its hours are cut to
/// another region and no use, so the run starts again, and which hours are
/// then to be fetched. `have` are the hours in the folder that check out.
pub fn download(run: &Run, file: &Option<String>, key: &str, have: &Vec<u32>) -> (r: (bool, Vec<u32>))
    ensures
        r.0 == !cut_to(*file, key@),
        r.1@ == absent(
            if r.0 {
                seq![]
            } else {
                have@
            },
            reach(run.hours@, 0),
        ),
{
    if is_cut_to(file, key) {
        (false, missing(run, have))
    } else {
        let none: Vec<u32> = Vec::new();
        assert(none@ =~= seq![]);
        (true, missing(run, &none))
    }
}

/// Whether a folder among the runs is to be deleted: a run older than one of
/// those kept, and not kept itself.
pub open spec fn stale(name: Seq<char>, keep: Seq<Seq<char>>) -> bool {
    &&& run_name(name)
    &&& exists|i: int| 0 <= i < keep.len() && before(name, #[trigger] keep[i])
    &&& !keep.contains(name)
}

/// The folders among the first `n` that are to be deleted.
pub open spec fn stale_below(names: Seq<Seq<char>>, keep: Seq<Seq<char>>, n: int) -> Seq<usize>
    decreases n,
{
    if n <= 0 {
        seq![]
    } else if stale(names[n - 1], keep) {
        stale_below(names, keep, n - 1).push((n - 1) as usize)
    } else {
        stale_below(names, keep, n - 1)
    }
}

fn is_stale(name: &str, keep: &[String]) -> (r: bool)
    ensures
        r == stale(name@, strings(keep@)),
{
    if !is_run_name(name) {
        return false;
    }
    let n = chars_of(name);
    let mut older = false;
    let mut i: usize = 0;
    while i < keep.len()
        invariant
            i <= keep@.len(),
            n@ == name@,
            older == exists|j: int| 0 <= j < i && before(name@, #[trigger] strings(keep@)[j]),
            forall|j: int| 0 <= j < i ==> strings(keep@)[j] != name@,
        decreases keep@.len() - i,
    {
        let k = chars_of(keep[i].as_str());
        assert(strings(keep@)[i as int] == k@);
        if same(k.as_slice(), n.as_slice()) {
            assert(strings(keep@).contains(name@));
            return false;
        }
        if is_before(n.as_slice(), k.as_slice()) {
            older = true;
        }
        i += 1;
    }
    older
}

/// The cached runs to delete: those older than the newest one named, except
/// those named. A newer run, perhaps just fetched by another omawind, stays.
pub fn prune(names: &[String], keep: &[String]) -> (r: Vec<usize>)
    ensures
        r@ == stale_below(strings(names@), strings(keep@), names@.len() as int),
{
    let mut out: Vec<usize> = Vec::new();
    let mut i: usize = 0;
    while i < names.len()
        invariant
            i <= names@.len(),
            out@ == stale_below(strings(names@), strings(keep@), i as int),
        decreases names@.len() - i,
    {
        assert(strings(names@)[i as int] == names@[i as int]@);
        if is_stale(names[i].as_str(), keep) {
            out.push(i);
        }
        i += 1;
    }
    out
}

// --- Laws -------------------------------------------------------------------------------

/// Until a newer run has its first 18 hours, one that has them stays in use:
/// while any usable run has them, the one shown does, and is the newest of
/// those.
pub proof fn law_a_complete_run_is_shown_over_a_partial_one(
    folders: Seq<Cached>,
    key: Seq<char>,
    k: int,
    i: int,
)
    requires
        picked(folders, key, k),
        0 <= i < folders.len(),
        usable(folders[i], key),
        complete(folders[i]),
    ensures
        complete(folders[k]),
        !before(folders[k].name@, folders[i].name@),
{
    assert(!better(folders[i], folders[k]));
}

/// A run's good hours are those before the first that doesn't check out.
pub proof fn law_good_hours_end_at_the_first_bad_one(run: RunView, files: Seq<Seq<u8>>, h: int)
    requires
        0 <= h <= files.len() <= MAX_HOURS + 1,
    ensures
        h + good(run, files, h) <= files.len(),
        forall|i: int|
            h <= i < h + good(run, files, h) ==> checked(#[trigger] files[i], run, i as u32) is Ok,
        h + good(run, files, h) < files.len() ==> checked(
            files[h + good(run, files, h)],
            run,
            (h + good(run, files, h)) as u32,
        ) is Err,
    decreases files.len() - h,
{
    if h < files.len() && checked(files[h], run, h as u32) is Ok {
        law_good_hours_end_at_the_first_bad_one(run, files, h + 1);
    }
}

/// An hour that is out is fetched exactly if it isn't here, so one that
/// doesn't check out is fetched again.
pub proof fn law_what_is_not_here_is_fetched(have: Seq<u32>, n: int, h: u32)
    requires
        n <= MAX_HOURS + 1,
    ensures
        absent(have, n).contains(h) <==> h < n && !have.contains(h),
    decreases n,
{
    if n > 0 {
        law_what_is_not_here_is_fetched(have, n - 1, h);
        let before = absent(have, n - 1);
        if !have.contains((n - 1) as u32) {
            let after = before.push((n - 1) as u32);
            assert(after.last() == (n - 1) as u32);
            if before.contains(h) {
                let i = choose|i: int| 0 <= i < before.len() && before[i] == h;
                assert(after[i] == h);
            }
            if after.contains(h) && h != (n - 1) as u32 {
                let i = choose|i: int| 0 <= i < after.len() && after[i] == h;
                assert(before[i] == h);
            }
        }
    }
}

/// A run named to be kept, or newer than all that are, is never deleted.
pub proof fn law_pruning_keeps_what_is_named_or_newer(name: Seq<char>, keep: Seq<Seq<char>>)
    requires
        keep.contains(name) || forall|i: int| 0 <= i < keep.len() ==> before(#[trigger] keep[i], name),
    ensures
        !stale(name, keep),
{
    assert forall|i: int| 0 <= i < keep.len() && before(#[trigger] keep[i], name) implies !before(
        name,
        keep[i],
    ) by {
        lemma_before_total(name, keep[i]);
    }
}

proof fn lemma_shown_hours(html: Seq<char>, run: int, n: nat)
    requires
        n <= MAX_HOURS + 1,
    ensures
        forall|h: u32| #[trigger]
            shown_hours(html, run, n).contains(h) == (h < n && shown(html, run, h as int)),
        forall|i: int, j: int|
            0 <= i < j < shown_hours(html, run, n).len() ==> shown_hours(html, run, n)[i]
                < shown_hours(html, run, n)[j],
    decreases n,
{
    if n > 0 {
        lemma_shown_hours(html, run, (n - 1) as nat);
        let before = shown_hours(html, run, (n - 1) as nat);
        let all = shown_hours(html, run, n);
        let last = (n - 1) as u32;
        assert forall|h: u32| #[trigger] all.contains(h) == (h < n && shown(html, run, h as int)) by {
            assert(before.contains(h) == (h < n - 1 && shown(html, run, h as int)));
            if shown(html, run, n - 1) {
                assert(all == before.push(last));
                assert(all[before.len() as int] == last);
                if before.contains(h) {
                    let k = choose|k: int| 0 <= k < before.len() && before[k] == h;
                    assert(all[k] == h);
                }
                if all.contains(h) && h != last {
                    let k = choose|k: int| 0 <= k < all.len() && all[k] == h;
                    assert(before[k] == h);
                }
            }
        }
        assert forall|i: int, j: int| 0 <= i < j < all.len() implies all[i] < all[j] by {
            if shown(html, run, n - 1) && j == before.len() {
                assert(all[i] == before[i]);
                assert(before.contains(before[i]));
            } else {
                assert(all[i] == before[i] && all[j] == before[j]);
            }
        }
    }
}

/// A run's hours are ascending, each once, and just those the listing links
/// to.
pub proof fn law_a_listing_is_read_in_full(html: Seq<char>, run: int)
    ensures
        forall|h: u32| #[trigger]
            all_hours(html, run).contains(h) == (h <= MAX_HOURS && shown(html, run, h as int)),
        forall|i: int, j: int|
            0 <= i < j < all_hours(html, run).len() ==> all_hours(html, run)[i] < all_hours(
                html,
                run,
            )[j],
{
    lemma_shown_hours(html, run, (MAX_HOURS + 1) as nat);
}

/// The runs a listing shows are of that day, oldest first, one to an hour of
/// the clock, each with an hour out.
pub proof fn law_runs_are_listed_oldest_first(day: Seq<char>, html: Seq<char>, n: nat)
    requires
        n <= 24,
    ensures
        forall|i: int|
            0 <= i < shown_runs(day, html, n).len() ==> {
                let run = #[trigger] shown_runs(day, html, n)[i];
                run.day == day && run.hour < n && run.hours.len() > 0
            },
        forall|i: int, j: int|
            0 <= i < j < shown_runs(day, html, n).len() ==> (#[trigger] shown_runs(
                day,
                html,
                n,
            )[i]).hour < (#[trigger] shown_runs(day, html, n)[j]).hour,
    decreases n,
{
    if n > 0 {
        law_runs_are_listed_oldest_first(day, html, (n - 1) as nat);
        let before = shown_runs(day, html, (n - 1) as nat);
        let all = shown_runs(day, html, n);
        assert forall|i: int| 0 <= i < all.len() implies {
            let run = #[trigger] all[i];
            run.day == day && run.hour < n && run.hours.len() > 0
        } by {
            if i < before.len() {
                assert(all[i] == before[i]);
            }
        }
        assert forall|i: int, j: int| 0 <= i < j < all.len() implies (#[trigger] all[i]).hour < (
        #[trigger] all[j]).hour by {
            assert(all[i] == before[i]);
            if j < before.len() {
                assert(all[j] == before[j]);
            }
        }
    }
}

/// The run chosen among those listed is ready, and none after it is.
pub proof fn law_the_newest_ready_run_is_used(runs: Seq<RunView>)
    ensures
        match newest_ready(runs) {
            Some(run) => run.ready() && exists|i: int|
                0 <= i < runs.len() && #[trigger] runs[i] == run && forall|j: int|
                    i < j < runs.len() ==> !(#[trigger] runs[j]).ready(),
            None => forall|j: int| 0 <= j < runs.len() ==> !(#[trigger] runs[j]).ready(),
        },
    decreases runs.len(),
{
    if runs.len() > 0 {
        let last = runs.len() - 1;
        if runs.last().ready() {
            assert(runs[last] == runs.last());
        } else {
            let rest = runs.drop_last();
            law_the_newest_ready_run_is_used(rest);
            assert forall|j: int| 0 <= j < runs.len() && j < last implies rest[j] == #[trigger] runs[j] by {}
            match newest_ready(rest) {
                Some(run) => {
                    let i = choose|i: int|
                        0 <= i < rest.len() && #[trigger] rest[i] == run && forall|j: int|
                            i < j < rest.len() ==> !(#[trigger] rest[j]).ready();
                    assert(runs[i] == run);
                    assert forall|j: int| i < j < runs.len() implies !(#[trigger] runs[j]).ready() by {
                        if j < last {
                            assert(rest[j] == runs[j]);
                        }
                    }
                },
                None => {
                    assert forall|j: int| 0 <= j < runs.len() implies !(#[trigger] runs[j]).ready() by {
                        if j < last {
                            assert(rest[j] == runs[j]);
                        }
                    }
                },
            }
        }
    }
}

/// A run that a search finds is ready.
pub proof fn law_only_ready_runs_are_found(
    now: int,
    answers: Seq<Result<Seq<char>, Seq<char>>>,
    k: int,
)
    ensures
        search(now, answers, k) matches SearchView::Found(run) ==> run.ready(),
    decreases 2 - k,
{
    if k < 2 {
        law_only_ready_runs_are_found(now, answers, k + 1);
        if answers.len() > k {
            if let Ok(html) = answers[k] {
                law_the_newest_ready_run_is_used(listing(day_back(now, k), html));
            }
        }
    }
}

} // verus!
