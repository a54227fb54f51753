//! `~/.config/omawind/config.toml`: the waters to forecast, and home, where
//! the wind is reported when there's no GPS.

use crate::number::{lemma_order, rounds_to, spelled, whole, worth, Real, FRACTION, SIGN};
use crate::paths::{
    ascii,
    base,
    base_path,
    below,
    copy_path,
    home_or_root,
    home_path,
    join,
    variable,
    Environment,
};
use crate::text::{
    chars_of,
    dec,
    decimal,
    find,
    find_char,
    lines,
    lines_of,
    runs,
    spells,
    split,
    split_at,
    string_of,
    strings,
    trim,
    trimmed,
    unquote,
    unquoted,
};
use vstd::arithmetic::power2::{lemma2_to64_rest, lemma_pow2_adds, lemma_pow2_pos, pow2};
use vstd::prelude::*;
use vstd::slice::slice_subrange;

verus! {

/// 21.2, 52.6, -134 and -61 degrees: HRRR's reach.
pub const SOUTHMOST: u64 = 0x4035_3333_3333_3333;

pub const NORTHMOST: u64 = 0x404a_4ccc_cccc_cccd;

pub const WESTMOST: u64 = 0xc060_c000_0000_0000;

pub const EASTMOST: u64 = 0xc04e_8000_0000_0000;

/// 36.8, -123.8, 38.8 and -121.6 degrees: San Francisco Bay and its
/// approaches, Bodega Bay to Monterey Bay.
pub const BAY_SOUTH: u64 = 0x4042_6666_6666_6666;

pub const BAY_WEST: u64 = 0xc05e_f333_3333_3333;

pub const BAY_NORTH: u64 = 0x4043_6666_6666_6666;

pub const BAY_EAST: u64 = 0xc05e_6666_6666_6666;

/// 37.8663 and -122.3148 degrees: the Berkeley Marina.
pub const MARINA_LAT: u64 = 0x4042_eee2_eb1c_432d;

pub const MARINA_LON: u64 = 0xc05e_9425_aee6_31f9;

/// The waters to forecast, degrees.
#[derive(Clone, Copy, Debug)]
pub struct Region {
    pub south: Real,
    pub west: Real,
    pub north: Real,
    pub east: Real,
}

/// What a region's edges are.
pub ghost struct RegionView {
    pub south: u64,
    pub west: u64,
    pub north: u64,
    pub east: u64,
}

impl View for Region {
    type V = RegionView;

    open spec fn view(&self) -> RegionView {
        RegionView {
            south: self.south@,
            west: self.west@,
            north: self.north@,
            east: self.east@,
        }
    }
}

impl RegionView {
    /// Whether a position is inside the region or on its edge.
    pub open spec fn contains(self, lat: u64, lon: u64) -> bool {
        &&& worth(self.south) <= worth(lat) <= worth(self.north)
        &&& worth(self.west) <= worth(lon) <= worth(self.east)
    }

    /// Whether two regions have the same edges.
    pub open spec fn equal(self, other: RegionView) -> bool {
        &&& worth(self.south) == worth(other.south)
        &&& worth(self.west) == worth(other.west)
        &&& worth(self.north) == worth(other.north)
        &&& worth(self.east) == worth(other.east)
    }

    /// Whether south is below north and west below east.
    pub open spec fn upright(self) -> bool {
        worth(self.south) < worth(self.north) && worth(self.west) < worth(self.east)
    }

    /// Whether the region is at most 8 degrees of latitude by 10 of longitude.
    pub open spec fn small(self) -> bool {
        &&& worth(self.north) - worth(self.south) <= rounds_to(8)
        &&& worth(self.east) - worth(self.west) <= rounds_to(10)
    }

    /// Whether the region is inside HRRR's reach.
    pub open spec fn reached(self) -> bool {
        &&& worth(SOUTHMOST) <= worth(self.south)
        &&& worth(self.north) <= worth(NORTHMOST)
        &&& worth(WESTMOST) <= worth(self.west)
        &&& worth(self.east) <= worth(EASTMOST)
    }

    /// Why a region can't be forecast, if it can't.
    pub open spec fn fault(self) -> Option<Seq<char>> {
        if !self.upright() {
            Some("south must be below north and west below east"@)
        } else if !self.small() {
            Some("at most 8\u{b0} of latitude by 10\u{b0} of longitude"@)
        } else if !self.reached() {
            Some("outside HRRR's forecast, which covers the lower 48 and its coasts"@)
        } else {
            None
        }
    }
}

/// The region four numbers make, if all four are numbers.
pub open spec fn region_of(numbers: Seq<Option<u64>>) -> Option<RegionView> {
    if numbers.len() == 4 && numbers[0] is Some && numbers[1] is Some && numbers[2] is Some
        && numbers[3] is Some {
        Some(
            RegionView {
                south: numbers[0]->0,
                west: numbers[1]->0,
                north: numbers[2]->0,
                east: numbers[3]->0,
            },
        )
    } else {
        None
    }
}

/// The numbers a list with commas spells.
pub open spec fn listed(s: Seq<char>) -> Seq<Option<u64>> {
    Seq::new(split(s, ',').len(), |i: int| spelled(trim(split(s, ',')[i])))
}

/// The bits of each number in a list.
pub open spec fn numbers_view(v: Seq<Option<Real>>) -> Seq<Option<u64>> {
    Seq::new(
        v.len(),
        |i: int|
            match v[i] {
                Some(x) => Some(x@),
                None => None,
            },
    )
}

/// The region an optional value holds.
pub open spec fn region_view(r: Option<Region>) -> Option<RegionView> {
    match r {
        Some(x) => Some(x@),
        None => None,
    }
}

/// A number from its bits.
fn known(bits: u64) -> (r: Real)
    requires
        crate::number::finite64(bits),
    ensures
        r@ == bits,
{
    match Real::new(bits) {
        Some(x) => x,
        None => Real::whole(0),
    }
}

impl Region {
    /// San Francisco Bay and its approaches, Bodega Bay to Monterey Bay.
    pub fn bay() -> (r: Region)
        ensures
            r@ == bay_view(),
    {
        Region {
            south: known(BAY_SOUTH),
            west: known(BAY_WEST),
            north: known(BAY_NORTH),
            east: known(BAY_EAST),
        }
    }

    /// Whether a position is inside the region or on its edge.
    pub fn contains(&self, lat: &Real, lon: &Real) -> (r: bool)
        ensures
            r == self@.contains(lat@, lon@),
    {
        lat.within(&self.south, &self.north) && lon.within(&self.west, &self.east)
    }

    /// Whether two regions have the same edges.
    pub fn equals(&self, other: &Region) -> (r: bool)
        ensures
            r == self@.equal(other@),
    {
        self.south.equals(&other.south) && self.west.equals(&other.west) && self.north.equals(
            &other.north,
        ) && self.east.equals(&other.east)
    }

    /// Four numbers: south, west, north, east.
    pub fn of(numbers: &[Option<Real>]) -> (r: Option<Region>)
        ensures
            region_view(r) == region_of(numbers_view(numbers@)),
    {
        if numbers.len() != 4 {
            return None;
        }
        match (numbers[0], numbers[1], numbers[2], numbers[3]) {
            (Some(south), Some(west), Some(north), Some(east)) => Some(
                Region { south, west, north, east },
            ),
            _ => None,
        }
    }

    /// Four numbers with commas between: south, west, north, east.
    pub fn parse(s: &str) -> (r: Option<Region>)
        ensures
            region_view(r) == region_of(listed(s@)),
    {
        let chars = chars_of(s);
        Region::read(chars.as_slice())
    }

    /// Four numbers with commas between: south, west, north, east.
    fn read(s: &[char]) -> (r: Option<Region>)
        ensures
            region_view(r) == region_of(listed(s@)),
    {
        let pieces = split_at(s, ',');
        let mut numbers: Vec<Option<Real>> = Vec::new();
        let mut i: usize = 0;
        while i < pieces.len()
            invariant
                i <= pieces@.len(),
                runs(pieces@) == split(s@, ','),
                numbers@.len() == i,
                forall|j: int| 0 <= j < i ==> numbers_view(numbers@)[j] == listed(s@)[j],
            decreases pieces@.len() - i,
        {
            let piece = trimmed(pieces[i].as_slice());
            assert(runs(pieces@)[i as int] == pieces@[i as int]@);
            let ghost before = numbers@;
            numbers.push(Real::parse(string_of(piece.as_slice()).as_str()));
            assert forall|j: int| 0 <= j < i + 1 implies numbers_view(numbers@)[j] == listed(
                s@,
            )[j] by {
                if j < i {
                    assert(numbers_view(numbers@)[j] == numbers_view(before)[j]);
                }
            }
            i += 1;
        }
        assert(numbers_view(numbers@) =~= listed(s@)) by {
            assert(runs(pieces@).len() == pieces@.len());
        }
        Region::of(numbers.as_slice())
    }

    /// `south,west,north,east`, as a run's `region` file keeps it.
    pub fn key(edges: &Edges) -> (r: String)
        ensures
            r@ == edges@.key(),
    {
        let mut s = edges.south.as_str().to_owned();
        s.append(",");
        s.append(edges.west.as_str());
        s.append(",");
        s.append(edges.north.as_str());
        s.append(",");
        s.append(edges.east.as_str());
        s
    }

    /// Inside HRRR's reach, and no bigger than a few hundred miles a side,
    /// so every hour stays a small download.
    pub fn check(&self) -> (r: Result<(), String>)
        ensures
            r is Ok <==> self@.fault() is None,
            r matches Err(e) ==> self@.fault() == Some(e@),
    {
        if !(self.south.less(&self.north) && self.west.less(&self.east)) {
            return Err("south must be below north and west below east".to_owned());
        }
        if self.south.spans_more_than(&self.north, 8) || self.west.spans_more_than(&self.east, 10) {
            return Err("at most 8\u{b0} of latitude by 10\u{b0} of longitude".to_owned());
        }
        if self.south.less(&known(SOUTHMOST)) || known(NORTHMOST).less(&self.north)
            || self.west.less(&known(WESTMOST)) || known(EASTMOST).less(&self.east) {
            return Err(
                "outside HRRR's forecast, which covers the lower 48 and its coasts".to_owned(),
            );
        }
        Ok(())
    }
}

/// A region's edges, written out.
#[derive(Debug)]
pub struct Edges {
    pub south: String,
    pub west: String,
    pub north: String,
    pub east: String,
}

/// What a region's edges say.
pub ghost struct EdgesView {
    pub south: Seq<char>,
    pub west: Seq<char>,
    pub north: Seq<char>,
    pub east: Seq<char>,
}

impl View for Edges {
    type V = EdgesView;

    open spec fn view(&self) -> EdgesView {
        EdgesView {
            south: self.south@,
            west: self.west@,
            north: self.north@,
            east: self.east@,
        }
    }
}

impl EdgesView {
    /// `south,west,north,east`.
    pub open spec fn key(self) -> Seq<char> {
        self.south + ","@ + self.west + ","@ + self.north + ","@ + self.east
    }
}

/// San Francisco Bay's edges.
pub open spec fn bay_view() -> RegionView {
    RegionView { south: BAY_SOUTH, west: BAY_WEST, north: BAY_NORTH, east: BAY_EAST }
}

// --- Settings -----------------------------------------------------------------------

/// Whether a latitude and longitude are from -90 to 90 and -180 to 180 degrees.
pub open spec fn on_earth(lat: u64, lon: u64) -> bool {
    &&& whole(-90) <= worth(lat) <= whole(90)
    &&& whole(-180) <= worth(lon) <= whole(180)
}

/// Whether a latitude and longitude are from -90 to 90 and -180 to 180 degrees.
pub fn is_on_earth(lat: &Real, lon: &Real) -> (r: bool)
    ensures
        r == on_earth(lat@, lon@),
{
    lat.within(&Real::whole(-90), &Real::whole(90)) && lon.within(
        &Real::whole(-180),
        &Real::whole(180),
    )
}

#[derive(Clone, Copy, Debug)]
pub struct Settings {
    pub region: Region,
    /// Latitude and longitude, degrees.
    pub home: (Real, Real),
}

/// What settings are.
pub ghost struct SettingsView {
    pub region: RegionView,
    pub home: (u64, u64),
}

impl View for Settings {
    type V = SettingsView;

    open spec fn view(&self) -> SettingsView {
        SettingsView { region: self.region@, home: (self.home.0@, self.home.1@) }
    }
}

/// The Bay, and home at the Berkeley Marina.
pub open spec fn default_view() -> SettingsView {
    SettingsView { region: bay_view(), home: (MARINA_LAT, MARINA_LON) }
}

impl Default for Settings {
    /// The Bay, and home at the Berkeley Marina, where omahelm also opens.
    fn default() -> (r: Settings)
        ensures
            r@ == default_view(),
    {
        Settings { region: Region::bay(), home: (known(MARINA_LAT), known(MARINA_LON)) }
    }
}

/// The place two numbers make, if both are numbers and on Earth.
pub open spec fn place_of(lat: Option<u64>, lon: Option<u64>) -> Option<(u64, u64)> {
    if lat is Some && lon is Some && on_earth(lat->0, lon->0) {
        Some((lat->0, lon->0))
    } else {
        None
    }
}

/// The place `latitude, longitude` names.
pub open spec fn home_of(v: Seq<char>) -> Option<(u64, u64)> {
    let i = find(v, ',', 0);
    if i < v.len() {
        place_of(spelled(trim(v.take(i))), spelled(trim(v.skip(i + 1))))
    } else {
        None
    }
}

/// The place two numbers make, if both are numbers and on Earth.
pub fn place(lat: Option<Real>, lon: Option<Real>) -> (r: Option<(Real, Real)>)
    ensures
        match r {
            Some((a, b)) => place_of(number_view(lat), number_view(lon)) == Some((a@, b@)),
            None => place_of(number_view(lat), number_view(lon)) is None,
        },
{
    if let (Some(a), Some(b)) = (lat, lon) {
        if is_on_earth(&a, &b) {
            return Some((a, b));
        }
    }
    None
}

/// The bits of a number, if there is one.
pub open spec fn number_view(x: Option<Real>) -> Option<u64> {
    match x {
        Some(x) => Some(x@),
        None => None,
    }
}

/// Settings as far as they are read, and what was wrong with them.
pub ghost struct Reading {
    pub settings: SettingsView,
    pub problems: Seq<Seq<char>>,
}

impl Reading {
    pub open spec fn but(self, problem: Seq<char>) -> Reading {
        Reading { problems: self.problems.push(problem), ..self }
    }

    /// A setting, read. One that is unknown or won't do is a problem, and
    /// changes nothing.
    pub open spec fn set(self, key: Seq<char>, v: Seq<char>) -> Reading {
        if key == "region"@ {
            match region_of(listed(v)) {
                None => self.but("region: expected south, west, north, east in degrees"@),
                Some(r) => match r.fault() {
                    Some(e) => self.but("region: "@ + e),
                    None => Reading {
                        settings: SettingsView { region: r, ..self.settings },
                        ..self
                    },
                },
            }
        } else if key == "home"@ {
            match home_of(v) {
                None => self.but("home: expected latitude, longitude in degrees"@),
                Some(home) => Reading { settings: SettingsView { home, ..self.settings }, ..self },
            }
        } else {
            self.but("unknown setting "@ + key)
        }
    }

    /// Line `n`, counted from 1, read: a comment runs from `#` on, and an
    /// empty line or a table's heading says nothing.
    pub open spec fn line(self, line: Seq<char>, n: int) -> Reading {
        let body = trim(line.take(find(line, '#', 0)));
        let i = find(body, '=', 0);
        if body.len() == 0 || body[0] == '[' {
            self
        } else if i == body.len() {
            self.but("line "@ + dec(n as nat) + ": expected key = value"@)
        } else {
            self.set(trim(body.take(i)), unquote(trim(body.skip(i + 1))))
        }
    }
}

/// Settings once lines are read, one after the other.
pub open spec fn read_lines(lines: Seq<Seq<char>>) -> Reading
    decreases lines.len(),
{
    if lines.len() == 0 {
        Reading { settings: default_view(), problems: seq![] }
    } else {
        read_lines(lines.drop_last()).line(lines.last(), lines.len() as int)
    }
}

/// The settings a file's text makes, and what was wrong with it.
pub open spec fn settings_of(text: Seq<char>) -> Reading {
    read_lines(lines(text))
}

fn prefixed(a: &str, b: &str) -> (r: String)
    ensures
        r@ == a@ + b@,
{
    let mut s = a.to_owned();
    s.append(b);
    s
}

/// What settings and problems say.
spec fn says(s: Settings, problems: Seq<String>) -> Reading {
    Reading { settings: s@, problems: strings(problems) }
}

/// Adds a problem to a list.
fn report(problems: &mut Vec<String>, problem: String)
    ensures
        strings(final(problems)@) == strings(old(problems)@).push(problem@),
{
    let ghost before = problems@;
    problems.push(problem);
    assert(strings(problems@) =~= strings(before).push(problem@));
}

impl Settings {
    /// One setting.
    fn set(&mut self, key: &[char], v: &[char], problems: &mut Vec<String>)
        ensures
            says(*final(self), final(problems)@) == says(*old(self), old(problems)@).set(
                key@,
                v@,
            ),
    {
        if spells(key, "region") {
            match Region::read(v) {
                None => report(
                    problems,
                    "region: expected south, west, north, east in degrees".to_owned(),
                ),
                Some(r) => match r.check() {
                    Ok(_) => self.region = r,
                    Err(e) => report(problems, prefixed("region: ", e.as_str())),
                },
            }
        } else if spells(key, "home") {
            match read_home(v) {
                Some(home) => self.home = home,
                None => report(problems, "home: expected latitude, longitude in degrees".to_owned()),
            }
        } else {
            report(problems, prefixed("unknown setting ", string_of(key).as_str()));
        }
    }

    /// One line, the `n`th.
    fn line(&mut self, line: &[char], n: u64, problems: &mut Vec<String>)
        ensures
            says(*final(self), final(problems)@) == says(*old(self), old(problems)@).line(
                line@,
                n as int,
            ),
    {
        let end: usize = find_char(line, '#', 0);
        let part = slice_subrange(line, 0, end);
        assert(part@ =~= line@.take(end as int));
        let body = trimmed(part);
        if body.len() == 0 || body[0] == '[' {
            return ;
        }
        let i: usize = find_char(body.as_slice(), '=', 0);
        if i == body.len() {
            let mut e = prefixed("line ", decimal(n).as_str());
            e.append(": expected key = value");
            report(problems, e);
            return ;
        }
        let key = slice_subrange(body.as_slice(), 0, i);
        let v = slice_subrange(body.as_slice(), i + 1, body.len());
        assert(key@ =~= body@.take(i as int));
        assert(v@ =~= body@.skip(i + 1));
        let key = trimmed(key);
        let v = unquoted(trimmed(v).as_slice());
        self.set(key.as_slice(), v.as_slice(), problems);
    }

    /// Unknown keys and bad values are reported and left at their defaults.
    pub fn parse(text: &str) -> (r: (Settings, Vec<String>))
        ensures
            r.0@ == settings_of(text@).settings,
            strings(r.1@) == settings_of(text@).problems,
    {
        let chars = chars_of(text);
        let all = lines_of(chars.as_slice());
        let mut s = Settings::default();
        let mut problems: Vec<String> = Vec::new();
        let mut i: usize = 0;
        assert(strings(problems@) =~= seq![]);
        assert(runs(all@).take(0) =~= seq![]);
        while i < all.len()
            invariant
                i <= all@.len(),
                runs(all@) == lines(text@),
                says(s, problems@) == read_lines(runs(all@).take(i as int)),
            decreases all@.len() - i,
        {
            s.line(all[i].as_slice(), i as u64 + 1, &mut problems);
            assert(runs(all@).take(i + 1).drop_last() =~= runs(all@).take(i as int));
            i += 1;
        }
        assert(runs(all@).take(i as int) =~= runs(all@));
        (s, problems)
    }
}

/// `latitude, longitude`.
fn read_home(v: &[char]) -> (r: Option<(Real, Real)>)
    ensures
        match r {
            Some((a, b)) => home_of(v@) == Some((a@, b@)),
            None => home_of(v@) is None,
        },
{
    let i: usize = find_char(v, ',', 0);
    if i == v.len() {
        return None;
    }
    let a = slice_subrange(v, 0, i);
    let b = slice_subrange(v, i + 1, v.len());
    assert(a@ =~= v@.take(i as int));
    assert(b@ =~= v@.skip(i + 1));
    let lat = Real::parse(string_of(trimmed(a).as_slice()).as_str());
    let lon = Real::parse(string_of(trimmed(b).as_slice()).as_str());
    place(lat, lon)
}

// --- The settings file -----------------------------------------------------------------

/// What reading the settings file came to.
pub enum Found {
    Text(String),
    /// There is no such file.
    Missing,
    /// It can't be read, and why.
    Unreadable(String),
}

/// Each problem, with the settings file's name before it.
pub open spec fn named(problems: Seq<Seq<char>>) -> Seq<Seq<char>> {
    Seq::new(problems.len(), |i: int| "config.toml: "@ + problems[i])
}

/// The settings, and what was wrong with them, from the settings file.
pub open spec fn loaded(found: Found) -> Reading {
    match found {
        Found::Text(text) => Reading {
            settings: settings_of(text@).settings,
            problems: named(settings_of(text@).problems),
        },
        Found::Missing => Reading { settings: default_view(), problems: seq![] },
        Found::Unreadable(e) => Reading {
            settings: default_view(),
            problems: named(seq![e@]),
        },
    }
}

/// The settings file, or the defaults when there isn't one.
pub fn load(found: &Found) -> (r: (Settings, Vec<String>))
    ensures
        r.0@ == loaded(*found).settings,
        strings(r.1@) == loaded(*found).problems,
{
    let mut problems: Vec<String> = Vec::new();
    assert(strings(problems@) =~= seq![]);
    match found {
        Found::Text(text) => {
            let (s, p) = Settings::parse(text.as_str());
            let mut i: usize = 0;
            while i < p.len()
                invariant
                    i <= p@.len(),
                    strings(problems@) == named(strings(p@)).take(i as int),
                decreases p@.len() - i,
            {
                report(&mut problems, prefixed("config.toml: ", p[i].as_str()));
                assert(strings(p@)[i as int] == p@[i as int]@);
                i += 1;
                assert(strings(problems@) =~= named(strings(p@)).take(i as int));
            }
            assert(named(strings(p@)).take(i as int) =~= named(strings(p@)));
            (s, problems)
        },
        Found::Missing => (Settings::default(), problems),
        Found::Unreadable(e) => {
            report(&mut problems, prefixed("config.toml: ", e.as_str()));
            assert(strings(problems@) =~= named(seq![e@]));
            (Settings::default(), problems)
        },
    }
}

// --- Where things are ------------------------------------------------------------------

/// `$HOME`, or the root.
pub fn home_dir(env: &Environment) -> (r: Vec<u8>)
    ensures
        r@ == home_path(variable(env.home)),
{
    home_or_root(&env.home)
}

/// `$OMAWIND_CONFIG`, or `omawind/config.toml` among the user's settings.
pub fn config_path(env: &Environment) -> (r: Vec<u8>)
    ensures
        r@ == (match variable(env.omawind_config) {
            Some(p) => p,
            None => below(
                base_path(variable(env.config_home), variable(env.home), ".config"@),
                ascii("omawind/config.toml"@),
            ),
        }),
{
    if let Some(p) = &env.omawind_config {
        return copy_path(p.as_slice());
    }
    proof {
        reveal_strlit(".config");
        reveal_strlit("omawind/config.toml");
    }
    join(base(&env.config_home, &env.home, ".config").as_slice(), "omawind/config.toml")
}

/// `omawind` in the user's cache.
pub fn cache_dir(env: &Environment) -> (r: Vec<u8>)
    ensures
        r@ == below(
            base_path(variable(env.cache_home), variable(env.home), ".cache"@),
            ascii("omawind"@),
        ),
{
    proof {
        reveal_strlit(".cache");
        reveal_strlit("omawind");
    }
    join(base(&env.cache_home, &env.home, ".cache").as_slice(), "omawind")
}

// --- Laws --------------------------------------------------------------------------------

/// The Bay can be forecast.
pub proof fn law_the_bay_can_be_forecast()
    ensures
        bay_view().fault() is None,
{
    lemma_order(BAY_SOUTH, BAY_NORTH);
    lemma_order(BAY_WEST, BAY_EAST);
    lemma_order(BAY_SOUTH, SOUTHMOST);
    lemma_order(NORTHMOST, BAY_NORTH);
    lemma_order(BAY_WEST, WESTMOST);
    lemma_order(EASTMOST, BAY_EAST);
    lemma_bay_is_small();
}

proof fn lemma_bay_is_small()
    ensures
        bay_view().small(),
{
    assert(BAY_SOUTH as int / FRACTION as int == 1028 && BAY_NORTH as int / FRACTION as int
        == 1028);
    let a = BAY_SOUTH as int % FRACTION as int;
    let b = BAY_NORTH as int % FRACTION as int;
    let p = pow2(1027) as int;
    lemma_pow2_pos(1027);
    lemma_pow2_adds(47, 1027);
    lemma2_to64_rest();
    lemma_pow2_pos(1024);
    assert((FRACTION + b) * p - (FRACTION + a) * p == (b - a) * p) by (nonlinear_arith);
    assert((b - a) * p <= 8 * (0x8000_0000_0000 * p)) by (nonlinear_arith)
        requires
            b - a <= 8 * 0x8000_0000_0000,
            p > 0,
    ;
    let west = BAY_WEST - SIGN;
    let east = BAY_EAST - SIGN;
    assert(west / FRACTION as int == 1029 && east / FRACTION as int == 1029);
    let c = west % FRACTION as int;
    let d = east % FRACTION as int;
    let q = pow2(1028) as int;
    lemma_pow2_pos(1028);
    lemma_pow2_adds(46, 1028);
    assert((FRACTION + c) * q - (FRACTION + d) * q == (c - d) * q) by (nonlinear_arith);
    assert((c - d) * q <= 10 * (0x4000_0000_0000 * q)) by (nonlinear_arith)
        requires
            c - d <= 10 * 0x4000_0000_0000,
            q > 0,
    ;
}

/// The Berkeley Marina is on Earth.
proof fn lemma_marina()
    ensures
        on_earth(MARINA_LAT, MARINA_LON),
{
    let lon = MARINA_LON - SIGN;
    let p = pow2(1027) as int;
    let q = pow2(1028) as int;
    lemma_pow2_pos(1027);
    lemma_pow2_pos(1028);
    lemma_pow2_adds(47, 1027);
    lemma_pow2_adds(46, 1028);
    lemma2_to64_rest();
    assert(MARINA_LAT as int / FRACTION as int == 1028 && lon / FRACTION as int == 1029);
    let a = FRACTION + MARINA_LAT as int % FRACTION as int;
    let b = FRACTION + lon % FRACTION as int;
    assert(0 <= a * p <= 90 * (0x8000_0000_0000 * p)) by (nonlinear_arith)
        requires
            0 <= a <= 90 * 0x8000_0000_0000,
            p > 0,
    ;
    assert(0 <= b * q <= 180 * (0x4000_0000_0000 * q)) by (nonlinear_arith)
        requires
            0 <= b <= 180 * 0x4000_0000_0000,
            q > 0,
    ;
}

proof fn lemma_lines_can_be_used(lines: Seq<Seq<char>>)
    ensures
        read_lines(lines).settings.region.fault() is None,
        on_earth(read_lines(lines).settings.home.0, read_lines(lines).settings.home.1),
    decreases lines.len(),
{
    if lines.len() == 0 {
        law_the_bay_can_be_forecast();
        lemma_marina();
    } else {
        lemma_lines_can_be_used(lines.drop_last());
    }
}

/// Whatever the settings file says, the region kept is one that can be
/// forecast, and home is on Earth.
pub proof fn law_settings_can_be_used(text: Seq<char>)
    ensures
        settings_of(text).settings.region.fault() is None,
        on_earth(settings_of(text).settings.home.0, settings_of(text).settings.home.1),
{
    lemma_lines_can_be_used(lines(text));
}

} // verus!
