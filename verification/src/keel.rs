//! The boat's position from omakeel: its socket and `state` messages,
//! version 1, as omakeel's docs/protocol.md describes them.

use crate::config::{is_on_earth, on_earth};
use crate::json::{from_text, json_text, Json, JsonView};
use crate::number::Real;
use crate::paths::{socket, socket_path, variable, Environment};
use crate::text::same_text;
use vstd::prelude::*;

verus! {

#[derive(Clone, Copy, Debug)]
pub struct Boat {
    pub lat: Real,
    pub lon: Real,
    /// An `ok` fix; otherwise the last position omakeel knows.
    pub current: bool,
}

#[derive(Clone, Copy, Debug)]
pub enum Update {
    /// omakeel's latest fix: None when it has no position.
    Boat(Option<Boat>),
    /// Not connected to omakeel.
    Lost,
    /// omakeel speaks another protocol version.
    Incompatible(u64),
}

/// Where a boat is.
pub ghost struct BoatView {
    pub lat: u64,
    pub lon: u64,
    pub current: bool,
}

/// What an update says.
pub ghost enum UpdateView {
    Boat(Option<BoatView>),
    Lost,
    Incompatible(u64),
}

/// Where a boat is, if there is one.
pub open spec fn boat_view(b: Option<Boat>) -> Option<BoatView> {
    match b {
        Some(b) => Some(BoatView { lat: b.lat@, lon: b.lon@, current: b.current }),
        None => None,
    }
}

impl View for Update {
    type V = UpdateView;

    open spec fn view(&self) -> UpdateView {
        match *self {
            Update::Boat(b) => UpdateView::Boat(boat_view(b)),
            Update::Lost => UpdateView::Lost,
            Update::Incompatible(v) => UpdateView::Incompatible(v),
        }
    }
}

/// What an update says, if there is one.
pub open spec fn update_view(u: Option<Update>) -> Option<UpdateView> {
    match u {
        Some(u) => Some(u@),
        None => None,
    }
}

/// A fix's status: `none` when it doesn't say.
pub open spec fn status_of(fix: JsonView) -> Seq<char> {
    match fix.get("status"@) {
        Some(s) => match s.text() {
            Some(t) => t,
            None => "none"@,
        },
        None => "none"@,
    }
}

/// A number among a value's fields.
pub open spec fn float_named(j: JsonView, key: Seq<char>) -> Option<u64> {
    match j.get(key) {
        Some(v) => v.float(),
        None => None,
    }
}

/// Where a fix puts the boat: nowhere when it has no position on Earth, or
/// says it has none.
pub open spec fn boat_in(fix: JsonView) -> Option<BoatView> {
    let (lat, lon) = (float_named(fix, "lat"@), float_named(fix, "lon"@));
    if lat is Some && lon is Some && status_of(fix) != "none"@ && on_earth(lat->0, lon->0) {
        Some(BoatView { lat: lat->0, lon: lon->0, current: status_of(fix) == "ok"@ })
    } else {
        None
    }
}

/// What a message from omakeel says about the boat, if anything.
pub open spec fn update_in(m: JsonView) -> Option<UpdateView> {
    let version = match m.get("v"@) {
        Some(v) => v.unsigned(),
        None => None,
    };
    let kind = match m.get("type"@) {
        Some(t) => t.text(),
        None => None,
    };
    if version is None {
        None
    } else if version->0 != 1 {
        Some(UpdateView::Incompatible(version->0))
    } else if kind != Some("state"@) {
        None
    } else {
        match m.get("fix"@) {
            Some(fix) => Some(UpdateView::Boat(boat_in(fix))),
            None => None,
        }
    }
}

/// `$XDG_RUNTIME_DIR/omakeel/keel.sock`.
pub fn default_socket(env: &Environment) -> (r: Option<Vec<u8>>)
    ensures
        variable(r) == socket_path(variable(env.runtime_dir), "omakeel"@, "keel.sock"@),
{
    proof {
        reveal_strlit("omakeel");
        reveal_strlit("keel.sock");
    }
    socket(&env.runtime_dir, "omakeel", "keel.sock")
}

/// A number among a value's fields.
pub fn real_named(j: &Json, key: &str) -> (r: Option<Real>)
    ensures
        match r {
            Some(x) => float_named(j@, key@) == Some(x@),
            None => float_named(j@, key@) is None,
        },
{
    match j.get(key) {
        Some(v) => v.as_real(),
        None => None,
    }
}

/// Where a fix puts the boat.
fn boat(fix: &Json) -> (r: Option<Boat>)
    ensures
        boat_view(r) == boat_in(fix@),
{
    let status = match fix.get("status") {
        Some(s) => match s.as_text() {
            Some(t) => t.as_str(),
            None => "none",
        },
        None => "none",
    };
    if let (Some(lat), Some(lon)) = (real_named(fix, "lat"), real_named(fix, "lon")) {
        if !same_text(status, "none") && is_on_earth(&lat, &lon) {
            return Some(Boat { lat, lon, current: same_text(status, "ok") });
        }
    }
    None
}

/// What a message from omakeel says about the boat, if anything.
pub fn update(m: &Json) -> (r: Option<Update>)
    ensures
        update_view(r) == update_in(m@),
{
    let version = match m.get("v") {
        Some(v) => v.as_u64(),
        None => None,
    };
    let v: u64 = match version {
        Some(v) => v,
        None => return None,
    };
    if v != 1 {
        return Some(Update::Incompatible(v));
    }
    let is_state = match m.get("type") {
        Some(t) => match t.as_text() {
            Some(s) => same_text(s.as_str(), "state"),
            None => false,
        },
        None => false,
    };
    if !is_state {
        return None;
    }
    match m.get("fix") {
        Some(fix) => Some(Update::Boat(boat(fix))),
        None => None,
    }
}

/// What one line from omakeel says about the boat, if anything.
pub fn read(line: &str) -> (r: Option<Update>)
    ensures
        update_view(r) == (match json_text(line@) {
            Some(m) => update_in(m),
            None => None,
        }),
{
    match from_text(line) {
        Some(m) => update(&m),
        None => None,
    }
}

/// Seconds before trying omakeel again.
pub const RETRY: u64 = 2;

/// Seconds before trying again while it speaks another version.
pub const RETRY_INCOMPATIBLE: u64 = 30;

/// What to do with a line from omakeel.
#[derive(Clone, Copy, Debug)]
pub enum Heard {
    /// It says nothing about the boat.
    Nothing,
    /// Pass it on.
    Tell(Update),
    /// Pass it on and hang up.
    Part(Update),
}

/// What to do with what a line says: hang up once omakeel turns out to speak
/// another version.
pub open spec fn heard(u: Option<Update>) -> Heard {
    match u {
        None => Heard::Nothing,
        Some(u) => if u is Incompatible {
            Heard::Part(u)
        } else {
            Heard::Tell(u)
        },
    }
}

/// What to do with what a line says.
pub fn hear(u: Option<Update>) -> (r: Heard)
    ensures
        r == heard(u),
{
    match u {
        None => Heard::Nothing,
        Some(u) => match u {
            Update::Incompatible(_) => Heard::Part(u),
            _ => Heard::Tell(u),
        },
    }
}

/// After a connection ends: what to pass on, and how many seconds to wait
/// before the next. An omakeel of another version isn't lost.
pub fn parted(incompatible: bool) -> (r: (Option<Update>, u64))
    ensures
        incompatible ==> r == (None::<Update>, RETRY_INCOMPATIBLE),
        !incompatible ==> r == (Some(Update::Lost), RETRY),
{
    if incompatible {
        (None, RETRY_INCOMPATIBLE)
    } else {
        (Some(Update::Lost), RETRY)
    }
}

} // verus!
