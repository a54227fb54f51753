//! Connected apps: their requests, read a line at a time, and which messages
//! they are due.

use crate::json::{from_bytes, json_bytes, list_view, Json, JsonView};
use crate::text::{same_text, strings};
use vstd::prelude::*;

verus! {

/// The longest line an app may send, bytes.
pub const MAX_LINE: usize = 65_536;

// --- Lines -----------------------------------------------------------------------------

/// What an app has sent: a line begun, and what the lines before it were.
pub ghost struct Sent {
    pub line: Seq<u8>,
    /// Past `MAX_LINE`: the rest of the line is thrown away.
    pub skipping: bool,
    pub requests: Seq<JsonView>,
    pub errors: Seq<Seq<char>>,
}

/// White space, in ASCII.
pub open spec fn blank(b: u8) -> bool {
    b == 0x20 || b == 0x09 || b == 0x0a || b == 0x0c || b == 0x0d
}

/// Whether a line holds nothing but white space.
pub open spec fn all_blank(line: Seq<u8>) -> bool {
    forall|i: int| 0 <= i < line.len() ==> blank(#[trigger] line[i])
}

impl Sent {
    /// A whole line, by what its bytes are JSON for.
    pub open spec fn whole(self, value: Option<JsonView>) -> Sent {
        if value is Some && value->0 is Object {
            Sent { line: seq![], requests: self.requests.push(value->0), ..self }
        } else {
            Sent { line: seq![], errors: self.errors.push("not a JSON object"@), ..self }
        }
    }

    /// One more byte. Lines of nothing but white space are passed over.
    pub open spec fn byte(self, b: u8) -> Sent {
        if b != 0x0a {
            if self.skipping {
                self
            } else if self.line.len() < MAX_LINE {
                Sent { line: self.line.push(b), ..self }
            } else {
                Sent {
                    line: seq![],
                    skipping: true,
                    errors: self.errors.push("line too long"@),
                    ..self
                }
            }
        } else if self.skipping {
            Sent { skipping: false, ..self }
        } else if all_blank(self.line) {
            Sent { line: seq![], ..self }
        } else {
            self.whole(json_bytes(self.line))
        }
    }

    /// More bytes, one after the other.
    pub open spec fn bytes(self, b: Seq<u8>) -> Sent
        decreases b.len(),
    {
        if b.len() == 0 {
            self
        } else {
            self.bytes(b.drop_last()).byte(b.last())
        }
    }
}

/// Reads an app's lines.
pub struct Lines {
    line: Vec<u8>,
    skipping: bool,
}

/// The requests in some bytes, and what was wrong with them.
#[derive(Debug)]
pub struct Batch {
    pub requests: Vec<Json>,
    pub errors: Vec<String>,
}

impl Lines {
    /// The line begun.
    pub closed spec fn begun(self) -> Seq<u8> {
        self.line@
    }

    /// Whether the rest of the line is thrown away.
    pub closed spec fn skips(self) -> bool {
        self.skipping
    }

    /// A line begun is never longer than a line may be.
    #[verifier::type_invariant]
    closed spec fn short(self) -> bool {
        self.line@.len() <= MAX_LINE
    }

    /// What was sent, with these requests and errors.
    pub open spec fn sent(self, batch: Batch) -> Sent {
        Sent {
            line: self.begun(),
            skipping: self.skips(),
            requests: list_view(batch.requests@),
            errors: strings(batch.errors@),
        }
    }

    /// Nothing sent yet.
    pub fn new() -> (r: Lines)
        ensures
            r.begun() == Seq::<u8>::empty(),
            !r.skips(),
    {
        Lines { line: Vec::new(), skipping: false }
    }

    /// The requests in some bytes an app sent, and what was wrong with them.
    pub fn feed(&mut self, bytes: &[u8]) -> (r: Batch)
        ensures
            final(self).sent(r) == (Sent {
                line: old(self).begun(),
                skipping: old(self).skips(),
                requests: seq![],
                errors: seq![],
            }).bytes(bytes@),
    {
        let ghost start = Sent {
            line: self.line@,
            skipping: self.skipping,
            requests: seq![],
            errors: seq![],
        };
        proof {
            use_type_invariant(&*self);
        }
        let mut line: Vec<u8> = Vec::new();
        std::mem::swap(&mut line, &mut self.line);
        let mut skipping = self.skipping;
        let mut requests: Vec<Json> = Vec::new();
        let mut errors: Vec<String> = Vec::new();
        assert(list_view(requests@) =~= seq![]);
        assert(strings(errors@) =~= seq![]);
        assert(bytes@.take(0) =~= seq![]);
        let mut k: usize = 0;
        while k < bytes.len()
            invariant
                k <= bytes@.len(),
                line@.len() <= MAX_LINE,
                (Sent {
                    line: line@,
                    skipping,
                    requests: list_view(requests@),
                    errors: strings(errors@),
                }) == start.bytes(bytes@.take(k as int)),
            decreases bytes@.len() - k,
        {
            let b: u8 = bytes[k];
            assert(bytes@.take(k + 1).drop_last() =~= bytes@.take(k as int));
            if b != 0x0a {
                if !skipping {
                    if line.len() < MAX_LINE {
                        line.push(b);
                    } else {
                        line = Vec::new();
                        skipping = true;
                        say(&mut errors, "line too long");
                        assert(line@ =~= seq![]);
                    }
                }
            } else if skipping {
                skipping = false;
            } else if is_blank(line.as_slice()) {
                line = Vec::new();
                assert(line@ =~= seq![]);
            } else {
                match request(from_bytes(line.as_slice())) {
                    Ok(j) => {
                        let ghost was = requests@;
                        requests.push(j);
                        assert(list_view(requests@) =~= list_view(was).push(j@));
                    },
                    Err(e) => say(&mut errors, e.as_str()),
                }
                line = Vec::new();
                assert(line@ =~= seq![]);
            }
            k += 1;
        }
        assert(bytes@.take(k as int) =~= bytes@);
        *self = Lines { line, skipping };
        Batch { requests, errors }
    }
}

/// A request, if a line is JSON for an object.
pub fn request(value: Option<Json>) -> (r: Result<Json, String>)
    ensures
        r is Ok <==> (value matches Some(j) && j@ is Object),
        r matches Ok(j) ==> Some(j@) == (match value {
            Some(v) => Some(v@),
            None => None,
        }),
        r matches Err(e) ==> e@ == "not a JSON object"@,
{
    if let Some(j) = value {
        if let Json::Object(_) = &j {
            return Ok(j);
        }
    }
    Err("not a JSON object".to_owned())
}

fn is_blank(line: &[u8]) -> (r: bool)
    ensures
        r == all_blank(line@),
{
    let mut i: usize = 0;
    while i < line.len()
        invariant
            i <= line@.len(),
            forall|j: int| 0 <= j < i ==> blank(#[trigger] line@[j]),
        decreases line@.len() - i,
    {
        let b: u8 = line[i];
        if !(b == 0x20 || b == 0x09 || b == 0x0a || b == 0x0c || b == 0x0d) {
            assert(!blank(line@[i as int]));
            return false;
        }
        i += 1;
    }
    true
}

/// Adds a text to a list.
fn say(out: &mut Vec<String>, s: &str)
    ensures
        strings(final(out)@) == strings(old(out)@).push(s@),
{
    let ghost was = out@;
    let text = s.to_owned();
    out.push(text);
    assert(strings(out@) =~= strings(was).push(s@));
}

/// However an app's bytes are cut up on their way, they are the same requests
/// and errors.
pub proof fn law_lines_read_the_same_however_they_arrive(s: Sent, a: Seq<u8>, b: Seq<u8>)
    ensures
        s.bytes(a).bytes(b) == s.bytes(a + b),
    decreases b.len(),
{
    if b.len() == 0 {
        assert(a + b =~= a);
    } else {
        law_lines_read_the_same_however_they_arrive(s, a, b.drop_last());
        assert((a + b).drop_last() =~= a + b.drop_last());
        assert((a + b).last() == b.last());
    }
}

/// Whatever an app sends, no more than a line is kept of it.
pub proof fn law_no_more_than_a_line_is_kept(s: Sent, b: Seq<u8>)
    requires
        s.line.len() <= MAX_LINE,
    ensures
        s.bytes(b).line.len() <= MAX_LINE,
    decreases b.len(),
{
    if b.len() > 0 {
        law_no_more_than_a_line_is_kept(s, b.drop_last());
    }
}

// --- Who is connected --------------------------------------------------------------------

/// One connected app.
#[derive(Clone, Copy, Debug)]
pub struct Seat {
    pub id: u64,
    /// Hasn't been sent anything yet.
    pub fresh: bool,
}

/// What an app may be due.
#[derive(Clone, Copy, Debug, PartialEq, Eq, Structural)]
pub enum What {
    Hello,
    State,
    Stations,
}

/// A message due to an app.
#[derive(Clone, Copy, Debug, PartialEq, Eq, Structural)]
pub struct Due {
    pub id: u64,
    pub what: What,
}

/// The connected apps, in the order they came, and the state and stations last
/// sent.
#[derive(Debug)]
pub struct Roster {
    pub seats: Vec<Seat>,
    /// The next app's number.
    pub next: u64,
    pub state: String,
    pub stations: String,
}

/// What one app is due, in order: a newcomer everything, the others what
/// changed.
pub open spec fn due_to(seat: Seat, state: bool, stations: bool) -> Seq<Due> {
    let hello = if seat.fresh {
        seq![Due { id: seat.id, what: What::Hello }]
    } else {
        seq![]
    };
    let second = if state || seat.fresh {
        seq![Due { id: seat.id, what: What::State }]
    } else {
        seq![]
    };
    let third = if stations || seat.fresh {
        seq![Due { id: seat.id, what: What::Stations }]
    } else {
        seq![]
    };
    hello + second + third
}

/// What the first `n` apps are due, one app after the other.
pub open spec fn due_below(seats: Seq<Seat>, state: bool, stations: bool, n: int) -> Seq<Due>
    decreases n,
{
    if n <= 0 {
        seq![]
    } else {
        due_below(seats, state, stations, n - 1) + due_to(seats[n - 1], state, stations)
    }
}

/// Those of the first `n` that aren't this one.
pub open spec fn others_below(seats: Seq<Seat>, id: u64, n: int) -> Seq<Seat>
    decreases n,
{
    if n <= 0 {
        seq![]
    } else if seats[n - 1].id == id {
        others_below(seats, id, n - 1)
    } else {
        others_below(seats, id, n - 1).push(seats[n - 1])
    }
}

impl Roster {
    /// Every app has a number of its own, given out already.
    pub open spec fn sound(self) -> bool {
        &&& forall|i: int, j: int|
            0 <= i < j < self.seats@.len() ==> (#[trigger] self.seats@[i]).id != (
            #[trigger] self.seats@[j]).id
        &&& forall|i: int| 0 <= i < self.seats@.len() ==> (#[trigger] self.seats@[i]).id < self.next
    }

    /// Nobody yet.
    pub fn new() -> (r: Roster)
        ensures
            r.sound(),
            r.seats@.len() == 0,
            r.next == 1,
            r.state@ == ""@,
            r.stations@ == ""@,
    {
        Roster { seats: Vec::new(), next: 1, state: "".to_owned(), stations: "".to_owned() }
    }

    /// One more app, with a number of its own. It is due everything.
    pub fn join(&mut self) -> (r: u64)
        requires
            old(self).sound(),
            old(self).next < u64::MAX,
        ensures
            final(self).sound(),
            r == old(self).next,
            final(self).next == r + 1,
            final(self).state@ == old(self).state@,
            final(self).stations@ == old(self).stations@,
            final(self).seats@ == old(self).seats@.push(Seat { id: r, fresh: true }),
    {
        let id: u64 = self.next;
        self.seats.push(Seat { id, fresh: true });
        self.next = id + 1;
        id
    }

    /// An app leaves, or is let go.
    pub fn leave(&mut self, id: u64)
        requires
            old(self).sound(),
        ensures
            final(self).sound(),
            final(self).next == old(self).next,
            final(self).state@ == old(self).state@,
            final(self).stations@ == old(self).stations@,
            final(self).seats@ == others_below(
                old(self).seats@,
                id,
                old(self).seats@.len() as int,
            ),
    {
        let mut seats: Vec<Seat> = Vec::new();
        let mut i: usize = 0;
        while i < self.seats.len()
            invariant
                i <= self.seats@.len(),
                self.sound(),
                seats@ == others_below(self.seats@, id, i as int),
                forall|k: int|
                    0 <= k < seats@.len() ==> (#[trigger] seats@[k]).id < self.next && exists|j: int|
                        0 <= j < i && (#[trigger] self.seats@[j]).id == seats@[k].id,
                forall|a: int, b: int|
                    0 <= a < b < seats@.len() ==> (#[trigger] seats@[a]).id != (
                    #[trigger] seats@[b]).id,
            decreases self.seats@.len() - i,
        {
            let seat = self.seats[i];
            if seat.id != id {
                seats.push(seat);
                assert(self.seats@[i as int].id == seat.id);
            }
            i += 1;
        }
        self.seats = seats;
    }

    /// The messages due, now that the state and the stations are these: each
    /// goes to every app when it changed since it was last sent, and a newcomer
    /// gets `hello` and both. After that no app is a newcomer.
    pub fn due(&mut self, state: String, stations: String) -> (r: Vec<Due>)
        requires
            old(self).sound(),
        ensures
            final(self).sound(),
            final(self).next == old(self).next,
            final(self).state@ == state@,
            final(self).stations@ == stations@,
            r@ == due_below(
                old(self).seats@,
                state@ != old(self).state@,
                stations@ != old(self).stations@,
                old(self).seats@.len() as int,
            ),
            final(self).seats@.len() == old(self).seats@.len(),
            forall|i: int|
                0 <= i < final(self).seats@.len() ==> #[trigger] final(self).seats@[i] == (Seat {
                    id: old(self).seats@[i].id,
                    fresh: false,
                }),
    {
        let first = !same_text(state.as_str(), self.state.as_str());
        let second = !same_text(stations.as_str(), self.stations.as_str());
        let mut out: Vec<Due> = Vec::new();
        let mut seats: Vec<Seat> = Vec::new();
        let mut i: usize = 0;
        while i < self.seats.len()
            invariant
                i <= self.seats@.len(),
                out@ == due_below(self.seats@, first, second, i as int),
                seats@.len() == i,
                forall|k: int|
                    0 <= k < i ==> #[trigger] seats@[k] == (Seat {
                        id: self.seats@[k].id,
                        fresh: false,
                    }),
            decreases self.seats@.len() - i,
        {
            let seat = self.seats[i];
            let id: u64 = seat.id;
            let ghost was = out@;
            if seat.fresh {
                out.push(Due { id, what: What::Hello });
            }
            if first || seat.fresh {
                out.push(Due { id, what: What::State });
            }
            if second || seat.fresh {
                out.push(Due { id, what: What::Stations });
            }
            assert(out@ =~= was + due_to(seat, first, second));
            seats.push(Seat { id, fresh: false });
            i += 1;
        }
        self.seats = seats;
        self.state = state;
        self.stations = stations;
        out
    }
}

/// What didn't change is due only to newcomers: right after it was sent, to
/// none.
pub proof fn law_what_is_unchanged_is_sent_once(seats: Seq<Seat>, n: int)
    requires
        0 <= n <= seats.len(),
        forall|i: int| 0 <= i < seats.len() ==> !(#[trigger] seats[i]).fresh,
    ensures
        due_below(seats, false, false, n) == Seq::<Due>::empty(),
    decreases n,
{
    if n > 0 {
        law_what_is_unchanged_is_sent_once(seats, n - 1);
        assert(!seats[n - 1].fresh);
        assert(due_to(seats[n - 1], false, false) =~= seq![]);
    }
}

/// A newcomer is sent `hello`, then the state, then the stations, whether or
/// not those changed.
pub proof fn law_a_newcomer_is_sent_hello_state_and_stations(
    seat: Seat,
    state: bool,
    stations: bool,
)
    requires
        seat.fresh,
    ensures
        due_to(seat, state, stations) == seq![
            Due { id: seat.id, what: What::Hello },
            Due { id: seat.id, what: What::State },
            Due { id: seat.id, what: What::Stations },
        ],
{
}

} // verus!
