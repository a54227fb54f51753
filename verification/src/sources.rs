//! What is taken from NDBC, omakeel, the settings and NOMADS, said of the text
//! they send and of what is asked of them.

use crate::config::{listed, EdgesView, Reading, EASTMOST, NORTHMOST, SOUTHMOST, WESTMOST};
use crate::fetch::{
    all_hours,
    checked,
    filter_text,
    has_wind,
    hour_in,
    is_wind,
    law_a_listing_is_read_in_full,
    lemma_run_time,
    links,
    listing,
    newest_ready,
    picked,
    quoted,
    reach,
    search,
    shown,
    shown_runs,
    stale,
    stale_below,
    usable,
    Cached,
    RunView,
    SearchView,
};
use crate::forecast::MAX_HOURS;
use crate::grib::{self, FieldView};
use crate::json::JsonView;
use crate::keel::{update_in, UpdateView};
use crate::number::{rounds_to, spelled, whole, worth};
use crate::obs::{
    alphanumeric,
    chosen,
    cleaned,
    columns_of,
    named,
    names_in,
    names_of,
    number_at,
    position,
    row_says,
    time_in,
    word_at,
    ChoiceView,
    Columns,
    StationView,
};
use crate::promises::is_ten_metre_wind;
use crate::text::{
    all_digits,
    before,
    digit,
    find,
    find_text,
    has_text,
    law_a_text_is_found_wherever_it_stands,
    lemma_find,
    lemma_find_text,
    lemma_padded,
    lemma_padded_value,
    padded,
    space,
    split,
    split_text,
    stands,
    trim,
    trim_end,
    trim_start,
    unquote,
    upper_all,
    value,
};
use crate::time;
use vstd::arithmetic::power2::lemma_pow2_pos;
use vstd::prelude::*;

verus! {

// --- NDBC's reports ---------------------------------------------------------------------

/// Whether a row's `i`th word stands under the first heading of a name.
pub open spec fn is_under(heads: Seq<Seq<char>>, name: Seq<char>, row: Seq<Seq<char>>, i: int) -> bool {
    &&& 0 <= i < heads.len() && i < row.len()
    &&& heads[i] == name
    &&& forall|j: int| 0 <= j < i ==> #[trigger] heads[j] != name
}

/// Whether a row has this word under the first heading of a name.
pub open spec fn under(
    heads: Seq<Seq<char>>,
    name: Seq<char>,
    row: Seq<Seq<char>>,
    word: Seq<char>,
) -> bool {
    exists|i: int| #[trigger] is_under(heads, name, row, i) && row[i] == word
}

/// Whether a row has a number under a heading.
pub open spec fn number_under(
    heads: Seq<Seq<char>>,
    name: Seq<char>,
    row: Seq<Seq<char>>,
    bits: u64,
) -> bool {
    exists|i: int| #[trigger] is_under(heads, name, row, i) && spelled(row[i]) == Some(bits)
}

proof fn lemma_position(heads: Seq<Seq<char>>, name: Seq<char>, from: int)
    requires
        0 <= from,
        heads.len() <= usize::MAX,
    ensures
        position(heads, name, from) matches Some(i) ==> {
            &&& from <= i < heads.len()
            &&& heads[i as int] == name
            &&& forall|j: int| from <= j < i ==> #[trigger] heads[j] != name
        },
        position(heads, name, from) is None ==> forall|j: int|
            from <= j < heads.len() ==> #[trigger] heads[j] != name,
    decreases heads.len() - from,
{
    if from < heads.len() && heads[from] != name {
        lemma_position(heads, name, from + 1);
    }
}

/// A column is where its heading stands first, and what a row has there is what
/// it has under that heading.
proof fn lemma_under(heads: Seq<Seq<char>>, name: Seq<char>, row: Seq<Seq<char>>, c: usize)
    requires
        heads.len() <= usize::MAX,
        position(heads, name, 0) == Some(c),
    ensures
        c < row.len() <==> is_under(heads, name, row, c as int),
        forall|i: int| #[trigger] is_under(heads, name, row, i) ==> i == c,
        forall|bits: u64|
            number_at(row, c) == Some(bits) <==> #[trigger] number_under(heads, name, row, bits),
{
    lemma_position(heads, name, 0);
    assert forall|i: int| #[trigger] is_under(heads, name, row, i) implies i == c by {
        if i < c {
            assert(heads[i] != name);
        } else if c < i {
            assert(heads[c as int] != name);
        }
    }
    assert forall|bits: u64|
        number_at(row, c) == Some(bits) <==> #[trigger] number_under(heads, name, row, bits) by {
        if number_at(row, c) == Some(bits) {
            assert(is_under(heads, name, row, c as int));
        }
    }
}

/// Whether a row's date and time, under their headings, are a moment.
pub open spec fn taken_at(heads: Seq<Seq<char>>, row: Seq<Seq<char>>, t: int) -> bool {
    exists|y: Seq<char>, m: Seq<char>, d: Seq<char>, h: Seq<char>, min: Seq<char>|
        {
            &&& #[trigger] under(heads, "YYYY"@, row, y)
            &&& #[trigger] under(heads, "MM"@, row, m)
            &&& #[trigger] under(heads, "DD"@, row, d)
            &&& #[trigger] under(heads, "hh"@, row, h)
            &&& #[trigger] under(heads, "mm"@, row, min)
            &&& time::iso_value(
                y + seq!['-'] + m + seq!['-'] + d + seq!['T'] + h + seq![':'] + min + seq!['Z'],
            ) == Some(t)
        }
}

/// Whether a row reports this, by its words under the headings: speed up to 100
/// m/s, gusts up to 150, and a direction up to 360 degrees, which is north,
/// without which only a calm is reported.
pub open spec fn reports(heads: Seq<Seq<char>>, row: Seq<Seq<char>>, s: StationView) -> bool {
    &&& exists|id: Seq<char>| #[trigger]
        under(heads, "STN"@, row, id) && s.id == upper_all(id) && id.len() <= 12 && forall|i: int|
            0 <= i < id.len() ==> alphanumeric(#[trigger] id[i])
    &&& s.name is None
    &&& number_under(heads, "LAT"@, row, s.lat) && whole(-90) <= worth(s.lat) <= whole(90)
    &&& number_under(heads, "LON"@, row, s.lon) && whole(-180) <= worth(s.lon) <= whole(180)
    &&& taken_at(heads, row, s.time)
    &&& number_under(heads, "WSPD"@, row, s.speed) && 0 <= worth(s.speed) <= whole(100)
    &&& match s.from_deg {
        Some(x) => 0 <= worth(x) < whole(360) && (number_under(heads, "WDIR"@, row, x) || (worth(x)
            == 0 && exists|b: u64| #[trigger]
            number_under(heads, "WDIR"@, row, b) && worth(b) == whole(360))),
        None => worth(s.speed) == 0 && forall|b: u64| #[trigger]
            number_under(heads, "WDIR"@, row, b) ==> !(0 <= worth(b) <= whole(360)),
    }
    &&& match s.gust {
        Some(x) => number_under(heads, "GST"@, row, x) && 0 <= worth(x) <= whole(150),
        None => forall|b: u64| #[trigger]
            number_under(heads, "GST"@, row, b) ==> !(0 <= worth(b) <= whole(150)),
    }
}

/// The headings a report is read by.
pub open spec fn has_headings(heads: Seq<Seq<char>>) -> bool {
    &&& heads.contains("STN"@) && heads.contains("LAT"@) && heads.contains("LON"@)
    &&& heads.contains("YYYY"@) && heads.contains("MM"@) && heads.contains("DD"@)
    &&& heads.contains("hh"@) && heads.contains("mm"@)
    &&& heads.contains("WDIR"@) && heads.contains("WSPD"@) && heads.contains("GST"@)
}

proof fn lemma_columns(heads: Seq<Seq<char>>, c: Columns)
    requires
        heads.len() <= usize::MAX,
        columns_of(heads) == Ok::<Columns, Seq<char>>(c),
    ensures
        position(heads, "STN"@, 0) == Some(c.stn),
        position(heads, "LAT"@, 0) == Some(c.lat),
        position(heads, "LON"@, 0) == Some(c.lon),
        position(heads, "YYYY"@, 0) == Some(c.year),
        position(heads, "MM"@, 0) == Some(c.month),
        position(heads, "DD"@, 0) == Some(c.day),
        position(heads, "hh"@, 0) == Some(c.hour),
        position(heads, "mm"@, 0) == Some(c.minute),
        position(heads, "WDIR"@, 0) == Some(c.wdir),
        position(heads, "WSPD"@, 0) == Some(c.wspd),
        position(heads, "GST"@, 0) == Some(c.gst),
{
}

proof fn lemma_time_under(heads: Seq<Seq<char>>, row: Seq<Seq<char>>, c: Columns, t: int)
    requires
        heads.len() <= usize::MAX,
        columns_of(heads) == Ok::<Columns, Seq<char>>(c),
    ensures
        time_in(row, c) == Some(t) <==> taken_at(heads, row, t),
{
    lemma_columns(heads, c);
    lemma_under(heads, "YYYY"@, row, c.year);
    lemma_under(heads, "MM"@, row, c.month);
    lemma_under(heads, "DD"@, row, c.day);
    lemma_under(heads, "hh"@, row, c.hour);
    lemma_under(heads, "mm"@, row, c.minute);
    reveal_strlit("-");
    reveal_strlit("T");
    reveal_strlit(":");
    reveal_strlit("Z");
    assert("-"@ =~= seq!['-'] && "T"@ =~= seq!['T'] && ":"@ =~= seq![':'] && "Z"@ =~= seq!['Z']);
    if time_in(row, c) == Some(t) {
        assert(under(heads, "YYYY"@, row, word_at(row, c.year)->0));
        assert(under(heads, "MM"@, row, word_at(row, c.month)->0));
        assert(under(heads, "DD"@, row, word_at(row, c.day)->0));
        assert(under(heads, "hh"@, row, word_at(row, c.hour)->0));
        assert(under(heads, "mm"@, row, word_at(row, c.minute)->0));
    }
}

proof fn lemma_north()
    ensures
        worth(0u64) == 0,
        whole(360) > 0,
{
    lemma_pow2_pos(1074);
}

/// A file's rows are read by its headings, wherever they stand: a report is what
/// its row has under each. The headings are enough to read it, and a row that
/// reports is never left out.
#[verifier::spinoff_prover]
pub proof fn law_a_report_is_read_by_its_headings(
    heads: Seq<Seq<char>>,
    row: Seq<Seq<char>>,
    s: StationView,
)
    requires
        heads.len() <= usize::MAX,
    ensures
        columns_of(heads) is Ok <==> has_headings(heads),
        columns_of(heads) matches Ok(c) ==> (row_says(row, c) == Some(Some(s)) ==> reports(
            heads,
            row,
            s,
        )),
        columns_of(heads) matches Ok(c) ==> (reports(heads, row, s) ==> (row_says(
            row,
            c,
        ) matches Some(Some(_)))),
{
    lemma_headings(heads);
    if let Ok(c) = columns_of(heads) {
        lemma_columns(heads, c);
        lemma_under(heads, "STN"@, row, c.stn);
        lemma_under(heads, "LAT"@, row, c.lat);
        lemma_under(heads, "LON"@, row, c.lon);
        lemma_under(heads, "WDIR"@, row, c.wdir);
        lemma_under(heads, "WSPD"@, row, c.wspd);
        lemma_under(heads, "GST"@, row, c.gst);
        lemma_time_under(heads, row, c, s.time);
        if row_says(row, c) == Some(Some(s)) {
            assert(under(heads, "STN"@, row, row[c.stn as int]));
            assert(number_under(heads, "LAT"@, row, s.lat));
            assert(number_under(heads, "LON"@, row, s.lon));
            assert(number_under(heads, "WSPD"@, row, s.speed));
            if let Some(x) = s.from_deg {
                let b = number_at(row, c.wdir)->0;
                assert(number_under(heads, "WDIR"@, row, b));
                lemma_north();
                assert(0 <= worth(x) < whole(360));
            } else {
                assert(worth(s.speed) == 0);
            }
            if let Some(x) = s.gust {
                assert(number_under(heads, "GST"@, row, x));
            }
        }
    }
}

proof fn lemma_heading(heads: Seq<Seq<char>>, name: Seq<char>)
    requires
        heads.len() <= usize::MAX,
    ensures
        position(heads, name, 0) is Some <==> heads.contains(name),
{
    lemma_position(heads, name, 0);
}

proof fn lemma_headings(heads: Seq<Seq<char>>)
    requires
        heads.len() <= usize::MAX,
    ensures
        columns_of(heads) is Ok <==> has_headings(heads),
{
    lemma_heading(heads, "STN"@);
    lemma_heading(heads, "LAT"@);
    lemma_heading(heads, "LON"@);
    lemma_heading(heads, "YYYY"@);
    lemma_heading(heads, "MM"@);
    lemma_heading(heads, "DD"@);
    lemma_heading(heads, "hh"@);
    lemma_heading(heads, "mm"@);
    lemma_heading(heads, "WDIR"@);
    lemma_heading(heads, "WSPD"@);
    lemma_heading(heads, "GST"@);
}

// --- omakeel's messages -------------------------------------------------------------------

/// Whether a fix has this number under a name.
pub open spec fn fix_says(fix: JsonView, name: Seq<char>, bits: u64) -> bool {
    fix.get(name) matches Some(j) && j.float() == Some(bits)
}

/// Whether a fix has a position, on Earth.
pub open spec fn fix_is_at(fix: JsonView, lat: u64, lon: u64) -> bool {
    &&& fix_says(fix, "lat"@, lat) && whole(-90) <= worth(lat) <= whole(90)
    &&& fix_says(fix, "lon"@, lon) && whole(-180) <= worth(lon) <= whole(180)
}

/// A state message of version 1 puts the boat where its fix's `lat` and `lon`
/// say, as its current position just when the fix is `ok`; a fix without a
/// position on Earth, or with the status `none` or no status, puts it nowhere.
/// A message of any other version says only which that is.
pub proof fn law_a_fix_puts_the_boat(m: JsonView, fix: JsonView, status: Seq<char>, lat: u64, lon: u64)
    requires
        m.get("v"@) matches Some(v) && v.unsigned() == Some(1u64),
        m.get("type"@) == Some(JsonView::Text("state"@)),
        m.get("fix"@) == Some(fix),
    ensures
        fix.get("status"@) == Some(JsonView::Text(status)) && status != "none"@ && fix_is_at(
            fix,
            lat,
            lon,
        ) ==> (update_in(m) matches Some(UpdateView::Boat(Some(boat))) && boat.lat == lat && boat.lon
            == lon && (boat.current <==> status == "ok"@)),
        update_in(m) matches Some(UpdateView::Boat(Some(boat))) ==> fix_is_at(
            fix,
            boat.lat,
            boat.lon,
        ) && fix.get("status"@) is Some && fix.get("status"@) != Some(JsonView::Text("none"@)),
        update_in(m) matches Some(UpdateView::Boat(_)),
{
}

/// A message of another version says only which that is.
pub proof fn law_another_version_is_not_read(m: JsonView, v: u64)
    requires
        m.get("v"@) matches Some(j) && j.unsigned() == Some(v),
        v != 1,
    ensures
        update_in(m) == Some(UpdateView::Incompatible(v)),
{
}

/// A message with no version, or of another kind than a state, says nothing.
pub proof fn law_other_messages_say_nothing(m: JsonView)
    requires
        !(m.get("v"@) matches Some(j) && j.unsigned() is Some) || (m.get("v"@) matches Some(j)
            && j.unsigned() == Some(1u64) && m.get("type"@) != Some(JsonView::Text("state"@))),
    ensures
        update_in(m) is None,
{
}

// --- Settings -----------------------------------------------------------------------------

/// A word of a setting's value: neither empty nor with a blank, comma, quote or
/// `#` in it.
pub open spec fn plain(w: Seq<char>) -> bool {
    &&& w.len() > 0
    &&& forall|i: int|
        0 <= i < w.len() ==> !space(#[trigger] w[i]) && w[i] != ',' && w[i] != '"' && w[i] != '#'
}

/// White space alone.
pub open spec fn blank(s: Seq<char>) -> bool {
    forall|i: int| 0 <= i < s.len() ==> space(#[trigger] s[i])
}

/// What may follow a setting on its line: nothing, or a comment.
pub open spec fn remark(s: Seq<char>) -> bool {
    s.len() == 0 || s[0] == '#'
}

proof fn lemma_trim_start_blank(x: Seq<char>, w: Seq<char>)
    requires
        blank(x),
        w.len() > 0,
        !space(w[0]),
    ensures
        trim_start(x + w) == w,
    decreases x.len(),
{
    if x.len() > 0 {
        assert((x + w)[0] == x[0]);
        assert((x + w).skip(1) =~= x.skip(1) + w);
        assert forall|i: int| 0 <= i < x.skip(1).len() implies space(#[trigger] x.skip(1)[i]) by {
            assert(x.skip(1)[i] == x[i + 1]);
        }
        lemma_trim_start_blank(x.skip(1), w);
    } else {
        assert(x + w =~= w);
    }
}

proof fn lemma_trim_end_blank(w: Seq<char>, y: Seq<char>)
    requires
        blank(y),
        w.len() > 0,
        !space(w.last()),
    ensures
        trim_end(w + y) == w,
    decreases y.len(),
{
    if y.len() > 0 {
        assert((w + y).last() == y[y.len() - 1]);
        assert((w + y).drop_last() =~= w + y.drop_last());
        assert forall|i: int| 0 <= i < y.drop_last().len() implies space(
            #[trigger] y.drop_last()[i],
        ) by {
            assert(y.drop_last()[i] == y[i]);
        }
        lemma_trim_end_blank(w, y.drop_last());
    } else {
        assert(w + y =~= w);
    }
}

/// Trimming takes off the white space around a text, and nothing else.
pub proof fn law_trimming_takes_off_blanks(x: Seq<char>, w: Seq<char>, y: Seq<char>)
    requires
        blank(x),
        blank(y),
        w.len() > 0,
        !space(w[0]) && !space(w.last()),
    ensures
        trim(x + w + y) == w,
{
    assert(x + w + y =~= x + (w + y));
    assert((w + y)[0] == w[0]);
    lemma_trim_start_blank(x, w + y);
    lemma_trim_end_blank(w, y);
}

/// A character is found just after a text without it.
proof fn lemma_found_after(a: Seq<char>, c: char, rest: Seq<char>)
    requires
        forall|i: int| 0 <= i < a.len() ==> #[trigger] a[i] != c,
        rest.len() == 0 || rest[0] == c,
    ensures
        find(a + rest, c, 0) == a.len(),
{
    let s = a + rest;
    lemma_find(s, c, 0);
    let k = find(s, c, 0);
    if k < a.len() {
        assert(s[k] == a[k]);
    } else if k > a.len() {
        assert(s[a.len() as int] == rest[0]);
    }
}

/// A text is cut at a comma after a piece without one.
proof fn lemma_cut(a: Seq<char>, c: char, rest: Seq<char>)
    requires
        forall|i: int| 0 <= i < a.len() ==> #[trigger] a[i] != c,
    ensures
        split(a, c) == seq![a],
        split(a + seq![c] + rest, c) == seq![a] + split(rest, c),
{
    lemma_found_after(a, c, seq![]);
    assert(a + Seq::<char>::empty() =~= a);
    let s = a + seq![c] + rest;
    assert(s =~= a + (seq![c] + rest));
    lemma_found_after(a, c, seq![c] + rest);
    assert(s.take(a.len() as int) =~= a);
    assert(s.skip(a.len() as int + 1) =~= rest);
}

proof fn lemma_unquoted(v: Seq<char>)
    requires
        v.len() > 0,
        v[0] != '"',
        v.last() != '"',
    ensures
        unquote(v) == v,
{
}

/// A line that sets something to a value is read as setting it, whatever remark
/// follows it.
proof fn lemma_line_sets(r: Reading, key: Seq<char>, v: Seq<char>, tail: Seq<char>, n: int)
    requires
        plain(key),
        key[0] != '[',
        forall|i: int| 0 <= i < key.len() ==> #[trigger] key[i] != '=',
        v.len() > 0,
        !space(v[0]) && !space(v.last()),
        v[0] != '"' && v.last() != '"',
        forall|i: int| 0 <= i < v.len() ==> #[trigger] v[i] != '#',
        remark(tail),
    ensures
        r.line(key + seq![' ', '=', ' '] + v + tail, n) == r.set(key, v),
{
    let body = key + seq![' ', '=', ' '] + v;
    let line = body + tail;
    assert(seq![' ', '=', ' '].len() == 3);
    assert forall|i: int| 0 <= i < body.len() implies #[trigger] body[i] != '#' by {
        if i < key.len() {
            assert(body[i] == key[i]);
        } else if i >= key.len() + 3 {
            assert(body[i] == v[i - key.len() - 3]);
        }
    }
    lemma_found_after(body, '#', tail);
    assert(line.take(body.len() as int) =~= body);
    assert(body[0] == key[0]);
    assert(body.last() == v.last());
    let none = Seq::<char>::empty();
    law_trimming_takes_off_blanks(none, body, none);
    assert(none + body + none =~= body);
    assert forall|i: int| 0 <= i < (key + seq![' ']).len() implies #[trigger] (key + seq![' '])[i]
        != '=' by {
        if i < key.len() {
            assert((key + seq![' '])[i] == key[i]);
        }
    }
    assert(body =~= (key + seq![' ']) + (seq!['=', ' '] + v));
    lemma_found_after(key + seq![' '], '=', seq!['=', ' '] + v);
    let i = key.len() as int + 1;
    assert(body.take(i) =~= none + key + seq![' ']);
    assert(key.last() == key[key.len() - 1]);
    law_trimming_takes_off_blanks(none, key, seq![' ']);
    assert(body.skip(i + 1) =~= seq![' '] + v + none);
    law_trimming_takes_off_blanks(seq![' '], v, none);
    lemma_unquoted(v);
}

/// What a piece of a list spells, with a blank before it.
proof fn lemma_piece(w: Seq<char>)
    requires
        plain(w),
    ensures
        trim(w) == w,
        trim(seq![' '] + w) == w,
        forall|i: int| 0 <= i < (seq![' '] + w).len() ==> #[trigger] (seq![' '] + w)[i] != ',',
{
    let none = Seq::<char>::empty();
    assert(w.last() == w[w.len() - 1]);
    law_trimming_takes_off_blanks(none, w, none);
    assert(none + w + none =~= w);
    law_trimming_takes_off_blanks(seq![' '], w, none);
    assert(seq![' '] + w + none =~= seq![' '] + w);
    assert forall|i: int| 0 <= i < (seq![' '] + w).len() implies #[trigger] (seq![' '] + w)[i]
        != ',' by {
        if i > 0 {
            assert((seq![' '] + w)[i] == w[i - 1]);
        }
    }
}

/// `a, b, c, d`.
pub open spec fn four(a: Seq<char>, b: Seq<char>, c: Seq<char>, d: Seq<char>) -> Seq<char> {
    a + seq![','] + (seq![' '] + b) + seq![','] + (seq![' '] + c) + seq![','] + (seq![' '] + d)
}

#[verifier::spinoff_prover]
proof fn lemma_four(a: Seq<char>, b: Seq<char>, c: Seq<char>, d: Seq<char>)
    requires
        plain(a) && plain(b) && plain(c) && plain(d),
    ensures
        listed(four(a, b, c, d)) == seq![spelled(a), spelled(b), spelled(c), spelled(d)],
{
    lemma_piece(a);
    lemma_piece(b);
    lemma_piece(c);
    lemma_piece(d);
    let (b1, c1, d1) = (seq![' '] + b, seq![' '] + c, seq![' '] + d);
    let s3 = c1 + seq![','] + d1;
    let s2 = b1 + seq![','] + s3;
    let s1 = a + seq![','] + s2;
    assert(four(a, b, c, d) =~= s1);
    lemma_cut(d1, ',', seq![]);
    lemma_cut(c1, ',', d1);
    lemma_cut(b1, ',', s3);
    lemma_cut(a, ',', s2);
    let pieces = seq![a, b1, c1, d1];
    assert(split(s1, ',') =~= pieces);
    assert(listed(s1) =~= seq![spelled(a), spelled(b), spelled(c), spelled(d)]);
}

proof fn lemma_four_is_a_value(a: Seq<char>, b: Seq<char>, c: Seq<char>, d: Seq<char>)
    requires
        plain(a) && plain(b) && plain(c) && plain(d),
    ensures
        ({
            let v = four(a, b, c, d);
            &&& v.len() > 0
            &&& !space(v[0]) && !space(v.last()) && v[0] != '"' && v.last() != '"'
            &&& forall|i: int| 0 <= i < v.len() ==> #[trigger] v[i] != '#'
        }),
{
    let v = four(a, b, c, d);
    let (i, j, k) = (a.len() + 2, a.len() + b.len() + 4, a.len() + b.len() + c.len() + 6);
    assert(v.len() == k + d.len());
    assert(v[0] == a[0]);
    assert(v.last() == d[d.len() - 1]);
    assert forall|x: int| 0 <= x < v.len() implies #[trigger] v[x] != '#' by {
        if x < a.len() {
            assert(v[x] == a[x]);
        } else if i <= x < i + b.len() {
            assert(v[x] == b[x - i]);
        } else if j <= x < j + c.len() {
            assert(v[x] == c[x - j]);
        } else if k <= x {
            assert(v[x] == d[x - k]);
        }
    }
}

/// Whether edges are a region that can be forecast: the right way round, no
/// more than 8 by 10 degrees, and inside HRRR's reach.
pub open spec fn can_be_forecast(south: u64, west: u64, north: u64, east: u64) -> bool {
    &&& worth(south) < worth(north) && worth(west) < worth(east)
    &&& worth(north) - worth(south) <= rounds_to(8) && worth(east) - worth(west) <= rounds_to(10)
    &&& worth(SOUTHMOST) <= worth(south) && worth(north) <= worth(NORTHMOST)
    &&& worth(WESTMOST) <= worth(west) && worth(east) <= worth(EASTMOST)
}

/// A line `region = a, b, c, d`, with a remark after it or not, sets the region
/// to one from latitude `a` to `c` and longitude `b` to `d`, if that can be
/// forecast. It leaves home as it is, and is a problem only if it sets nothing.
pub proof fn law_a_region_is_set_by_its_line(
    r: Reading,
    a: Seq<char>,
    b: Seq<char>,
    c: Seq<char>,
    d: Seq<char>,
    tail: Seq<char>,
    n: int,
)
    requires
        plain(a) && plain(b) && plain(c) && plain(d),
        remark(tail),
    ensures
        ({
            let after = r.line("region = "@ + four(a, b, c, d) + tail, n);
            let set = after.settings.region;
            &&& after.settings.home == r.settings.home
            &&& if spelled(a) is Some && spelled(b) is Some && spelled(c) is Some && spelled(d)
                is Some && can_be_forecast(
                spelled(a)->0,
                spelled(b)->0,
                spelled(c)->0,
                spelled(d)->0,
            ) {
                &&& after.problems == r.problems
                &&& Some(set.south) == spelled(a) && Some(set.north) == spelled(c)
                &&& Some(set.west) == spelled(b) && Some(set.east) == spelled(d)
            } else {
                &&& set == r.settings.region
                &&& after.problems.len() == r.problems.len() + 1
                &&& after.problems.drop_last() == r.problems
            }
        }),
{
    reveal_strlit("region = ");
    reveal_strlit("region");
    let key = "region"@;
    assert("region = "@ =~= key + seq![' ', '=', ' ']);
    lemma_four(a, b, c, d);
    lemma_four_is_a_value(a, b, c, d);
    assert(plain(key));
    lemma_line_sets(r, key, four(a, b, c, d), tail, n);
    let after = r.set(key, four(a, b, c, d));
    if after.problems.len() > r.problems.len() {
        assert(after.problems.drop_last() =~= r.problems);
    }
}

/// A line `home = a, b`, with a remark after it or not, sets home to latitude
/// `a` and longitude `b`, if that is on Earth. It leaves the region as it is,
/// and is a problem only if it sets nothing.
pub proof fn law_home_is_set_by_its_line(
    r: Reading,
    a: Seq<char>,
    b: Seq<char>,
    tail: Seq<char>,
    n: int,
)
    requires
        plain(a) && plain(b),
        remark(tail),
    ensures
        ({
            let after = r.line("home = "@ + a + ", "@ + b + tail, n);
            &&& after.settings.region == r.settings.region
            &&& if spelled(a) is Some && spelled(b) is Some && whole(-90) <= worth(spelled(a)->0)
                <= whole(90) && whole(-180) <= worth(spelled(b)->0) <= whole(180) {
                &&& after.problems == r.problems
                &&& Some(after.settings.home.0) == spelled(a)
                &&& Some(after.settings.home.1) == spelled(b)
            } else {
                &&& after.settings.home == r.settings.home
                &&& after.problems.len() == r.problems.len() + 1
                &&& after.problems.drop_last() == r.problems
            }
        }),
{
    reveal_strlit("home = ");
    reveal_strlit("home");
    reveal_strlit("region");
    reveal_strlit(", ");
    let key = "home"@;
    assert("home = "@ =~= key + seq![' ', '=', ' ']);
    assert(key.len() == 4 && "region"@.len() == 6);
    let v = a + (seq![','] + (seq![' '] + b));
    assert("home = "@ + a + ", "@ + b + tail =~= key + seq![' ', '=', ' '] + v + tail);
    assert(v[0] == a[0]);
    assert(v.last() == b[b.len() - 1]);
    assert forall|x: int| 0 <= x < v.len() implies #[trigger] v[x] != '#' by {
        if x < a.len() {
            assert(v[x] == a[x]);
        } else if x >= a.len() + 2 {
            assert(v[x] == b[x - a.len() - 2]);
        }
    }
    assert(plain(key));
    lemma_line_sets(r, key, v, tail, n);
    lemma_piece(a);
    lemma_piece(b);
    lemma_found_after(a, ',', seq![','] + (seq![' '] + b));
    assert(v.take(a.len() as int) =~= a);
    assert(v.skip(a.len() as int + 1) =~= seq![' '] + b);
    let after = r.set(key, v);
    if after.problems.len() > r.problems.len() {
        assert(after.problems.drop_last() =~= r.problems);
    }
}

// --- Stations' names ----------------------------------------------------------------------

/// A copy of the names under a week old is used as it is, and NDBC isn't asked;
/// an older one is asked for again, and used only if that gives no names.
pub proof fn law_names_are_kept_for_a_week(
    url: Seq<char>,
    age: Option<u64>,
    kept: Seq<char>,
    fetched: Option<Result<Seq<char>, Seq<char>>>,
)
    requires
        exists|id: Seq<char>| #[trigger] names_of(kept).contains_key(id),
    ensures
        ({
            let young = age matches Some(a) && a < 7 * 24 * 3600;
            let c = chosen(url, age, Some(kept), fetched);
            &&& young ==> c == ChoiceView::Kept(names_of(kept))
            &&& !young && fetched is None ==> c is Ask
            &&& !young && (fetched matches Some(Err(_))) ==> c == ChoiceView::Kept(names_of(kept))
            &&& !young ==> (fetched matches Some(Ok(text)) ==> c == if names_of(text)
                == Map::<Seq<char>, Seq<char>>::empty() {
                ChoiceView::Kept(names_of(kept))
            } else {
                ChoiceView::Fetched(names_of(text))
            })
        }),
{
    let id = choose|id: Seq<char>| #[trigger] names_of(kept).contains_key(id);
    assert(!names_of(kept).is_empty());
    if let Some(Ok(text)) = fetched {
        if names_of(text).is_empty() {
            assert(names_of(text) =~= Map::<Seq<char>, Seq<char>>::empty());
        }
    }
}

/// Naming a report changes its name alone: to what the table has for its id, or
/// to none.
pub proof fn law_naming_changes_the_name_alone(s: StationView, names: Map<Seq<char>, Seq<char>>)
    ensures
        names.contains_key(s.id) ==> named(s, names).name == Some(names[s.id]),
        !names.contains_key(s.id) ==> named(s, names).name is None,
        named(s, names) == (StationView { name: named(s, names).name, ..s }),
{
}

/// A row of NDBC's table names the station in its first field by its fifth, the
/// id in capitals; a later row of the same station goes over an earlier.
pub proof fn law_a_station_is_named_by_its_last_row(
    rows: Seq<Seq<char>>,
    id: Seq<char>,
    name: Seq<char>,
    a: Seq<char>,
    b: Seq<char>,
    c: Seq<char>,
    d: Seq<char>,
)
    requires
        plain(id) && id[0] != '#',
        forall|i: int|
            #![trigger id[i]]
            0 <= i < id.len() ==> id[i] != '|',
        forall|i: int| 0 <= i < a.len() ==> #[trigger] a[i] != '|',
        forall|i: int| 0 <= i < b.len() ==> #[trigger] b[i] != '|',
        forall|i: int| 0 <= i < c.len() ==> #[trigger] c[i] != '|',
        forall|i: int| 0 <= i < d.len() ==> #[trigger] d[i] != '|',
        cleaned(d) == Some(name),
    ensures
        names_in(rows.push(table_row(id, a, b, c, d)))[upper_all(id)] == name,
        names_in(rows.push(table_row(id, a, b, c, d))).contains_key(upper_all(id)),
        forall|other: Seq<char>|
            other != upper_all(id) ==> names_in(rows.push(table_row(id, a, b, c, d))).contains_key(
                other,
            ) == #[trigger] names_in(rows).contains_key(other),
{
    let row = table_row(id, a, b, c, d);
    let bar = seq!['|'];
    let s4 = c + bar + d;
    let s3 = b + bar + s4;
    let s2 = a + bar + s3;
    assert(row =~= id + bar + s2);
    lemma_cut(d, '|', seq![]);
    lemma_cut(c, '|', d);
    lemma_cut(b, '|', s4);
    lemma_cut(a, '|', s3);
    lemma_cut(id, '|', s2);
    assert(split(row, '|') =~= seq![id, a, b, c, d]);
    lemma_piece(id);
    assert(row[0] == id[0]);
    assert(rows.push(row).drop_last() =~= rows);
    assert(rows.push(row).last() == row);
}

/// A row of NDBC's table, as far as the name.
pub open spec fn table_row(
    id: Seq<char>,
    a: Seq<char>,
    b: Seq<char>,
    c: Seq<char>,
    name: Seq<char>,
) -> Seq<char> {
    id + seq!['|'] + a + seq!['|'] + b + seq!['|'] + c + seq!['|'] + name
}

// --- NOMADS's listings --------------------------------------------------------------------

/// The name NOMADS gives an hour of a run: `hrrr.t03z.wrfsfcf01.grib2`.
pub open spec fn hour_name(run: nat, hour: nat) -> Seq<char> {
    "hrrr.t"@ + padded(run, 2) + "z.wrfsfcf"@ + padded(hour, 2) + ".grib2"@
}

/// An hour's name says which run and hour it is of.
pub proof fn law_an_hour_is_known_by_its_name(run: nat, hour: nat)
    requires
        run < 100,
        hour < 100,
    ensures
        hour_in(hour_name(run, hour)) == Some((run as int, hour as int)),
{
    reveal_strlit("hrrr.t");
    reveal_strlit("z.wrfsfcf");
    reveal_strlit(".grib2");
    lemma_padded(run, 2);
    lemma_padded(hour, 2);
    let name = hour_name(run, hour);
    assert(name.subrange(0, 6) =~= "hrrr.t"@);
    assert(name.subrange(6, 8) =~= padded(run, 2));
    assert(name.subrange(8, 17) =~= "z.wrfsfcf"@);
    assert(name.subrange(17, 19) =~= padded(hour, 2));
    assert(name.subrange(19, 25) =~= ".grib2"@);
}

/// What begins a link.
pub open spec fn href() -> Seq<char> {
    seq!['h', 'r', 'e', 'f', '=', '"']
}

proof fn lemma_href()
    ensures
        "href=\""@ == href(),
{
    reveal_strlit("href=\"");
    assert("href=\""@ =~= href());
}

/// Two links don't begin inside one another.
proof fn lemma_apart(s: Seq<char>, i: int, j: int)
    requires
        stands(s, href(), i),
        stands(s, href(), j),
        i < j,
    ensures
        i + 6 <= j,
{
    if j < i + 6 {
        assert(s.subrange(i, i + 6)[j - i] == s[j]);
        assert(s.subrange(j, j + 6)[0] == s[j]);
        assert(href()[j - i] != 'h');
    }
}

/// Where a link begins, a piece of the page does.
proof fn lemma_pieces(s: Seq<char>, k: int) -> (i: int)
    requires
        stands(s, href(), k),
    ensures
        1 <= i < split_text(s, href()).len(),
        split_text(s, href())[i] == split_text(s.skip(k + 6), href())[0],
    decreases s.len(),
{
    lemma_find_text(s, href(), 0);
    let f = find_text(s, href(), 0);
    assert(f <= k) by {
        if k < f {
            assert(!stands(s, href(), k));
        }
    }
    let rest = s.skip(f + 6);
    assert(split_text(s, href()) == seq![s.take(f)] + split_text(rest, href()));
    if f == k {
        lemma_some_piece(rest);
        1
    } else {
        lemma_apart(s, f, k);
        assert(rest.subrange(k - f - 6, k - f) =~= s.subrange(k, k + 6));
        let i = lemma_pieces(rest, k - f - 6);
        assert(rest.skip(k - f) =~= s.skip(k + 6));
        i + 1
    }
}

proof fn lemma_some_piece(s: Seq<char>)
    ensures
        split_text(s, href()).len() > 0,
{
}

/// The piece a link begins leads to what stands before the next quote.
proof fn lemma_leads(name: Seq<char>, rest: Seq<char>)
    requires
        name.len() > 0,
        forall|i: int| 0 <= i < name.len() ==> #[trigger] name[i] != '"',
        name.last() != '=',
    ensures
        quoted(split_text(name + seq!['"'] + rest, href())[0]) == name
            || exists|i: int| 0 <= i < name.len() && #[trigger] stands(name + seq!['"'] + rest, href(), i),
{
    let s = name + seq!['"'] + rest;
    let n = name.len() as int;
    lemma_find_text(s, href(), 0);
    let f = find_text(s, href(), 0);
    let piece = split_text(s, href())[0];
    if f + 6 <= s.len() {
        if f < n {
            assert(stands(s, href(), f));
        } else {
            if f == n {
                assert(s.subrange(f, f + 6)[0] == '"');
            }
            assert(piece == s.take(f));
            assert(piece =~= name + (seq!['"'] + rest).take(f - n));
            lemma_found_after(name, '"', (seq!['"'] + rest).take(f - n));
            assert(piece.take(n) =~= name);
        }
    } else {
        assert(piece == s);
        assert(s =~= name + (seq!['"'] + rest));
        lemma_found_after(name, '"', seq!['"'] + rest);
        assert(s.take(n) =~= name);
    }
}

/// No link begins in an hour's name.
proof fn lemma_no_link_inside(run: nat, hour: nat, rest: Seq<char>)
    requires
        run < 100,
        hour < 100,
    ensures
        ({
            let name = hour_name(run, hour);
            &&& name.len() == 25
            &&& name.last() == '2'
            &&& forall|i: int| 0 <= i < 25 ==> #[trigger] name[i] != '"' && name[i] != '='
            &&& forall|i: int| 0 <= i < 25 ==> !#[trigger] stands(name + seq!['"'] + rest, href(), i)
        }),
{
    reveal_strlit("hrrr.t");
    reveal_strlit("z.wrfsfcf");
    reveal_strlit(".grib2");
    lemma_padded(run, 2);
    lemma_padded(hour, 2);
    let name = hour_name(run, hour);
    let s = name + seq!['"'] + rest;
    assert(name[0] == 'h' && name[1] == 'r' && name[2] == 'r');
    assert forall|i: int| 0 <= i < 25 implies #[trigger] name[i] != '"' && name[i] != '=' && (i > 0
        ==> name[i] != 'h') by {
        if 6 <= i < 8 {
            assert(name[i] == padded(run, 2)[i - 6]);
        } else if 17 <= i < 19 {
            assert(name[i] == padded(hour, 2)[i - 17]);
        } else if i < 6 {
            assert(name[i] == "hrrr.t"@[i]);
        } else if i < 17 {
            assert(name[i] == "z.wrfsfcf"@[i - 8]);
        } else {
            assert(name[i] == ".grib2"@[i - 19]);
        }
    }
    assert forall|i: int| 0 <= i < 25 implies !#[trigger] stands(s, href(), i) by {
        if stands(s, href(), i) {
            assert(s.subrange(i, i + 6)[0] == s[i]);
            assert(s[i] == name[i]);
            assert(s.subrange(i, i + 6)[2] == s[i + 2]);
            assert(s[2] == name[2]);
        }
    }
}

proof fn lemma_run_listed(day: Seq<char>, html: Seq<char>, n: nat, run: nat)
    requires
        run < n <= 24,
        all_hours(html, run as int).len() > 0,
    ensures
        exists|i: int|
            0 <= i < shown_runs(day, html, n).len() && #[trigger] shown_runs(day, html, n)[i] == (
            RunView { day, hour: run as u32, hours: all_hours(html, run as int) }),
    decreases n,
{
    let before = shown_runs(day, html, (n - 1) as nat);
    let all = shown_runs(day, html, n);
    let meant = RunView { day, hour: run as u32, hours: all_hours(html, run as int) };
    if run == n - 1 {
        assert(all[before.len() as int] == meant);
    } else {
        lemma_run_listed(day, html, (n - 1) as nat, run);
        let i = choose|i: int| 0 <= i < before.len() && #[trigger] before[i] == meant;
        assert(all[i] == meant);
    }
}

/// Whether a run of a day is among runs, with an hour of it.
pub open spec fn lists(runs: Seq<RunView>, day: Seq<char>, run: int, hour: u32) -> bool {
    exists|i: int|
        0 <= i < runs.len() && (#[trigger] runs[i]).day == day && runs[i].hour == run
            && runs[i].hours.contains(hour)
}

/// An hour that a day's page links to, wherever on the page, is among the hours
/// of its run, and that run among the day's.
pub proof fn law_a_linked_hour_is_listed(
    day: Seq<char>,
    a: Seq<char>,
    run: nat,
    hour: nat,
    b: Seq<char>,
)
    requires
        run < 24,
        hour <= 48,
    ensures
        lists(
            listing(day, a + "href=\""@ + hour_name(run, hour) + "\""@ + b),
            day,
            run as int,
            hour as u32,
        ),
{
    reveal_strlit("\"");
    lemma_href();
    let name = hour_name(run, hour);
    let html = a + "href=\""@ + name + "\""@ + b;
    let rest = name + seq!['"'] + b;
    let k = a.len() as int;
    assert("\""@ =~= seq!['"']);
    assert(html =~= a + href() + rest);
    assert(html.subrange(k, k + 6) =~= href());
    let i = lemma_pieces(html, k);
    assert(html.skip(k + 6) =~= rest);
    lemma_no_link_inside(run, hour, b);
    lemma_leads(name, b);
    law_an_hour_is_known_by_its_name(run, hour);
    assert(links(html)[i - 1] == name);
    assert(shown(html, run as int, hour as int));
    law_a_listing_is_read_in_full(html, run as int);
    assert(all_hours(html, run as int).contains(hour as u32));
    lemma_run_listed(day, html, 24, run);
}

proof fn lemma_reach(hours: Seq<u32>, h: int, last: int)
    requires
        0 <= h <= last <= MAX_HOURS,
    ensures
        h + reach(hours, h) > last <==> forall|x: u32| h <= x <= last ==> #[trigger] hours.contains(x),
    decreases last - h,
{
    if hours.contains(h as u32) {
        if h < last {
            lemma_reach(hours, h + 1, last);
            if h + reach(hours, h) > last {
                assert forall|x: u32| h <= x <= last implies #[trigger] hours.contains(x) by {
                    if x > h {
                        assert(h + 1 <= x);
                    }
                }
            }
        } else {
            lemma_reach_counts(hours, h + 1);
            assert forall|x: u32| h <= x <= last implies #[trigger] hours.contains(x) by {
                assert(x == h);
            }
        }
    }
}

proof fn lemma_reach_counts(hours: Seq<u32>, h: int)
    ensures
        reach(hours, h) >= 0,
    decreases MAX_HOURS + 1 - h,
{
    if 0 <= h <= MAX_HOURS && hours.contains(h as u32) {
        lemma_reach_counts(hours, h + 1);
    }
}

/// A run is ready once it lists its own hour and the 18 after it.
pub proof fn law_a_run_is_ready_with_eighteen_hours(run: RunView)
    ensures
        run.ready() <==> forall|h: u32| h <= 18 ==> #[trigger] run.hours.contains(h),
{
    lemma_reach(run.hours, 0, 18);
}

/// A day's text, by its numbers.
proof fn lemma_day_text(day: Seq<char>, t: int)
    requires
        day.len() == 8,
        all_digits(day),
        time::date(
            value(day.subrange(0, 4)),
            value(day.subrange(4, 6)),
            value(day.subrange(6, 8)),
        ),
        t / 86_400 == time::calendar_days(
            value(day.subrange(0, 4)),
            value(day.subrange(4, 6)),
            value(day.subrange(6, 8)),
        ),
    ensures
        time::day_text(t) == day,
{
    let (a, b, c) = (day.subrange(0, 4), day.subrange(4, 6), day.subrange(6, 8));
    assert(all_digits(a) && all_digits(b) && all_digits(c));
    time::law_dates_round_trip(value(a), value(b), value(c));
    lemma_padded_value(a);
    lemma_padded_value(b);
    lemma_padded_value(c);
    assert(day =~= a + b + c);
}

proof fn lemma_whole_days(days: int, hour: int, t: int)
    requires
        t == days * 86_400 + hour * 3600,
        0 <= hour <= 23,
    ensures
        t / 86_400 == days,
        t % 86_400 == hour * 3600,
{
}

/// A run is on its day, at its hour exactly.
pub proof fn law_a_run_is_at_its_hour(run: RunView, t: int)
    requires
        run.day.len() == 8,
        run.time() == Some(t),
    ensures
        time::day_text(t) == run.day,
        t % 86_400 == run.hour * 3600,
{
    let (y, m, d) = (
        value(run.day.subrange(0, 4)),
        value(run.day.subrange(4, 6)),
        value(run.day.subrange(6, 8)),
    );
    assert(time::moment_ok(y, m, d, run.hour as int, 0, 0) && t == time::unix_time(
        y,
        m,
        d,
        run.hour as int,
        0,
        0,
    ) && all_digits(run.day)) by {
        lemma_run_time(run);
        assert(run.key().len() == 10);
        assert forall|i: int| 0 <= i < 8 implies digit(#[trigger] run.day[i]) by {
            assert(run.key()[i] == run.day[i]);
        }
    }
    let days = time::calendar_days(y, m, d);
    assert(t == days * 86_400 + run.hour * 3600) by {
        time::lemma_civil_is_calendar(y, m, d);
    }
    lemma_whole_days(days, run.hour as int, t);
    lemma_day_text(run.day, t);
}

// --- Finding a run ----------------------------------------------------------------------

/// Whether a text stands in another.
pub open spec fn says(s: Seq<char>, words: Seq<char>) -> bool {
    exists|i: int| #[trigger] stands(s, words, i)
}

proof fn lemma_says(a: Seq<char>, words: Seq<char>, b: Seq<char>)
    ensures
        says(a + words + b, words),
{
    assert((a + words + b).subrange(a.len() as int, a.len() as int + words.len()) =~= words);
    assert(stands(a + words + b, words, a.len() as int));
}

/// What a day's answer comes to: a run to use, none, or why that isn't known.
/// A page that isn't there lists nothing.
pub open spec fn day_gives(
    now: int,
    days: int,
    answer: Result<Seq<char>, Seq<char>>,
) -> Result<Option<RunView>, Seq<char>> {
    match answer {
        Ok(html) => Ok(newest_ready(listing(time::day_text(now - days * 86_400), html))),
        Err(e) => if says(e, "404"@) {
            Ok(None)
        } else {
            Err(e)
        },
    }
}

/// The search asks for today's listing, and for yesterday's once today's gives
/// no run; the first run there is ends it, and so does an answer that isn't one.
pub proof fn law_today_is_searched_and_then_yesterday(
    now: int,
    answers: Seq<Result<Seq<char>, Seq<char>>>,
)
    ensures
        answers.len() == 0 ==> search(now, answers, 0) == SearchView::Ask(time::day_text(now)),
        answers.len() > 0 ==> match day_gives(now, 0, answers[0]) {
            Ok(Some(run)) => search(now, answers, 0) == SearchView::Found(run),
            Err(e) => search(now, answers, 0) == SearchView::Failed(e),
            Ok(None) => if answers.len() == 1 {
                search(now, answers, 0) == SearchView::Ask(time::day_text(now - 86_400))
            } else {
                match day_gives(now, 1, answers[1]) {
                    Ok(Some(run)) => search(now, answers, 0) == SearchView::Found(run),
                    Err(e) => search(now, answers, 0) == SearchView::Failed(e),
                    Ok(None) => search(now, answers, 0) == SearchView::NotOut,
                }
            },
        },
{
    reveal_strlit("404");
    assert("404"@.len() == 3);
    reveal_with_fuel(search, 3);
    assert forall|i: int| 0 <= i < answers.len() && answers[i] is Err implies has_text(
        (#[trigger] answers[i])->Err_0,
        "404"@,
    ) == says(answers[i]->Err_0, "404"@) by {
        law_a_text_is_found_wherever_it_stands(answers[i]->Err_0, "404"@);
    }
}

// --- Asking for an hour -------------------------------------------------------------------

/// Text taken apart at a place in the middle.
proof fn lemma_says_in(s: Seq<char>, a: Seq<char>, words: Seq<char>, b: Seq<char>)
    requires
        s == a + words + b,
    ensures
        says(s, words),
{
    lemma_says(a, words, b);
}

/// The parts of what is asked of the filter, each with what stands around it.
/// Every `&` goes with what follows it.
pub ghost struct Asked {
    pub site: Seq<char>,
    pub dir: Seq<char>,
    pub day: Seq<char>,
    pub conus: Seq<char>,
    pub file: Seq<char>,
    pub name: Seq<char>,
    pub wanted: Seq<char>,
    pub top: Seq<char>,
    pub north: Seq<char>,
    pub left: Seq<char>,
    pub west: Seq<char>,
    pub right: Seq<char>,
    pub east: Seq<char>,
    pub bottom: Seq<char>,
    pub south: Seq<char>,
}

impl Asked {
    pub open spec fn up_to_name(self) -> Seq<char> {
        self.site + self.dir + self.day + self.conus + self.file + self.name
    }

    pub open spec fn edges(self) -> Seq<char> {
        self.top + self.north + (self.left + self.west) + (self.right + self.east) + (self.bottom
            + self.south)
    }
}

#[verifier::spinoff_prover]
proof fn lemma_folder_asked(q: Asked, and: Seq<char>, url: Seq<char>)
    requires
        url == q.up_to_name() + q.wanted + q.edges(),
        and.len() == 1,
        q.file.len() > 0 && q.file.take(1) == and,
        q.wanted.len() > 0 && q.wanted.take(1) == and,
    ensures
        says(url, q.dir + q.day + (q.conus + and)),
        says(url, q.file + q.name + and),
{
    let tail = q.wanted + q.edges();
    assert(q.file =~= and + q.file.skip(1));
    assert(q.wanted =~= and + q.wanted.skip(1));
    let a = q.site;
    let x = q.dir + q.day + (q.conus + and);
    let b = q.file.skip(1) + q.name + tail;
    assert(url =~= a + x + b);
    lemma_says_in(url, a, x, b);
    let a2 = q.site + q.dir + q.day + q.conus;
    let x2 = q.file + q.name + and;
    let b2 = q.wanted.skip(1) + q.edges();
    assert(url =~= a2 + x2 + b2);
    lemma_says_in(url, a2, x2, b2);
}

#[verifier::spinoff_prover]
proof fn lemma_edges_asked(q: Asked, and: Seq<char>, url: Seq<char>)
    requires
        url == q.up_to_name() + q.wanted + q.edges(),
        and.len() == 1,
        q.left.len() > 0 && q.left.take(1) == and,
        q.right.len() > 0 && q.right.take(1) == and,
        q.bottom.len() > 0 && q.bottom.take(1) == and,
    ensures
        says(url, q.top + q.north + and),
        says(url, q.left + q.west + and),
        says(url, q.right + q.east + and),
        says(url, q.bottom + q.south),
        stands(url, q.south, url.len() - q.south.len()),
{
    let head = q.up_to_name() + q.wanted;
    assert(q.left =~= and + q.left.skip(1));
    assert(q.right =~= and + q.right.skip(1));
    assert(q.bottom =~= and + q.bottom.skip(1));
    let (west, east, south) = (q.left + q.west, q.right + q.east, q.bottom + q.south);
    let x = q.top + q.north + and;
    let b = (q.left.skip(1) + q.west) + east + south;
    assert(url =~= head + x + b);
    lemma_says_in(url, head, x, b);
    let a2 = head + (q.top + q.north);
    let b2 = (q.right.skip(1) + q.east) + south;
    assert(url =~= a2 + (west + and) + b2);
    lemma_says_in(url, a2, west + and, b2);
    let a3 = a2 + west;
    let b3 = q.bottom.skip(1) + q.south;
    assert(url =~= a3 + (east + and) + b3);
    lemma_says_in(url, a3, east + and, b3);
    let a4 = a3 + east;
    let none = Seq::<char>::empty();
    assert(url =~= a4 + south + none);
    lemma_says_in(url, a4, south, none);
    assert(url.subrange(url.len() - q.south.len(), url.len() as int) =~= q.south);
}

/// What is asked for, as the filter names it: the parameters, and the levels
/// they are at.
pub open spec fn wanted() -> Seq<char> {
    "&var_GUST=on&var_MSLMA=on&var_UGRD=on&var_VGRD=on&lev_10_m_above_ground=on&lev_surface=on&lev_mean_sea_level=on&subregion="@
}

proof fn lemma_wanted()
    ensures
        ".grib2&var_GUST=on&var_MSLMA=on&var_UGRD=on&var_VGRD=on&lev_10_m_above_ground=on&lev_surface=on&lev_mean_sea_level=on&subregion=&toplat="@
            == ".grib2"@ + wanted() + "&toplat="@,
        wanted().len() > 0 && wanted().take(1) == seq!['&'],
{
    reveal_strlit(".grib2");
    reveal_strlit("&toplat=");
    reveal_strlit(
        "&var_GUST=on&var_MSLMA=on&var_UGRD=on&var_VGRD=on&lev_10_m_above_ground=on&lev_surface=on&lev_mean_sea_level=on&subregion=",
    );
    reveal_strlit(
        ".grib2&var_GUST=on&var_MSLMA=on&var_UGRD=on&var_VGRD=on&lev_10_m_above_ground=on&lev_surface=on&lev_mean_sea_level=on&subregion=&toplat=",
    );
    assert(
        ".grib2&var_GUST=on&var_MSLMA=on&var_UGRD=on&var_VGRD=on&lev_10_m_above_ground=on&lev_surface=on&lev_mean_sea_level=on&subregion=&toplat="@
        =~= ".grib2"@ + wanted() + "&toplat="@);
    assert(wanted().take(1) =~= seq!['&']);
}

proof fn lemma_asked_words()
    ensures
        "https://nomads.ncep.noaa.gov/cgi-bin/filter_hrrr_2d.pl?dir=%2Fhrrr."@
            == "https://nomads.ncep.noaa.gov/cgi-bin/filter_hrrr_2d.pl"@ + "?dir=%2Fhrrr."@,
        "%2Fconus&file=hrrr.t"@ == "%2Fconus"@ + "&file="@ + "hrrr.t"@,
        "%2Fconus&"@ == "%2Fconus"@ + seq!['&'],
        "&"@ == seq!['&'],
        "&file="@.len() > 0 && "&file="@.take(1) == seq!['&'],
        "&leftlon="@.len() > 0 && "&leftlon="@.take(1) == seq!['&'],
        "&rightlon="@.len() > 0 && "&rightlon="@.take(1) == seq!['&'],
        "&bottomlat="@.len() > 0 && "&bottomlat="@.take(1) == seq!['&'],
{
    reveal_strlit("https://nomads.ncep.noaa.gov/cgi-bin/filter_hrrr_2d.pl?dir=%2Fhrrr.");
    reveal_strlit("https://nomads.ncep.noaa.gov/cgi-bin/filter_hrrr_2d.pl");
    reveal_strlit("?dir=%2Fhrrr.");
    reveal_strlit("%2Fconus&file=hrrr.t");
    reveal_strlit("%2Fconus");
    reveal_strlit("%2Fconus&");
    reveal_strlit("&file=");
    reveal_strlit("hrrr.t");
    reveal_strlit("&");
    reveal_strlit("&leftlon=");
    reveal_strlit("&rightlon=");
    reveal_strlit("&bottomlat=");
    assert("https://nomads.ncep.noaa.gov/cgi-bin/filter_hrrr_2d.pl?dir=%2Fhrrr."@
        =~= "https://nomads.ncep.noaa.gov/cgi-bin/filter_hrrr_2d.pl"@ + "?dir=%2Fhrrr."@);
    assert("%2Fconus&file=hrrr.t"@ =~= "%2Fconus"@ + "&file="@ + "hrrr.t"@);
    assert("%2Fconus&"@ =~= "%2Fconus"@ + seq!['&']);
    assert("&"@ =~= seq!['&']);
    assert("&file="@.take(1) =~= seq!['&']);
    assert("&leftlon="@.take(1) =~= seq!['&']);
    assert("&rightlon="@.take(1) =~= seq!['&']);
    assert("&bottomlat="@.take(1) =~= seq!['&']);
}

/// The parts of what is asked of the filter for an hour and a region.
pub open spec fn asked(run: RunView, hour: u32, e: EdgesView) -> Asked {
    Asked {
        site: "https://nomads.ncep.noaa.gov/cgi-bin/filter_hrrr_2d.pl"@,
        dir: "?dir=%2Fhrrr."@,
        day: run.day,
        conus: "%2Fconus"@,
        file: "&file="@,
        name: hour_name(run.hour as nat, hour as nat),
        wanted: wanted(),
        top: "&toplat="@,
        north: e.north,
        left: "&leftlon="@,
        west: e.west,
        right: "&rightlon="@,
        east: e.east,
        bottom: "&bottomlat="@,
        south: e.south,
    }
}

#[verifier::spinoff_prover]
proof fn lemma_asked(run: RunView, hour: u32, e: EdgesView)
    ensures
        filter_text(run, hour, e) == asked(run, hour, e).up_to_name() + wanted() + asked(
            run,
            hour,
            e,
        ).edges(),
{
    lemma_asked_words();
    lemma_wanted();
    let q = asked(run, hour, e);
    let (h, r, z, f, g) = (
        "hrrr.t"@,
        padded(run.hour as nat, 2),
        "z.wrfsfcf"@,
        padded(hour as nat, 2),
        ".grib2"@,
    );
    lemma_joined(q, h, r, z, f, g);
}

#[verifier::spinoff_prover]
proof fn lemma_joined(q: Asked, h: Seq<char>, r: Seq<char>, z: Seq<char>, f: Seq<char>, g: Seq<char>)
    requires
        q.name == h + r + z + f + g,
    ensures
        (q.site + q.dir) + q.day + (q.conus + q.file + h) + r + z + f + (g + q.wanted + q.top)
            + q.north + q.left + q.west + q.right + q.east + q.bottom + q.south == q.up_to_name()
            + q.wanted + q.edges(),
{
    assert((q.site + q.dir) + q.day + (q.conus + q.file + h) + r + z + f + g =~= q.up_to_name());
    let head = (q.site + q.dir) + q.day + (q.conus + q.file + h) + r + z + f;
    assert(head + (g + q.wanted + q.top) =~= (head + g) + q.wanted + q.top);
    let x = (head + g) + q.wanted;
    assert(x + q.top + q.north + q.left + q.west + q.right + q.east + q.bottom + q.south =~= x
        + q.edges());
}

/// What is asked of NOMADS's filter: the hour's file in the run's folder, and
/// the region's edges, each under its own name.
pub proof fn law_the_filter_is_asked_for_the_hour_and_region(run: RunView, hour: u32, e: EdgesView)
    ensures
        ({
            let url = filter_text(run, hour, e);
            &&& says(url, "?dir=%2Fhrrr."@ + run.day + "%2Fconus&"@)
            &&& says(url, "&file="@ + hour_name(run.hour as nat, hour as nat) + "&"@)
            &&& says(url, "&toplat="@ + e.north + "&"@)
            &&& says(url, "&leftlon="@ + e.west + "&"@)
            &&& says(url, "&rightlon="@ + e.east + "&"@)
            &&& says(url, "&bottomlat="@ + e.south)
            &&& stands(url, e.south, url.len() - e.south.len())
        }),
{
    lemma_asked(run, hour, e);
    lemma_asked_words();
    lemma_wanted();
    lemma_folder_asked(asked(run, hour, e), seq!['&'], filter_text(run, hour, e));
    lemma_edges_asked(asked(run, hour, e), seq!['&'], filter_text(run, hour, e));
}

proof fn lemma_wants(at: int, part: Seq<char>)
    requires
        0 <= at <= at + part.len() <= wanted().len(),
        wanted().subrange(at, at + part.len()) == part,
    ensures
        says(wanted(), part),
{
    assert(stands(wanted(), part, at));
}

/// The wind 10 m up, the gust at the surface and the pressure at sea level are
/// asked for, each parameter and each level by the filter's name for it.
#[verifier::spinoff_prover]
pub proof fn law_the_filter_is_asked_for_all_a_forecast_needs(
    run: RunView,
    hour: u32,
    e: EdgesView,
    part: Seq<char>,
)
    requires
        part == "&var_UGRD=on"@ || part == "&var_VGRD=on"@ || part == "&lev_10_m_above_ground=on"@
            || part == "&var_GUST=on"@ || part == "&lev_surface=on"@ || part == "&var_MSLMA=on"@
            || part == "&lev_mean_sea_level=on"@ || part == "&subregion="@,
    ensures
        says(filter_text(run, hour, e), part),
{
    lemma_asked(run, hour, e);
    lemma_part_wanted(part);
    let i = choose|i: int| #[trigger] stands(wanted(), part, i);
    let q = asked(run, hour, e);
    let w = wanted();
    assert(w =~= w.take(i) + part + w.skip(i + part.len()));
    let url = filter_text(run, hour, e);
    assert(url =~= (q.up_to_name() + w.take(i)) + part + (w.skip(i + part.len()) + q.edges()));
    lemma_says_in(url, q.up_to_name() + w.take(i), part, w.skip(i + part.len()) + q.edges());
}

#[verifier::spinoff_prover]
proof fn lemma_part_wanted(part: Seq<char>)
    requires
        part == "&var_UGRD=on"@ || part == "&var_VGRD=on"@ || part == "&lev_10_m_above_ground=on"@
            || part == "&var_GUST=on"@ || part == "&lev_surface=on"@ || part == "&var_MSLMA=on"@
            || part == "&lev_mean_sea_level=on"@ || part == "&subregion="@,
    ensures
        says(wanted(), part),
{
    reveal_strlit(
        "&var_GUST=on&var_MSLMA=on&var_UGRD=on&var_VGRD=on&lev_10_m_above_ground=on&lev_surface=on&lev_mean_sea_level=on&subregion=",
    );
    let w = wanted();
    if part == "&var_GUST=on"@ {
        reveal_strlit("&var_GUST=on");
        assert(w.subrange(0, 12) =~= part);
        lemma_wants(0, part);
    } else if part == "&var_MSLMA=on"@ {
        reveal_strlit("&var_MSLMA=on");
        assert(w.subrange(12, 25) =~= part);
        lemma_wants(12, part);
    } else if part == "&var_UGRD=on"@ {
        reveal_strlit("&var_UGRD=on");
        assert(w.subrange(25, 37) =~= part);
        lemma_wants(25, part);
    } else if part == "&var_VGRD=on"@ {
        reveal_strlit("&var_VGRD=on");
        assert(w.subrange(37, 49) =~= part);
        lemma_wants(37, part);
    } else if part == "&lev_10_m_above_ground=on"@ {
        reveal_strlit("&lev_10_m_above_ground=on");
        assert(w.subrange(49, 74) =~= part);
        lemma_wants(49, part);
    } else if part == "&lev_surface=on"@ {
        reveal_strlit("&lev_surface=on");
        assert(w.subrange(74, 89) =~= part);
        lemma_wants(74, part);
    } else if part == "&lev_mean_sea_level=on"@ {
        reveal_strlit("&lev_mean_sea_level=on");
        assert(w.subrange(89, 111) =~= part);
        lemma_wants(89, part);
    } else {
        reveal_strlit("&subregion=");
        assert(w.subrange(111, 122) =~= part);
        lemma_wants(111, part);
    }
}

/// Whether the wind 10 m up, one way or the other, at an hour of a run is among
/// fields.
pub open spec fn blows(fields: Seq<FieldView>, number: u8, run: int, hour: int) -> bool {
    exists|i: int|
        {
            &&& 0 <= i < fields.len()
            &&& is_ten_metre_wind(#[trigger] fields[i], number)
            &&& fields[i].reference == run && fields[i].lead == hour * 3600
        }
}

/// A download is an hour of a run just when it reads and both winds 10 m up, at
/// that hour of that run, are in it.
pub proof fn law_a_download_has_its_hours_wind(bytes: Seq<u8>, run: RunView, hour: u32)
    ensures
        checked(bytes, run, hour) is Ok <==> {
            &&& grib::parsed(bytes) is Ok
            &&& run.time() is Some
            &&& blows(grib::parsed(bytes)->Ok_0, 2, run.time()->0, hour as int)
            &&& blows(grib::parsed(bytes)->Ok_0, 3, run.time()->0, hour as int)
        },
{
    if grib::parsed(bytes) is Ok && run.time() is Some {
        let fields = grib::parsed(bytes)->Ok_0;
        lemma_blows(fields, 2, run.time()->0, hour);
        lemma_blows(fields, 3, run.time()->0, hour);
    }
}

proof fn lemma_blows(fields: Seq<FieldView>, number: u8, run: int, hour: u32)
    ensures
        blows(fields, number, run, hour as int) <==> has_wind(fields, number, run, hour),
{
    assert forall|i: int| 0 <= i < fields.len() implies (is_ten_metre_wind(
        #[trigger] fields[i],
        number,
    ) && fields[i].reference == run && fields[i].lead == hour as int * 3600) == is_wind(
        fields[i],
        number,
        run,
        hour,
    ) by {}
    if blows(fields, number, run, hour as int) {
        let i = choose|i: int|
            {
                &&& 0 <= i < fields.len()
                &&& is_ten_metre_wind(#[trigger] fields[i], number)
                &&& fields[i].reference == run && fields[i].lead == hour as int * 3600
            };
        assert(is_wind(fields[i], number, run, hour));
    }
}

// --- The run to show ----------------------------------------------------------------------

/// The run shown is one, cut to the region, with an hour at least; no other such
/// run with as many of its first hours is newer.
pub proof fn law_the_newest_of_the_regions_runs_is_shown(
    folders: Seq<Cached>,
    key: Seq<char>,
    k: int,
    i: int,
)
    requires
        picked(folders, key, k),
        0 <= i < folders.len(),
    ensures
        folders[k].name@.len() == 10,
        folders[k].region matches Some(text) && trim(text@) == key,
        folders[k].hours > 0,
        usable(folders[i], key) && (folders[i].hours > 18 <==> folders[k].hours > 18) ==> !before(
            folders[k].name@,
            folders[i].name@,
        ),
        usable(folders[i], key) && folders[i].hours > 18 ==> folders[k].hours > 18,
{
}

/// A folder is of use for a region just when it goes by ten digits, its file
/// names the region, white space around it aside, and it has an hour.
pub proof fn law_a_folder_is_of_use_for_its_region(
    c: Cached,
    key: Seq<char>,
    x: Seq<char>,
    y: Seq<char>,
    file: String,
)
    requires
        c.region == Some(file),
        file@ == x + key + y,
        blank(x) && blank(y),
        key.len() > 0,
        !space(key[0]) && !space(key.last()),
    ensures
        usable(c, key) <==> {
            &&& c.name@.len() == 10
            &&& forall|i: int| 0 <= i < 10 ==> '0' <= #[trigger] c.name@[i] <= '9'
            &&& c.hours > 0
        },
{
    law_trimming_takes_off_blanks(x, key, y);
    if usable(c, key) {
        assert forall|i: int| 0 <= i < 10 implies '0' <= #[trigger] c.name@[i] <= '9' by {
            assert(digit(c.name@[i]));
        }
    } else if c.name@.len() == 10 && (forall|i: int|
        0 <= i < 10 ==> '0' <= #[trigger] c.name@[i] <= '9') {
        assert forall|i: int| 0 <= i < c.name@.len() implies digit(#[trigger] c.name@[i]) by {}
    }
}

/// The runs deleted are just those that go by ten digits, are older than one
/// that is kept, and aren't kept.
pub proof fn law_older_runs_are_deleted(names: Seq<Seq<char>>, keep: Seq<Seq<char>>, n: int, k: usize)
    requires
        0 <= n <= names.len() <= usize::MAX,
    ensures
        stale_below(names, keep, n).contains(k) <==> {
            &&& k < n
            &&& names[k as int].len() == 10 && all_digits(names[k as int])
            &&& exists|i: int| 0 <= i < keep.len() && before(names[k as int], #[trigger] keep[i])
            &&& forall|i: int| 0 <= i < keep.len() ==> #[trigger] keep[i] != names[k as int]
        },
    decreases n,
{
    if n > 0 {
        law_older_runs_are_deleted(names, keep, n - 1, k);
        let was = stale_below(names, keep, n - 1);
        let all = stale_below(names, keep, n);
        let last = (n - 1) as usize;
        if stale(names[n - 1], keep) {
            assert(all == was.push(last));
            assert(all[was.len() as int] == last);
            if was.contains(k) {
                let x = choose|x: int| 0 <= x < was.len() && was[x] == k;
                assert(all[x] == k);
            }
            if all.contains(k) && k != last {
                let x = choose|x: int| 0 <= x < all.len() && all[x] == k;
                assert(was[x] == k);
            }
        }
        if k == last {
            if keep.contains(names[k as int]) {
                let i = choose|i: int| 0 <= i < keep.len() && keep[i] == names[k as int];
                assert(keep[i] == names[k as int]);
            }
        }
    }
}

} // verus!
