//! GRIB edition 2, read from scratch from the WMO's Manual on Codes
//! (FM 92 GRIB): the sections, Lambert conformal grids, product template
//! 4.0, simple packing (template 5.0) and bitmaps. That is everything NOAA
//! sends for HRRR. Any other template is refused by number, never guessed.
//!
//! Simple packing makes each value `(R + X*2^E) / 10^D`. A field is kept as it
//! is packed: R, E, D, and the whole number X at each point.

use crate::big::Big;
use crate::grid::{Grid, Lambert, Scaled};
use crate::text::{dec, decimal, joined, lemma_ten_to_grows, ten_to};
use crate::time;
use vstd::arithmetic::power2::{
    lemma_pow2_adds,
    lemma_pow2_pos,
    lemma_pow2_strictly_increases,
    lemma_pow2_unfold,
    pow2,
};
use vstd::prelude::*;
use vstd::slice::slice_subrange;

verus! {

/// The most points one field may have: HRRR's whole grid has 1.9 million.
pub const MAX_POINTS: usize = 4_000_000;

/// The most values one file may decode to, all its fields together.
pub const MAX_VALUES: usize = 16_000_000;

// --- Numbers -------------------------------------------------------------------

/// Bytes as a number, the most significant first.
pub open spec fn be_value(b: Seq<u8>) -> int
    decreases b.len(),
{
    if b.len() == 0 {
        0
    } else {
        be_value(b.drop_last()) * 256 + b.last()
    }
}

/// `256^n`.
pub open spec fn bytes_to(n: nat) -> int
    decreases n,
{
    if n == 0 {
        1
    } else {
        256 * bytes_to((n - 1) as nat)
    }
}

proof fn lemma_be_bound(b: Seq<u8>)
    ensures
        0 <= be_value(b) < bytes_to(b.len()),
    decreases b.len(),
{
    if b.len() > 0 {
        lemma_be_bound(b.drop_last());
    }
}

proof fn lemma_bytes_grow(a: nat, b: nat)
    requires
        a <= b,
    ensures
        1 <= bytes_to(a) <= bytes_to(b),
    decreases b,
{
    if a < b {
        lemma_bytes_grow(a, (b - 1) as nat);
    } else if a > 0 {
        lemma_bytes_grow((a - 1) as nat, (b - 1) as nat);
    }
}

/// Up to eight bytes as a number, the most significant first.
pub fn be(b: &[u8]) -> (r: u64)
    requires
        b@.len() <= 8,
    ensures
        r as int == be_value(b@),
        b@.len() <= 4 ==> r <= u32::MAX,
        b@.len() <= 2 ==> r <= u16::MAX,
        b@.len() <= 1 ==> r <= u8::MAX,
{
    let mut v: u64 = 0;
    let mut i: usize = 0;
    proof {
        reveal_with_fuel(bytes_to, 9);
        assert(b@.take(0) =~= Seq::<u8>::empty());
    }
    while i < b.len()
        invariant
            i <= b@.len() <= 8,
            v as int == be_value(b@.take(i as int)),
        decreases b@.len() - i,
    {
        proof {
            reveal_with_fuel(bytes_to, 9);
            lemma_be_bound(b@.take(i as int));
            lemma_bytes_grow(i as nat, 7);
            assert(b@.take(i + 1).drop_last() =~= b@.take(i as int));
        }
        v = v * 256 + b[i] as u64;
        i += 1;
    }
    proof {
        assert(b@.take(i as int) =~= b@);
        lemma_be_bound(b@);
        if b@.len() <= 4 {
            lemma_bytes_grow(b@.len(), 4);
        }
        if b@.len() <= 2 {
            lemma_bytes_grow(b@.len(), 2);
        }
        if b@.len() <= 1 {
            lemma_bytes_grow(b@.len(), 1);
        }
    }
    v
}

/// GRIB's signed integers are sign and magnitude, not two's complement: the
/// top bit is the sign, the rest how far from zero.
pub open spec fn signed_value(b: Seq<u8>) -> int {
    let half = 128 * bytes_to((b.len() - 1) as nat);
    if be_value(b) >= half {
        half - be_value(b)
    } else {
        be_value(b)
    }
}

/// A sign and magnitude integer.
pub fn signed(b: &[u8]) -> (r: i64)
    requires
        1 <= b@.len() <= 8,
    ensures
        r as int == signed_value(b@),
        b@.len() == 1 ==> -127 <= r <= 127,
        b@.len() == 2 ==> -0x7fff <= r <= 0x7fff,
        b@.len() == 4 ==> -0x7fff_ffff <= r <= 0x7fff_ffff,
{
    let v: u64 = be(b);
    let mut half: u64 = 128;
    let mut i: usize = 1;
    while i < b.len()
        invariant
            1 <= i <= b@.len() <= 8,
            half as int == 128 * bytes_to((i - 1) as nat),
        decreases b@.len() - i,
    {
        proof {
            reveal_with_fuel(bytes_to, 9);
            lemma_bytes_grow((i - 1) as nat, 6);
        }
        half = half * 256;
        i += 1;
    }
    proof {
        reveal_with_fuel(bytes_to, 9);
        lemma_be_bound(b@);
        lemma_bytes_grow((b@.len() - 1) as nat, 7);
    }
    if v >= half {
        -((v - half) as i64)
    } else {
        v as i64
    }
}

/// `s[from..to]` as a number.
pub open spec fn be_at(s: Seq<u8>, from: int, to: int) -> int {
    be_value(s.subrange(from, to))
}

/// `s[from..to]` as a sign and magnitude integer.
pub open spec fn signed_at(s: Seq<u8>, from: int, to: int) -> int {
    signed_value(s.subrange(from, to))
}

/// The four bytes of `s` from `at` on, as a number.
fn be4(s: &[u8], at: usize) -> (r: u32)
    requires
        at + 4 <= s@.len(),
    ensures
        r as int == be_at(s@, at as int, at + 4),
{
    let end: usize = s.len();
    assert(at + 2 <= end);
    be(slice_subrange(s, at, at + 4)) as u32
}

/// The two bytes of `s` from `at` on, as a number.
fn be2(s: &[u8], at: usize) -> (r: u16)
    requires
        at + 2 <= s@.len(),
    ensures
        r as int == be_at(s@, at as int, at + 2),
{
    let end: usize = s.len();
    assert(at + 2 <= end);
    be(slice_subrange(s, at, at + 2)) as u16
}

/// The four bytes of `s` from `at` on, as a sign and magnitude integer.
fn signed4(s: &[u8], at: usize) -> (r: i64)
    requires
        at + 4 <= s@.len(),
    ensures
        r as int == signed_at(s@, at as int, at + 4),
        -0x7fff_ffff <= r <= 0x7fff_ffff,
{
    let end: usize = s.len();
    assert(at + 2 <= end);
    signed(slice_subrange(s, at, at + 4))
}

// --- Fields --------------------------------------------------------------------

/// A field's values as simple packing keeps them.
#[derive(Clone, Debug)]
pub struct Packed {
    /// R, as the bits of a 32-bit float, never an infinity or not a number.
    pub reference: u32,
    /// E and D: two to the E and ten to the minus D each fit a 64-bit float.
    pub binary: i32,
    pub decimal: i32,
    /// X at each point, row by row from the grid's first point. None where
    /// the bitmap says there's no value.
    pub values: Vec<Option<u32>>,
}

/// One field: a parameter at one level and one forecast time.
#[derive(Clone, Debug)]
pub struct Field {
    pub discipline: u8,
    pub category: u8,
    pub number: u8,
    /// The first fixed surface (code table 4.5), like 103 for a height
    /// above ground, and its value in meters or pascals.
    pub surface: u8,
    pub level: Option<Scaled>,
    /// The model run, Unix seconds.
    pub reference: i64,
    /// Seconds from the run to the time the field is valid.
    pub lead: i64,
    pub grid: Grid,
    pub values: Packed,
}

/// What `Packed` holds.
pub ghost struct PackedView {
    pub reference: u32,
    pub binary: i32,
    pub decimal: i32,
    pub values: Seq<Option<u32>>,
}

/// What `Field` holds.
pub ghost struct FieldView {
    pub discipline: u8,
    pub category: u8,
    pub number: u8,
    pub surface: u8,
    pub level: Option<Scaled>,
    pub reference: int,
    pub lead: int,
    pub grid: Grid,
    pub values: PackedView,
}

impl View for Packed {
    type V = PackedView;

    open spec fn view(&self) -> PackedView {
        PackedView {
            reference: self.reference,
            binary: self.binary,
            decimal: self.decimal,
            values: self.values@,
        }
    }
}

impl View for Field {
    type V = FieldView;

    open spec fn view(&self) -> FieldView {
        FieldView {
            discipline: self.discipline,
            category: self.category,
            number: self.number,
            surface: self.surface,
            level: self.level,
            reference: self.reference as int,
            lead: self.lead as int,
            grid: self.grid,
            values: self.values@,
        }
    }
}

/// What each field in a list holds.
pub open spec fn fields_view(v: Seq<Field>) -> Seq<FieldView> {
    Seq::new(v.len(), |i: int| v[i]@)
}

/// A parameter's NCEP abbreviation, or its numbers with dots between.
pub open spec fn parameter_name(d: u8, c: u8, n: u8) -> Seq<char> {
    if d == 0 && c == 2 && n == 2 {
        "UGRD"@
    } else if d == 0 && c == 2 && n == 3 {
        "VGRD"@
    } else if d == 0 && c == 2 && n == 22 {
        "GUST"@
    } else if d == 0 && c == 3 && n == 1 {
        "PRMSL"@
    } else if d == 0 && c == 3 && n == 198 {
        "MSLMA"@
    } else {
        dec(d as nat) + "."@ + dec(c as nat) + "."@ + dec(n as nat)
    }
}

impl Field {
    /// When the field is valid, Unix seconds.
    pub fn valid(&self) -> (r: i64)
        requires
            i64::MIN <= self.reference + self.lead <= i64::MAX,
        ensures
            r == self.reference + self.lead,
    {
        self.reference + self.lead
    }

    /// The parameter's NCEP abbreviation, for people.
    pub fn name(&self) -> (r: String)
        ensures
            r@ == parameter_name(self.discipline, self.category, self.number),
    {
        let (d, c, n) = (self.discipline, self.category, self.number);
        if d == 0 && c == 2 && n == 2 {
            "UGRD".to_owned()
        } else if d == 0 && c == 2 && n == 3 {
            "VGRD".to_owned()
        } else if d == 0 && c == 2 && n == 22 {
            "GUST".to_owned()
        } else if d == 0 && c == 3 && n == 1 {
            "PRMSL".to_owned()
        } else if d == 0 && c == 3 && n == 198 {
            "MSLMA".to_owned()
        } else {
            let mut s = decimal(d as u64);
            s.append(".");
            s.append(decimal(c as u64).as_str());
            s.append(".");
            s.append(decimal(n as u64).as_str());
            s
        }
    }
}

// --- Section 3: the grid -----------------------------------------------------------

/// A longitude in millionths of a degree, west negative past 180 degrees.
pub open spec fn west_negative(d: int) -> int {
    if d > 180_000_000 {
        d - 360_000_000
    } else {
        d
    }
}

/// Earth's radius, by its shape (code table 3.2): two spheres of set size, or
/// one the section gives the size of.
pub open spec fn earth_radius(s: Seq<u8>) -> Scaled {
    if s[14] == 0 {
        Scaled { scale: 0, value: 6_367_470 }
    } else if s[14] == 6 {
        Scaled { scale: 0, value: 6_371_229 }
    } else {
        Scaled { scale: signed_at(s, 15, 16) as i32, value: be_at(s, 16, 20) as u32 }
    }
}

/// The grid a section of template 3.30 describes.
pub open spec fn lambert_of(s: Seq<u8>) -> Lambert {
    Lambert {
        nx: be_at(s, 30, 34) as usize,
        ny: be_at(s, 34, 38) as usize,
        la1: signed_at(s, 38, 42) as i64,
        lo1: west_negative(be_at(s, 42, 46)) as i64,
        lad: signed_at(s, 47, 51) as i64,
        lov: west_negative(be_at(s, 51, 55)) as i64,
        dx: be_at(s, 55, 59) as u32,
        dy: be_at(s, 59, 63) as u32,
        latin1: signed_at(s, 65, 69) as i64,
        latin2: signed_at(s, 69, 73) as i64,
        radius: earth_radius(s),
        winds_along_grid: s[46] / 8 % 2 == 1,
        rows_north: s[64] == 0x40,
    }
}

pub open spec fn hex_digit(d: int) -> char {
    if d < 10 {
        (48 + d) as char
    } else {
        (87 + d) as char
    }
}

/// A byte as `0x` and two hexadecimal digits.
pub open spec fn hex(b: u8) -> Seq<char> {
    seq!['0', 'x', hex_digit(b as int / 16), hex_digit(b as int % 16)]
}

/// Section 3: the grid it describes, or why it can't be used.
pub open spec fn grid_of(s: Seq<u8>) -> Result<Grid, Seq<char>> {
    let g = lambert_of(s);
    if s.len() < 14 {
        Err("section 3 is too short"@)
    } else if s[5] != 0 || s[10] != 0 {
        Err("grids defined by a table or with a list of points aren't supported"@)
    } else if be_at(s, 12, 14) != 30 {
        Err("grid template 3."@ + dec(be_at(s, 12, 14) as nat)
            + " isn't supported (only Lambert conformal, 3.30)"@)
    } else if s.len() < 81 {
        Err("section 3 is too short for template 3.30"@)
    } else if s[14] != 0 && s[14] != 6 && s[14] != 1 {
        Err("earth shape "@ + dec(s[14] as nat) + " isn't supported (only spheres)"@)
    } else if s[63] != 0 {
        Err("only Lambert grids centered on the north pole are supported"@)
    } else if s[64] != 0 && s[64] != 0x40 {
        Err("scanning mode "@ + hex(s[64]) + " isn't supported"@)
    } else if be_at(s, 30, 34) * be_at(s, 34, 38) > MAX_POINTS {
        Err("a "@ + dec(be_at(s, 30, 34) as nat) + "\u{d7}"@ + dec(be_at(s, 34, 38) as nat)
            + " grid has too many points"@)
    } else if !g.northern_cone() {
        Err("unsupported Lambert grid: only northern cones"@)
    } else if be_at(s, 30, 34) * be_at(s, 34, 38) != be_at(s, 6, 10) {
        Err("grid is "@ + dec(be_at(s, 30, 34) as nat) + "\u{d7}"@ + dec(be_at(s, 34, 38) as nat)
            + " but says it has "@ + dec(be_at(s, 6, 10) as nat) + " points"@)
    } else {
        Ok(g.grid())
    }
}

/// Whether a grid has cells, and few enough points.
pub open spec fn grid_ok(g: Grid) -> bool {
    2 <= g.nx && 2 <= g.ny && 4 <= g.spec_len() <= MAX_POINTS
}

fn hex_string(b: u8) -> (r: String)
    ensures
        r@ == hex(b),
{
    let hi: u8 = b / 16;
    let lo: u8 = b % 16;
    let mut s = "0x".to_owned();
    proof {
        reveal_strlit("0x");
    }
    s.push(if hi < 10 {
        (48 + hi) as char
    } else {
        (87 + hi) as char
    });
    s.push(if lo < 10 {
        (48 + lo) as char
    } else {
        (87 + lo) as char
    });
    assert(s@ =~= hex(b));
    s
}

fn longitude(d: u32) -> (r: i64)
    ensures
        r as int == west_negative(d as int),
{
    if d > 180_000_000 {
        d as i64 - 360_000_000
    } else {
        d as i64
    }
}

/// Whether a result says what a spec says: the same value, or the same
/// message.
pub open spec fn agrees<T>(r: Result<T, String>, s: Result<T, Seq<char>>) -> bool {
    match r {
        Ok(v) => s == Ok::<T, Seq<char>>(v),
        Err(e) => s == Err::<T, Seq<char>>(e@),
    }
}

/// Section 3.
fn grid_section(s: &[u8]) -> (r: Result<Grid, String>)
    ensures
        agrees(r, grid_of(s@)),
        r matches Ok(g) ==> grid_ok(g),
{
    if s.len() < 14 {
        return Err("section 3 is too short".to_owned());
    }
    if s[5] != 0 || s[10] != 0 {
        return Err(
            "grids defined by a table or with a list of points aren't supported".to_owned(),
        );
    }
    let template: u16 = be2(s, 12);
    if template != 30 {
        return Err(
            joined(
                "grid template 3.",
                decimal(template as u64).as_str(),
                " isn't supported (only Lambert conformal, 3.30)",
            ),
        );
    }
    if s.len() < 81 {
        return Err("section 3 is too short for template 3.30".to_owned());
    }
    let shape: u8 = s[14];
    let radius = if shape == 0 {
        Scaled { scale: 0, value: 6_367_470 }
    } else if shape == 6 {
        Scaled { scale: 0, value: 6_371_229 }
    } else if shape == 1 {
        Scaled { scale: signed(slice_subrange(s, 15, 16)) as i32, value: be4(s, 16) }
    } else {
        return Err(
            joined(
                "earth shape ",
                decimal(shape as u64).as_str(),
                " isn't supported (only spheres)",
            ),
        );
    };
    let (flags, center, scan) = (s[46], s[63], s[64]);
    if center != 0 {
        return Err("only Lambert grids centered on the north pole are supported".to_owned());
    }
    // Rows may run north or south; anything but plain rows of i is refused.
    if scan != 0 && scan != 0x40 {
        return Err(joined("scanning mode ", hex_string(scan).as_str(), " isn't supported"));
    }
    let points: u32 = be4(s, 6);
    let nx: u32 = be4(s, 30);
    let ny: u32 = be4(s, 34);
    assert(nx as int * ny as int <= 0xffff_ffff * 0xffff_ffff) by (nonlinear_arith)
        requires
            0 <= nx <= 0xffff_ffff,
            0 <= ny <= 0xffff_ffff,
    ;
    let count: u64 = nx as u64 * ny as u64;
    if count > MAX_POINTS as u64 {
        let mut e = joined("a ", decimal(nx as u64).as_str(), "\u{d7}");
        e.append(decimal(ny as u64).as_str());
        e.append(" grid has too many points");
        return Err(e);
    }
    let lambert = Lambert {
        nx: nx as usize,
        ny: ny as usize,
        la1: signed4(s, 38),
        lo1: longitude(be4(s, 42)),
        lad: signed4(s, 47),
        lov: longitude(be4(s, 51)),
        dx: be4(s, 55),
        dy: be4(s, 59),
        latin1: signed4(s, 65),
        latin2: signed4(s, 69),
        radius,
        winds_along_grid: flags / 8 % 2 == 1,
        rows_north: scan == 0x40,
    };
    assert(lambert == lambert_of(s@));
    let grid = match Grid::lambert(lambert) {
        Ok(g) => g,
        Err(e) => return Err(e),
    };
    if count != points as u64 {
        let mut e = joined("grid is ", decimal(nx as u64).as_str(), "\u{d7}");
        e.append(decimal(ny as u64).as_str());
        e.append(" but says it has ");
        e.append(decimal(points as u64).as_str());
        e.append(" points");
        return Err(e);
    }
    assert(nx * ny >= 4) by (nonlinear_arith)
        requires
            nx >= 2,
            ny >= 2,
    ;
    Ok(grid)
}

// --- Section 4: the product ----------------------------------------------------------

/// What section 4 says of a field.
#[derive(Clone, Copy, Debug)]
pub struct Product {
    pub category: u8,
    pub number: u8,
    pub surface: u8,
    pub level: Option<Scaled>,
    pub lead: i64,
}

/// Seconds in a unit of time (code table 4.4), for those of a set length.
pub open spec fn unit_seconds(unit: u8) -> Option<int> {
    if unit == 0 {
        Some(60)
    } else if unit == 1 {
        Some(3600)
    } else if unit == 2 {
        Some(86_400)
    } else if unit == 10 {
        Some(10_800)
    } else if unit == 11 {
        Some(21_600)
    } else if unit == 12 {
        Some(43_200)
    } else if unit == 13 {
        Some(1)
    } else {
        None
    }
}

/// Section 4: the product it describes, or why it can't be used.
pub open spec fn product_of(s: Seq<u8>) -> Result<Product, Seq<char>> {
    if s.len() < 9 {
        Err("section 4 is too short"@)
    } else if be_at(s, 7, 9) != 0 {
        Err("product template 4."@ + dec(be_at(s, 7, 9) as nat) + " isn't supported (only 4.0)"@)
    } else if s.len() < 34 {
        Err("section 4 is too short for template 4.0"@)
    } else if unit_seconds(s[17]) is None {
        Err("time unit "@ + dec(s[17] as nat) + " isn't supported"@)
    } else {
        Ok(
            Product {
                category: s[9],
                number: s[10],
                surface: s[22],
                level: if s[23] != 0xff && be_at(s, 24, 28) != 0xffff_ffff {
                    Some(
                        Scaled {
                            scale: signed_at(s, 23, 24) as i32,
                            value: be_at(s, 24, 28) as u32,
                        },
                    )
                } else {
                    None
                },
                lead: (signed_at(s, 18, 22) * unit_seconds(s[17])->0) as i64,
            },
        )
    }
}

/// How far from its run a field may be valid: 2^31 days.
pub const MAX_LEAD: i64 = 185_542_587_187_200;

/// Section 4.
fn product_section(s: &[u8]) -> (r: Result<Product, String>)
    ensures
        agrees(r, product_of(s@)),
        r matches Ok(p) ==> -MAX_LEAD <= p.lead <= MAX_LEAD,
{
    if s.len() < 9 {
        return Err("section 4 is too short".to_owned());
    }
    let template: u16 = be2(s, 7);
    if template != 0 {
        return Err(
            joined(
                "product template 4.",
                decimal(template as u64).as_str(),
                " isn't supported (only 4.0)",
            ),
        );
    }
    if s.len() < 34 {
        return Err("section 4 is too short for template 4.0".to_owned());
    }
    let code: u8 = s[17];
    let unit: i64 = if code == 0 {
        60
    } else if code == 1 {
        time::HOUR
    } else if code == 2 {
        24 * time::HOUR
    } else if code == 10 {
        3 * time::HOUR
    } else if code == 11 {
        6 * time::HOUR
    } else if code == 12 {
        12 * time::HOUR
    } else if code == 13 {
        1
    } else {
        return Err(joined("time unit ", decimal(code as u64).as_str(), " isn't supported"));
    };
    let scaled: u32 = be4(s, 24);
    let level = if s[23] != 0xff && scaled != 0xffff_ffff {
        Some(Scaled { scale: signed(slice_subrange(s, 23, 24)) as i32, value: scaled })
    } else {
        None
    };
    let count: i64 = signed4(s, 18);
    assert(-MAX_LEAD <= count * unit <= MAX_LEAD) by (nonlinear_arith)
        requires
            -0x7fff_ffff <= count <= 0x7fff_ffff,
            1 <= unit <= 86_400,
    ;
    Ok(
        Product {
            category: s[9],
            number: s[10],
            surface: s[22],
            level,
            lead: count * unit,
        },
    )
}

// --- Section 5: the packing ----------------------------------------------------------

/// How section 7's values are packed.
#[derive(Clone, Copy, Debug)]
pub struct Packing {
    pub count: usize,
    /// R, as the bits of a 32-bit float.
    pub reference: u32,
    /// E and D.
    pub binary: i32,
    pub decimal: i32,
    /// How many bits each X has.
    pub bits: u32,
}

/// Section 5: the packing it describes, or why it can't be used.
pub open spec fn packing_of(s: Seq<u8>) -> Result<Packing, Seq<char>> {
    if s.len() < 11 {
        Err("section 5 is too short"@)
    } else if be_at(s, 9, 11) != 0 {
        Err("packing template 5."@ + dec(be_at(s, 9, 11) as nat)
            + " isn't supported (only simple packing, 5.0)"@)
    } else if s.len() < 21 {
        Err("section 5 is too short for template 5.0"@)
    } else if s[19] > 32 {
        Err(""@ + dec(s[19] as nat) + " bits per value isn't supported"@)
    } else {
        Ok(
            Packing {
                count: be_at(s, 5, 9) as usize,
                reference: be_at(s, 11, 15) as u32,
                binary: signed_at(s, 15, 17) as i32,
                decimal: signed_at(s, 17, 19) as i32,
                bits: s[19] as u32,
            },
        )
    }
}

/// Section 5.
fn packing_section(s: &[u8]) -> (r: Result<Packing, String>)
    ensures
        agrees(r, packing_of(s@)),
        r matches Ok(k) ==> k.bits <= 32,
{
    if s.len() < 11 {
        return Err("section 5 is too short".to_owned());
    }
    let template: u16 = be2(s, 9);
    if template != 0 {
        return Err(
            joined(
                "packing template 5.",
                decimal(template as u64).as_str(),
                " isn't supported (only simple packing, 5.0)",
            ),
        );
    }
    if s.len() < 21 {
        return Err("section 5 is too short for template 5.0".to_owned());
    }
    let bits: u8 = s[19];
    if bits > 32 {
        return Err(
            joined("", decimal(bits as u64).as_str(), " bits per value isn't supported"),
        );
    }
    Ok(
        Packing {
            count: be4(s, 5) as usize,
            reference: be4(s, 11),
            binary: signed(slice_subrange(s, 15, 17)) as i32,
            decimal: signed(slice_subrange(s, 17, 19)) as i32,
            bits: bits as u32,
        },
    )
}

// --- Section 7: the values -----------------------------------------------------------

/// `2^n`, for a bit's place in its byte.
pub open spec fn place(n: int) -> int {
    if n <= 0 {
        1
    } else if n == 1 {
        2
    } else if n == 2 {
        4
    } else if n == 3 {
        8
    } else if n == 4 {
        16
    } else if n == 5 {
        32
    } else if n == 6 {
        64
    } else {
        128
    }
}

/// Bit `i` of `data`, counted from the first byte's most significant.
pub open spec fn bit(data: Seq<u8>, i: int) -> int {
    data[i / 8] as int / place(7 - i % 8) % 2
}

/// The `n` bits of `data` from bit `start` on, as a number, the most
/// significant first.
pub open spec fn number(data: Seq<u8>, start: int, n: nat) -> int
    decreases n,
{
    if n == 0 {
        0
    } else {
        number(data, start, (n - 1) as nat) * 2 + bit(data, start + n - 1)
    }
}

/// How many of the first `n` points a bitmap keeps; all of them without one.
pub open spec fn kept(bitmap: Option<Seq<bool>>, n: int) -> int
    decreases n,
{
    if n <= 0 {
        0
    } else {
        kept(bitmap, n - 1) + if has(bitmap, n - 1) {
            1int
        } else {
            0
        }
    }
}

/// Whether a bitmap keeps point `i`.
pub open spec fn has(bitmap: Option<Seq<bool>>, i: int) -> bool {
    bitmap is None || bitmap->0[i]
}

/// Whether the bits of a 32-bit float are a finite number's.
pub open spec fn finite32(bits: u32) -> bool {
    bits as int / 0x80_0000 % 0x100 != 0xff
}

/// How far the bits of a 32-bit float put it from zero, in the smallest steps
/// there are: 2^-149.
pub open spec fn size32(bits: u32) -> int {
    let low = bits as int % 0x8000_0000;
    let (e, f) = (low / 0x80_0000, low % 0x80_0000);
    if e == 0 {
        f
    } else {
        (0x80_0000 + f) * pow2((e - 1) as nat)
    }
}

/// The number the bits of a 32-bit float stand for, in steps of 2^-149.
pub open spec fn worth32(bits: u32) -> int {
    if bits >= 0x8000_0000 {
        -size32(bits)
    } else {
        size32(bits)
    }
}

/// How many binary places R and any `X*2^E` need.
pub open spec fn places(binary: int) -> int {
    if binary < -149 {
        -binary
    } else {
        149
    }
}

/// `X*2^E`, in steps of as many binary places as that needs.
pub open spec fn offset(binary: int, x: int) -> int {
    x * pow2((places(binary) + binary) as nat)
}

/// `R + X*2^E`, in the same steps.
pub open spec fn unscaled(reference: u32, binary: int, x: int) -> int {
    worth32(reference) * pow2((places(binary) - 149) as nat) + offset(binary, x)
}

/// What is too big for a 32-bit float, so that the nearest is infinity:
/// 2^128 - 2^103 and up. In the same steps.
pub open spec fn too_far(binary: int) -> int {
    0x1ff_ffffint * pow2((places(binary) + 103) as nat)
}

/// `10^n`, and 1 for an `n` below 0.
pub open spec fn ten_up(n: int) -> int {
    if n > 0 {
        ten_to(n as nat)
    } else {
        1
    }
}

/// Whether `(R + X*2^E) / 10^D` is too big for a 32-bit float, or `X*2^E` for
/// a 64-bit one, which is 2^1024 and up.
pub open spec fn too_big(reference: u32, binary: int, decimal: int, x: int) -> bool {
    let v = unscaled(reference, binary, x) * ten_up(-decimal);
    let limit = too_far(binary) * ten_up(decimal);
    ||| offset(binary, x) >= pow2((places(binary) + 1024) as nat)
    ||| v >= limit
    ||| v <= -limit
}

/// Whether a value is too big at any point that has one.
pub open spec fn any_too_big(k: Packing, values: Seq<Option<u32>>) -> bool {
    exists|i: int|
        0 <= i < values.len() && (#[trigger] values[i]) is Some && too_big(
            k.reference,
            k.binary as int,
            k.decimal as int,
            values[i]->0 as int,
        )
}

/// The whole number packed at each point, one for each the bitmap keeps.
pub open spec fn packed_values(
    data: Seq<u8>,
    k: Packing,
    points: int,
    bitmap: Option<Seq<bool>>,
) -> Seq<Option<u32>> {
    Seq::new(
        points as nat,
        |i: int|
            if has(bitmap, i) {
                Some(number(data, kept(bitmap, i) * k.bits, k.bits as nat) as u32)
            } else {
                None::<u32>
            },
    )
}

/// Section 7: the whole number packed at each point, one for each the bitmap
/// keeps, or why it can't be used.
pub open spec fn unpacked(
    data: Seq<u8>,
    k: Packing,
    points: int,
    bitmap: Option<Seq<bool>>,
) -> Result<PackedView, Seq<char>> {
    let present = kept(bitmap, points);
    if k.count != present {
        Err("packs "@ + dec(k.count as nat) + " values for "@ + dec(present as nat)
            + " points with data"@)
    } else if !finite32(k.reference) {
        Err("reference value isn't a number"@)
    } else if data.len() * 8 < present * k.bits {
        Err("data section too short"@)
    } else if k.binary > 1023 || k.decimal < -308 {
        Err("scale factors overflow"@)
    } else if any_too_big(k, packed_values(data, k, points, bitmap)) {
        Err("values overflow"@)
    } else {
        Ok(
            PackedView {
                reference: k.reference,
                binary: k.binary,
                decimal: k.decimal,
                values: packed_values(data, k, points, bitmap),
            },
        )
    }
}

/// `2^n`.
pub open spec fn two_to(n: nat) -> int
    decreases n,
{
    if n == 0 {
        1
    } else {
        2 * two_to((n - 1) as nat)
    }
}

proof fn lemma_two_to_grows(a: nat, b: nat)
    requires
        a <= b,
    ensures
        1 <= two_to(a) <= two_to(b),
    decreases b,
{
    if a < b {
        lemma_two_to_grows(a, (b - 1) as nat);
    } else if a > 0 {
        lemma_two_to_grows((a - 1) as nat, (b - 1) as nat);
    }
}

proof fn lemma_number_bound(data: Seq<u8>, start: int, n: nat)
    ensures
        0 <= number(data, start, n) < two_to(n),
    decreases n,
{
    if n > 0 {
        lemma_number_bound(data, start, (n - 1) as nat);
    }
}

proof fn lemma_kept(bitmap: Option<Seq<bool>>, n: int, m: int)
    requires
        0 <= n <= m,
    ensures
        0 <= kept(bitmap, n) <= n,
        kept(bitmap, n) <= kept(bitmap, m),
        bitmap is None ==> kept(bitmap, n) == n,
    decreases m,
{
    if n < m {
        lemma_kept(bitmap, n, m - 1);
    } else if n > 0 {
        lemma_kept(bitmap, n - 1, n - 1);
    }
}

/// Bit `i` of `data`, counted from the first byte's most significant.
fn bit_at(data: &[u8], i: u64) -> (r: u8)
    requires
        i < data@.len() * 8,
    ensures
        r as int == bit(data@, i as int),
{
    let end: usize = data.len();
    let byte: u8 = data[(i / 8) as usize];
    let k: u64 = i % 8;
    let unit: u8 = if k == 0 {
        128
    } else if k == 1 {
        64
    } else if k == 2 {
        32
    } else if k == 3 {
        16
    } else if k == 4 {
        8
    } else if k == 5 {
        4
    } else if k == 6 {
        2
    } else {
        1
    };
    byte / unit % 2
}

/// The `n` bits of `data` from bit `start` on, as a number.
fn number_at(data: &[u8], start: u64, n: u32) -> (r: u32)
    requires
        n <= 32,
        start + n <= data@.len() * 8,
        start + n <= u64::MAX,
    ensures
        r as int == number(data@, start as int, n as nat),
{
    let mut v: u64 = 0;
    let mut i: u32 = 0;
    proof {
        reveal_with_fuel(two_to, 33);
    }
    while i < n
        invariant
            i <= n <= 32,
            start + n <= data@.len() * 8,
            start + n <= u64::MAX,
            v as int == number(data@, start as int, i as nat),
        decreases n - i,
    {
        proof {
            reveal_with_fuel(two_to, 33);
            lemma_number_bound(data@, start as int, i as nat);
            lemma_two_to_grows(i as nat, 31);
        }
        v = v * 2 + bit_at(data, start + i as u64) as u64;
        i += 1;
    }
    proof {
        lemma_number_bound(data@, start as int, n as nat);
        lemma_two_to_grows(n as nat, 32);
    }
    v as u32
}

/// The points a bitmap keeps.
pub open spec fn map_view(bitmap: Option<Vec<bool>>) -> Option<Seq<bool>> {
    match bitmap {
        Some(v) => Some(v@),
        None => None,
    }
}

fn count_kept(bitmap: &Option<Vec<bool>>, points: usize) -> (r: usize)
    requires
        bitmap matches Some(m) ==> m@.len() == points,
    ensures
        r as int == kept(map_view(*bitmap), points as int),
        r <= points,
{
    match bitmap {
        None => {
            proof {
                lemma_kept(None, points as int, points as int);
            }
            points
        },
        Some(m) => {
            let mut n: usize = 0;
            let mut i: usize = 0;
            while i < points
                invariant
                    i <= points == m@.len(),
                    n <= i,
                    n as int == kept(Some(m@), i as int),
                decreases points - i,
            {
                if m[i] {
                    n += 1;
                }
                i += 1;
            }
            n
        },
    }
}

/// What a packing's result holds.
pub open spec fn agrees_packed(
    r: Result<Packed, String>,
    s: Result<PackedView, Seq<char>>,
) -> bool {
    match r {
        Ok(v) => s == Ok::<PackedView, Seq<char>>(v@),
        Err(e) => s == Err::<PackedView, Seq<char>>(e@),
    }
}

/// Simple packing: each value is `(R + X*2^E) / 10^D`, X being `bits`
/// wide, packed most significant bit first, one per point the bitmap keeps.
/// One too big for a 32-bit float means a broken file, not a gap.
pub fn unpack(data: &[u8], k: &Packing, points: usize, bitmap: &Option<Vec<bool>>) -> (r: Result<
    Packed,
    String,
>)
    requires
        points <= MAX_POINTS,
        k.bits <= 32,
        bitmap matches Some(m) ==> m@.len() == points,
    ensures
        agrees_packed(r, unpacked(data@, *k, points as int, map_view(*bitmap))),
        r matches Ok(p) ==> p.values@.len() == points,
{
    let present: usize = count_kept(bitmap, points);
    let ghost map = map_view(*bitmap);
    if k.count != present {
        let mut e = joined("packs ", decimal(k.count as u64).as_str(), " values for ");
        e.append(decimal(present as u64).as_str());
        e.append(" points with data");
        return Err(e);
    }
    if k.reference / 0x80_0000 % 0x100 == 0xff {
        return Err("reference value isn't a number".to_owned());
    }
    assert(present * k.bits <= 4_000_000 * 32) by (nonlinear_arith)
        requires
            0 <= present <= 4_000_000,
            0 <= k.bits <= 32,
    ;
    let needed: u64 = present as u64 * k.bits as u64;
    let size: usize = data.len();
    if (size as u128) * 8 < needed as u128 {
        return Err("data section too short".to_owned());
    }
    if k.binary > 1023 || k.decimal < -308 {
        return Err("scale factors overflow".to_owned());
    }
    let mut values: Vec<Option<u32>> = Vec::with_capacity(points);
    let mut at: u64 = 0;
    let mut i: usize = 0;
    assert(kept(map, 0) * k.bits == 0);
    while i < points
        invariant
            i <= points <= MAX_POINTS,
            k.bits <= 32,
            bitmap matches Some(m) ==> m@.len() == points,
            map == map_view(*bitmap),
            present as int == kept(map, points as int),
            present <= points,
            needed as int == present * k.bits,
            needed <= 4_000_000 * 32,
            needed <= data@.len() * 8,
            at as int == kept(map, i as int) * k.bits,
            values@.len() == i,
            forall|j: int|
                0 <= j < i ==> values@[j] == (if has(map, j) {
                    Some(number(data@, kept(map, j) * k.bits, k.bits as nat) as u32)
                } else {
                    None::<u32>
                }),
        decreases points - i,
    {
        let keep = match bitmap {
            None => true,
            Some(m) => m[i],
        };
        assert(keep == has(map, i as int));
        if keep {
            proof {
                lemma_kept(map, i as int, i as int);
                lemma_kept(map, i + 1, points as int);
                assert((kept(map, i as int) + 1) * k.bits == kept(map, i as int) * k.bits + k.bits)
                    by (nonlinear_arith);
                assert((kept(map, i as int) + 1) * k.bits <= present * k.bits) by (nonlinear_arith)
                    requires
                        kept(map, i as int) + 1 <= present,
                        k.bits >= 0,
                ;
            }
            values.push(Some(number_at(data, at, k.bits)));
            at = at + k.bits as u64;
        } else {
            values.push(None);
        }
        i += 1;
    }
    assert(values@ =~= packed_values(data@, *k, points as int, map));
    if overflow(k, &values) {
        return Err("values overflow".to_owned());
    }
    Ok(Packed { reference: k.reference, binary: k.binary, decimal: k.decimal, values })
}

/// The least and the most of the values there are.
fn extremes(values: &Vec<Option<u32>>) -> (r: Option<(u32, u32)>)
    ensures
        match r {
            None => forall|i: int| 0 <= i < values@.len() ==> (#[trigger] values@[i]) is None,
            Some((low, high)) => {
                &&& exists|i: int| 0 <= i < values@.len() && #[trigger] values@[i] == Some(low)
                &&& exists|i: int| 0 <= i < values@.len() && #[trigger] values@[i] == Some(high)
                &&& forall|i: int|
                    0 <= i < values@.len() && (#[trigger] values@[i]) is Some ==> low
                        <= values@[i]->0 <= high
            },
        },
{
    let mut r: Option<(u32, u32)> = None;
    let mut i: usize = 0;
    while i < values.len()
        invariant
            i <= values@.len(),
            match r {
                None => forall|j: int| 0 <= j < i ==> (#[trigger] values@[j]) is None,
                Some((low, high)) => {
                    &&& exists|j: int| 0 <= j < i && #[trigger] values@[j] == Some(low)
                    &&& exists|j: int| 0 <= j < i && #[trigger] values@[j] == Some(high)
                    &&& forall|j: int|
                        0 <= j < i && (#[trigger] values@[j]) is Some ==> low <= values@[j]->0
                            <= high
                },
            },
        decreases values@.len() - i,
    {
        if let Some(x) = values[i] {
            assert(values@[i as int] == Some(x));
            r = match r {
                None => Some((x, x)),
                Some((low, high)) => Some(
                    (
                        if x < low {
                            x
                        } else {
                            low
                        },
                        if x > high {
                            x
                        } else {
                            high
                        },
                    ),
                ),
            };
        }
        i += 1;
    }
    r
}

/// A greater X makes a greater value.
proof fn lemma_unscaled_grows(reference: u32, binary: int, decimal: int, x: int, y: int)
    requires
        x <= y,
    ensures
        offset(binary, x) <= offset(binary, y),
        unscaled(reference, binary, x) <= unscaled(reference, binary, y),
        unscaled(reference, binary, x) * ten_up(-decimal) <= unscaled(reference, binary, y)
            * ten_up(-decimal),
        ten_up(decimal) >= 1,
        ten_up(-decimal) >= 1,
{
    let p = pow2((places(binary) + binary) as nat) as int;
    lemma_pow2_pos((places(binary) + binary) as nat);
    assert(x * p <= y * p) by (nonlinear_arith)
        requires
            x <= y,
            p >= 1,
    ;
    if decimal > 0 {
        lemma_ten_to_grows(0, decimal as nat);
    }
    if decimal < 0 {
        lemma_ten_to_grows(0, (-decimal) as nat);
    }
    let (a, b, t) = (
        unscaled(reference, binary, x),
        unscaled(reference, binary, y),
        ten_up(-decimal),
    );
    assert(a * t <= b * t) by (nonlinear_arith)
        requires
            a <= b,
            t >= 1,
    ;
}

/// Powers of ten outgrow every third power of two.
proof fn lemma_ten_outgrows(n: nat)
    ensures
        ten_to(n) >= pow2(3 * n),
    decreases n,
{
    vstd::arithmetic::power2::lemma2_to64();
    if n > 0 {
        lemma_ten_outgrows((n - 1) as nat);
        lemma_pow2_adds(3, (3 * (n - 1)) as nat);
    }
}

/// A finite 32-bit float is below 2^128.
proof fn lemma_size32(bits: u32)
    requires
        finite32(bits),
    ensures
        0 <= size32(bits) < pow2(277),
{
    let low = bits as int % 0x8000_0000;
    let (e, f) = (low / 0x80_0000, low % 0x80_0000);
    assert(0 <= e <= 254) by {
        assert(low / 0x80_0000 == bits as int / 0x80_0000 % 0x100);
    }
    vstd::arithmetic::power2::lemma2_to64();
    lemma_pow2_adds(24, 253);
    lemma_pow2_pos(253);
    if e == 0 {
        assert(pow2(24) * pow2(253) >= pow2(24)) by (nonlinear_arith)
            requires
                pow2(253) >= 1,
        ;
    } else {
        let p = pow2((e - 1) as nat) as int;
        lemma_pow2_pos((e - 1) as nat);
        if e < 254 {
            lemma_pow2_strictly_increases((e - 1) as nat, 253);
        }
        assert(0 <= (0x80_0000 + f) * p < pow2(24) * pow2(253)) by (nonlinear_arith)
            requires
                0 <= f < 0x80_0000,
                pow2(24) == 0x100_0000,
                1 <= p <= pow2(253),
        ;
    }
}

/// With so many places after the point, only `X*2^E` can be too big.
proof fn lemma_scaled_down(reference: u32, binary: int, decimal: int, x: int)
    requires
        finite32(reference),
        decimal > 300,
        0 <= x,
        offset(binary, x) < pow2((places(binary) + 1024) as nat),
    ensures
        !too_big(reference, binary, decimal, x),
{
    let s = places(binary);
    lemma_size32(reference);
    lemma_pow2_pos((s - 149) as nat);
    lemma_pow2_adds(277, (s - 149) as nat);
    let (a, p) = (size32(reference), pow2((s - 149) as nat) as int);
    assert(0 <= a * p < pow2(277) * p) by (nonlinear_arith)
        requires
            0 <= a < pow2(277),
            p >= 1,
    ;
    assert((-a) * p == -(a * p)) by (nonlinear_arith);
    lemma_pow2_strictly_increases((s + 128) as nat, (s + 1024) as nat);
    lemma_pow2_unfold((s + 1025) as nat);
    lemma_unscaled_grows(reference, binary, decimal, 0, x);
    assert(offset(binary, 0) == 0);
    let v = unscaled(reference, binary, x);
    assert(-pow2((s + 1025) as nat) < v < pow2((s + 1025) as nat));
    assert(v * 1 == v);
    lemma_ten_outgrows(decimal as nat);
    lemma_pow2_strictly_increases(900, (3 * decimal) as nat);
    lemma_pow2_adds((s + 103) as nat, 900);
    lemma_pow2_adds(24, (s + 1003) as nat);
    lemma_pow2_strictly_increases((s + 1025) as nat, (s + 1027) as nat);
    vstd::arithmetic::power2::lemma2_to64();
    lemma_pow2_pos((s + 103) as nat);
    lemma_pow2_pos(900);
    let (q, t) = (pow2((s + 103) as nat) as int, ten_to(decimal as nat));
    assert((0x1ff_ffff * q) * t >= 0x100_0000 * (q * pow2(900))) by (nonlinear_arith)
        requires
            q >= 1,
            t >= pow2(900) >= 1,
    ;
}

/// Whether the value of the least or of the most X is too big.
fn extreme_too_big(k: &Packing, low: u32, high: u32) -> (r: bool)
    requires
        finite32(k.reference),
        k.binary <= 1023,
        k.decimal >= -308,
        low <= high,
    ensures
        r == (too_big(k.reference, k.binary as int, k.decimal as int, low as int) || too_big(
            k.reference,
            k.binary as int,
            k.decimal as int,
            high as int,
        )),
{
    let ghost (f, e, d) = (k.reference, k.binary as int, k.decimal as int);
    let places: u32 = if k.binary < -149 {
        (-(k.binary as i64)) as u32
    } else {
        149
    };
    let up: u32 = (places as i64 + k.binary as i64) as u32;
    let most = Big::of(high, up);
    assert(most@ == offset(e, high as int));
    proof {
        lemma_unscaled_grows(f, e, d, low as int, high as int);
    }
    if Big::of(1, places + 1024).at_most(&most) {
        return true;
    }
    if k.decimal > 300 {
        proof {
            lemma_scaled_down(f, e, d, low as int);
            lemma_scaled_down(f, e, d, high as int);
        }
        return false;
    }
    let (tens, tenths): (u32, u32) = if k.decimal < 0 {
        ((-k.decimal) as u32, 0)
    } else {
        (0, k.decimal as u32)
    };
    let digits: u32 = k.reference % 0x8000_0000;
    let shift: u32 = digits / 0x80_0000;
    let size = if shift == 0 {
        Big::of(digits % 0x80_0000, places - 149)
    } else {
        Big::of(0x80_0000 + digits % 0x80_0000, shift - 1 + (places - 149))
    };
    let ghost unit = pow2((places - 149) as nat) as int;
    proof {
        if shift > 0 {
            lemma_pow2_adds((shift - 1) as nat, (places - 149) as nat);
            let (a, b) = (0x80_0000 + digits % 0x80_0000, pow2((shift - 1) as nat) as int);
            assert(a * (b * unit) == (a * b) * unit) by (nonlinear_arith);
        }
        assert(size@ == size32(f) * unit);
    }
    let limit = Big::of(0x1ff_ffff, places + 103).times_ten_to(tenths);
    let least = Big::of(low, up).times_ten_to(tens);
    let most = most.times_ten_to(tens);
    let size = size.times_ten_to(tens);
    proof {
        let t = ten_to(tens as nat);
        assert(ten_up(-d) == t && ten_up(d) == ten_to(tenths as nat));
        assert(limit@ == too_far(e) * ten_up(d));
        let a = size32(f) * unit;
        let (x, y) = (offset(e, low as int), offset(e, high as int));
        assert((a + x) * t == a * t + x * t) by (nonlinear_arith);
        assert((a + y) * t == a * t + y * t) by (nonlinear_arith);
        assert((x - a) * t == x * t - a * t) by (nonlinear_arith);
        assert((y - a) * t == y * t - a * t) by (nonlinear_arith);
        assert((-size32(f)) * unit == -(size32(f) * unit)) by (nonlinear_arith);
        lemma_size32(f);
        lemma_pow2_pos((places - 149) as nat);
        lemma_pow2_pos((places + 103) as nat);
        lemma_unscaled_grows(f, e, d, 0, low as int);
        assert(offset(e, 0) == 0);
        assert(a >= 0) by (nonlinear_arith)
            requires
                a == size32(f) * unit,
                size32(f) >= 0,
                unit >= 1,
        ;
        assert(a * t >= 0) by (nonlinear_arith)
            requires
                a >= 0,
                t >= 1,
        ;
        assert(x * t >= 0) by (nonlinear_arith)
            requires
                x >= 0,
                t >= 1,
        ;
        assert(limit@ >= 1) by (nonlinear_arith)
            requires
                limit@ == too_far(e) * ten_up(d),
                too_far(e) >= 1,
                ten_up(d) >= 1,
        ;
    }
    if k.reference < 0x8000_0000 {
        limit.at_most(&size.plus(&most))
    } else {
        size.plus(&limit).at_most(&most) || least.plus(&limit).at_most(&size)
    }
}

/// Whether a value is too big at any point that has one. The least and the
/// most X decide it.
fn overflow(k: &Packing, values: &Vec<Option<u32>>) -> (r: bool)
    requires
        finite32(k.reference),
        k.binary <= 1023,
        k.decimal >= -308,
    ensures
        r == any_too_big(*k, values@),
{
    match extremes(values) {
        None => false,
        Some((low, high)) => {
            let r = extreme_too_big(k, low, high);
            proof {
                let (f, e, d) = (k.reference, k.binary as int, k.decimal as int);
                if any_too_big(*k, values@) {
                    let i = choose|i: int|
                        0 <= i < values@.len() && (#[trigger] values@[i]) is Some && too_big(
                            f,
                            e,
                            d,
                            values@[i]->0 as int,
                        );
                    let x = values@[i]->0 as int;
                    lemma_unscaled_grows(f, e, d, low as int, x);
                    lemma_unscaled_grows(f, e, d, x, high as int);
                    assert(too_big(f, e, d, low as int) || too_big(f, e, d, high as int));
                }
            }
            r
        },
    }
}

/// Whether the bits of a 32-bit float are a finite number's.
fn is_finite32(bits: u32) -> (r: bool)
    ensures
        r == finite32(bits),
{
    bits / 0x80_0000 % 0x100 != 0xff
}

/// Whether each point a field keeps a value at has a finite one. Only the
/// bitmap's gaps may be missing.
pub open spec fn all_finite(values: Seq<Option<u32>>, bits: Seq<u32>) -> bool {
    forall|i: int| 0 <= i < bits.len() && values[i] is Some ==> finite32(#[trigger] bits[i])
}

/// Checks that a field's values all fit as they were scaled: `bits` are the
/// 32-bit floats they came to, point by point. Rounding on the way can take one
/// that just fits past the last float.
pub fn fits(p: &Packed, bits: &[u32]) -> (r: Result<(), String>)
    requires
        bits@.len() == p.values@.len(),
    ensures
        r is Ok <==> all_finite(p.values@, bits@),
        r matches Err(e) ==> e@ == "values overflow"@,
{
    let mut i: usize = 0;
    while i < bits.len()
        invariant
            i <= bits@.len() == p.values@.len(),
            forall|j: int|
                0 <= j < i && p.values@[j] is Some ==> finite32(#[trigger] bits@[j]),
        decreases bits@.len() - i,
    {
        if p.values[i].is_some() && !is_finite32(bits[i]) {
            assert(!finite32(bits@[i as int]));
            return Err("values overflow".to_owned());
        }
        i += 1;
    }
    Ok(())
}

// --- Messages -------------------------------------------------------------------

/// What a message has said so far.
pub ghost struct Said {
    pub reference: Option<int>,
    pub grid: Option<Grid>,
    pub product: Option<Product>,
    pub packing: Option<Packing>,
    /// The bitmap for the field being read: Some(None) when it has none.
    pub bitmap: Option<Option<Seq<bool>>>,
    /// The last bitmap defined.
    pub defined: Option<Seq<bool>>,
    pub fields: Seq<FieldView>,
    /// How many more values may be decoded.
    pub budget: int,
}

/// A message that has said nothing.
pub open spec fn unsaid(budget: int) -> Said {
    Said {
        reference: None,
        grid: None,
        product: None,
        packing: None,
        bitmap: None,
        defined: None,
        fields: Seq::empty(),
        budget,
    }
}

/// Section 1: the run's time.
pub open spec fn identified(s: Seq<u8>, said: Said) -> Result<Said, Seq<char>> {
    let (y, m, d) = (be_at(s, 12, 14), s[14] as int, s[15] as int);
    let (h, min, sec) = (s[16] as int, s[17] as int, s[18] as int);
    if s.len() < 19 {
        Err("section 1 is too short"@)
    } else if !time::moment_ok(y, m, d, h, min, sec) {
        Err("impossible reference time"@)
    } else {
        Ok(Said { reference: Some(time::unix_time(y, m, d, h, min, sec)), ..said })
    }
}

/// Which of the grid's points a section's bits keep.
pub open spec fn bitmap_of(bits: Seq<u8>, points: int) -> Seq<bool> {
    Seq::new(points as nat, |i: int| bit(bits, i) == 1)
}

/// Section 6: the bitmap.
pub open spec fn mapped(s: Seq<u8>, said: Said) -> Result<Said, Seq<char>> {
    let points = said.grid->0.spec_len();
    if s.len() < 6 {
        Err("section 6 is too short"@)
    } else if said.grid is None {
        Err("bitmap before grid"@)
    } else if s[5] == 255 {
        Ok(Said { bitmap: Some(None), ..said })
    } else if s[5] == 0 {
        if (s.len() - 6) * 8 < points {
            Err("bitmap too short for the grid"@)
        } else {
            let map = bitmap_of(s.skip(6), points);
            Ok(Said { bitmap: Some(Some(map)), defined: Some(map), ..said })
        }
    } else if s[5] == 254 {
        if said.defined is None {
            Err("reuses a bitmap never defined"@)
        } else if said.defined->0.len() != points {
            Err("reuses a bitmap made for another grid"@)
        } else {
            Ok(Said { bitmap: Some(said.defined), ..said })
        }
    } else {
        Err("predefined bitmap "@ + dec(s[5] as nat) + " isn't supported"@)
    }
}

/// Section 7: the values, which end a field. Its product, packing and bitmap
/// are used up.
pub open spec fn filled(s: Seq<u8>, discipline: u8, said: Said) -> Result<Said, Seq<char>> {
    if said.reference is None || said.grid is None || said.product is None || said.packing is None
        || said.bitmap is None {
        Err("data before its identification, grid, product, packing or bitmap"@)
    } else {
        let g = said.grid->0;
        let p = said.product->0;
        let map = said.bitmap->0;
        if map is Some && map->0.len() != g.spec_len() {
            Err("bitmap doesn't fit the grid"@)
        } else if said.budget < g.spec_len() {
            Err("too many values to decode in one file"@)
        } else {
            match unpacked(s.skip(5), said.packing->0, g.spec_len(), map) {
                Err(e) => Err(e),
                Ok(values) => Ok(
                    Said {
                        product: None,
                        packing: None,
                        bitmap: None,
                        fields: said.fields.push(
                            FieldView {
                                discipline,
                                category: p.category,
                                number: p.number,
                                surface: p.surface,
                                level: p.level,
                                reference: said.reference->0,
                                lead: p.lead as int,
                                grid: g,
                                values,
                            },
                        ),
                        budget: said.budget - g.spec_len(),
                        ..said
                    },
                ),
            }
        }
    }
}

/// What a message has said once it also says section `s`.
pub open spec fn section(s: Seq<u8>, discipline: u8, said: Said) -> Result<Said, Seq<char>> {
    if s[4] == 1 {
        identified(s, said)
    } else if s[4] == 2 {
        Ok(said)
    } else if s[4] == 3 {
        match grid_of(s) {
            Err(e) => Err(e),
            // A bitmap describes the grid before it, never a new one.
            Ok(g) => Ok(Said { grid: Some(g), bitmap: None, ..said }),
        }
    } else if s[4] == 4 {
        match product_of(s) {
            Err(e) => Err(e),
            Ok(p) => Ok(Said { product: Some(p), ..said }),
        }
    } else if s[4] == 5 {
        match packing_of(s) {
            Err(e) => Err(e),
            Ok(k) => Ok(Said { packing: Some(k), ..said }),
        }
    } else if s[4] == 6 {
        mapped(s, said)
    } else if s[4] == 7 {
        filled(s, discipline, said)
    } else {
        Err("unknown section "@ + dec(s[4] as nat))
    }
}

/// A message's sections from byte `at` on, `rest`, to its end.
pub open spec fn sections(rest: Seq<u8>, at: int, discipline: u8, said: Said) -> Result<
    Said,
    Seq<char>,
>
    decreases rest.len(),
{
    let len = be_at(rest, 0, 4);
    if rest =~= seq![0x37u8, 0x37, 0x37, 0x37] {
        Ok(said)
    } else if rest.len() < 5 {
        Err("no end section"@)
    } else if len < 5 || len > rest.len() {
        Err("section at byte "@ + dec(at as nat) + " runs past the message"@)
    } else {
        match section(rest.take(len), discipline, said) {
            Err(e) => Err(e),
            Ok(next) => sections(rest.skip(len), at + len, discipline, next),
        }
    }
}

/// The fields of messages back to back, `rest` of a file from byte `at` on,
/// the first of them its `n`th, and how many more values may be decoded.
pub open spec fn messages(rest: Seq<u8>, at: int, n: int, budget: int) -> Result<
    (Seq<FieldView>, int),
    Seq<char>,
>
    decreases rest.len(),
{
    let len = be_at(rest, 8, 16);
    if rest.len() == 0 {
        Ok((Seq::empty(), budget))
    } else if rest.len() < 16 || rest.take(4) != seq![0x47u8, 0x52, 0x49, 0x42] {
        Err("message "@ + dec(n as nat) + ": not GRIB at byte "@ + dec(at as nat))
    } else if rest[7] != 2 {
        Err("message "@ + dec(n as nat) + ": GRIB edition "@ + dec(rest[7] as nat) + ", not 2"@)
    } else if len < 20 || len > rest.len() {
        Err("message "@ + dec(n as nat) + ": cut short"@)
    } else {
        match sections(rest.subrange(16, len), 16, rest[6], unsaid(budget)) {
            Err(e) => Err("message "@ + dec(n as nat) + ": "@ + e),
            Ok(said) => after(
                said.fields,
                messages(rest.skip(len), at + len, n + 1, said.budget),
            ),
        }
    }
}

/// A result with fields read before it.
pub open spec fn after(
    read: Seq<FieldView>,
    r: Result<(Seq<FieldView>, int), Seq<char>>,
) -> Result<(Seq<FieldView>, int), Seq<char>> {
    match r {
        Ok((fields, budget)) => Ok((read + fields, budget)),
        Err(e) => Err(e),
    }
}

/// Every field in a file, or why it can't be read.
pub open spec fn parsed(bytes: Seq<u8>) -> Result<Seq<FieldView>, Seq<char>> {
    match messages(bytes, 0, 1, MAX_VALUES as int) {
        Ok((fields, _)) => Ok(fields),
        Err(e) => Err(e),
    }
}

/// Whether a field has a value, or a gap, at each point of its grid, and times
/// that can be counted with.
pub open spec fn field_whole(f: FieldView) -> bool {
    &&& grid_ok(f.grid)
    &&& f.values.values.len() == f.grid.spec_len()
    &&& -100_000_000_000 <= f.reference <= 400_000_000_000
    &&& -MAX_LEAD <= f.lead <= MAX_LEAD
}

/// What a field read from a file makes sure of.
pub open spec fn field_ok(f: FieldView) -> bool {
    &&& field_whole(f)
    &&& finite32(f.values.reference)
    &&& f.values.binary <= 1023
    &&& f.values.decimal >= -308
}

/// What a message has said so far.
struct Reader {
    reference: Option<i64>,
    grid: Option<Grid>,
    product: Option<Product>,
    packing: Option<Packing>,
    bitmap: Option<Option<Vec<bool>>>,
    defined: Option<Vec<bool>>,
    fields: Vec<Field>,
    budget: usize,
}

impl View for Reader {
    type V = Said;

    closed spec fn view(&self) -> Said {
        Said {
            reference: match self.reference {
                Some(t) => Some(t as int),
                None => None,
            },
            grid: self.grid,
            product: self.product,
            packing: self.packing,
            bitmap: match self.bitmap {
                Some(m) => Some(map_view(m)),
                None => None,
            },
            defined: map_view(self.defined),
            fields: fields_view(self.fields@),
            budget: self.budget as int,
        }
    }
}

/// Whether a section left the reader as a spec says, or failed as it says.
spec fn took(r: Result<(), String>, after: Reader, s: Result<Said, Seq<char>>) -> bool {
    match r {
        Ok(_) => s == Ok::<Said, Seq<char>>(after@),
        Err(e) => s == Err::<Said, Seq<char>>(e@),
    }
}

/// A copy of a bitmap.
fn copy_map(m: &Vec<bool>) -> (r: Vec<bool>)
    ensures
        r@ == m@,
{
    let mut out: Vec<bool> = Vec::with_capacity(m.len());
    let mut i: usize = 0;
    while i < m.len()
        invariant
            i <= m@.len(),
            out@ == m@.take(i as int),
        decreases m@.len() - i,
    {
        out.push(m[i]);
        i += 1;
        assert(m@.take(i as int) =~= m@.take(i - 1).push(m@[i - 1]));
    }
    assert(m@.take(i as int) =~= m@);
    out
}

/// The grid's points a section's bits keep.
fn read_map(bits: &[u8], points: usize) -> (r: Vec<bool>)
    requires
        points <= bits@.len() * 8,
        points <= MAX_POINTS,
    ensures
        r@ == bitmap_of(bits@, points as int),
{
    let mut map: Vec<bool> = Vec::with_capacity(points);
    let mut i: usize = 0;
    while i < points
        invariant
            i <= points <= bits@.len() * 8,
            points <= MAX_POINTS,
            map@.len() == i,
            forall|j: int| 0 <= j < i ==> map@[j] == (bit(bits@, j) == 1),
        decreases points - i,
    {
        map.push(bit_at(bits, i as u64) == 1);
        i += 1;
    }
    assert(map@ =~= bitmap_of(bits@, points as int));
    map
}

impl Reader {
    fn new(budget: usize) -> (r: Reader)
        ensures
            r@ == unsaid(budget as int),
            r.sound(),
    {
        let r = Reader {
            reference: None,
            grid: None,
            product: None,
            packing: None,
            bitmap: None,
            defined: None,
            fields: Vec::new(),
            budget,
        };
        assert(fields_view(r.fields@) =~= Seq::empty());
        r
    }

    /// What the sections read so far make sure of.
    spec fn sound(self) -> bool {
        &&& self.reference matches Some(t) ==> -100_000_000_000 <= t <= 400_000_000_000
        &&& self.grid matches Some(g) ==> grid_ok(g)
        &&& self.product matches Some(p) ==> -MAX_LEAD <= p.lead <= MAX_LEAD
        &&& self.packing matches Some(k) ==> k.bits <= 32
        &&& forall|i: int| 0 <= i < self.fields@.len() ==> field_ok(#[trigger] self.fields@[i]@)
    }

    /// Section 1.
    fn identify(&mut self, s: &[u8]) -> (r: Result<(), String>)
        requires
            old(self).sound(),
        ensures
            final(self).sound(),
            took(r, *final(self), identified(s@, old(self)@)),
    {
        if s.len() < 19 {
            return Err("section 1 is too short".to_owned());
        }
        match time::moment(
            be2(s, 12) as u32,
            s[14] as u32,
            s[15] as u32,
            s[16] as u32,
            s[17] as u32,
            s[18] as u32,
        ) {
            None => Err("impossible reference time".to_owned()),
            Some(t) => {
                self.reference = Some(t);
                Ok(())
            },
        }
    }

    /// Section 6.
    fn map(&mut self, s: &[u8]) -> (r: Result<(), String>)
        requires
            old(self).sound(),
        ensures
            final(self).sound(),
            took(r, *final(self), mapped(s@, old(self)@)),
    {
        let size: usize = s.len();
        if size < 6 {
            return Err("section 6 is too short".to_owned());
        }
        let grid = match self.grid {
            None => return Err("bitmap before grid".to_owned()),
            Some(g) => g,
        };
        let points: usize = grid.len();
        let indicator: u8 = s[5];
        if indicator == 255 {
            self.bitmap = Some(None);
        } else if indicator == 0 {
            let bits = slice_subrange(s, 6, size);
            assert(bits@ =~= s@.skip(6));
            if ((size - 6) as u128) * 8 < points as u128 {
                return Err("bitmap too short for the grid".to_owned());
            }
            let map = read_map(bits, points);
            self.defined = Some(copy_map(&map));
            self.bitmap = Some(Some(map));
        } else if indicator == 254 {
            let map = match &self.defined {
                None => return Err("reuses a bitmap never defined".to_owned()),
                Some(m) => copy_map(m),
            };
            if map.len() != points {
                return Err("reuses a bitmap made for another grid".to_owned());
            }
            self.bitmap = Some(Some(map));
        } else {
            return Err(
                joined(
                    "predefined bitmap ",
                    decimal(indicator as u64).as_str(),
                    " isn't supported",
                ),
            );
        }
        Ok(())
    }

    /// Section 7.
    fn fill(&mut self, s: &[u8], discipline: u8) -> (r: Result<(), String>)
        requires
            old(self).sound(),
            s@.len() >= 5,
        ensures
            final(self).sound(),
            took(r, *final(self), filled(s@, discipline, old(self)@)),
    {
        let product = self.product.take();
        let packing = self.packing.take();
        let bitmap = self.bitmap.take();
        if let (Some(reference), Some(g), Some(p), Some(k), Some(map)) = (
            self.reference,
            self.grid,
            product,
            packing,
            bitmap,
        ) {
            let points: usize = g.len();
            let fits = match &map {
                None => true,
                Some(m) => m.len() == points,
            };
            if !fits {
                return Err("bitmap doesn't fit the grid".to_owned());
            }
            if self.budget < points {
                return Err("too many values to decode in one file".to_owned());
            }
            self.budget = self.budget - points;
            let data = slice_subrange(s, 5, s.len());
            assert(data@ =~= s@.skip(5));
            let values = match unpack(data, &k, points, &map) {
                Err(e) => return Err(e),
                Ok(v) => v,
            };
            let field = Field {
                discipline,
                category: p.category,
                number: p.number,
                surface: p.surface,
                level: p.level,
                reference,
                lead: p.lead,
                grid: g,
                values,
            };
            assert(field_ok(field@));
            let ghost before = self.fields@;
            self.fields.push(field);
            assert(fields_view(self.fields@) =~= fields_view(before).push(field@));
            Ok(())
        } else {
            Err("data before its identification, grid, product, packing or bitmap".to_owned())
        }
    }

    /// One section.
    fn section(&mut self, s: &[u8], discipline: u8) -> (r: Result<(), String>)
        requires
            old(self).sound(),
            s@.len() >= 5,
        ensures
            final(self).sound(),
            took(r, *final(self), section(s@, discipline, old(self)@)),
    {
        let n: u8 = s[4];
        if n == 1 {
            self.identify(s)
        } else if n == 2 {
            Ok(())
        } else if n == 3 {
            match grid_section(s) {
                Err(e) => Err(e),
                Ok(g) => {
                    self.grid = Some(g);
                    // A bitmap describes the grid before it, never a new one.
                    self.bitmap = None;
                    Ok(())
                },
            }
        } else if n == 4 {
            match product_section(s) {
                Err(e) => Err(e),
                Ok(p) => {
                    self.product = Some(p);
                    Ok(())
                },
            }
        } else if n == 5 {
            match packing_section(s) {
                Err(e) => Err(e),
                Ok(k) => {
                    self.packing = Some(k);
                    Ok(())
                },
            }
        } else if n == 6 {
            self.map(s)
        } else if n == 7 {
            self.fill(s, discipline)
        } else {
            let mut e = "unknown section ".to_owned();
            e.append(decimal(n as u64).as_str());
            Err(e)
        }
    }
}

/// Whether four bytes of `s` from `at` on are these.
fn four_at(s: &[u8], at: usize, a: u8, b: u8, c: u8, d: u8) -> (r: bool)
    requires
        at + 4 <= s@.len(),
    ensures
        r == (s@.subrange(at as int, at + 4) =~= seq![a, b, c, d]),
{
    let end: usize = s.len();
    assert(at + 4 <= end);
    assert(s@.subrange(at as int, at + 4) =~= seq![
        s@[at as int],
        s@[at + 1],
        s@[at + 2],
        s@[at + 3],
    ]);
    let r = s[at] == a && s[at + 1] == b && s[at + 2] == c && s[at + 3] == d;
    proof {
        if !r {
            let x = s@.subrange(at as int, at + 4);
            let y = seq![a, b, c, d];
            assert(x[0] != y[0] || x[1] != y[1] || x[2] != y[2] || x[3] != y[3]);
        }
    }
    r
}

/// One message: its fields, and how many more values may be decoded.
fn message(m: &[u8], budget: usize) -> (r: Result<(Vec<Field>, usize), String>)
    requires
        m@.len() >= 20,
    ensures
        match sections(m@.skip(16), 16, m@[6], unsaid(budget as int)) {
            Ok(said) => r matches Ok((fields, left)) && fields_view(fields@) == said.fields && left
                == said.budget,
            Err(e) => r matches Err(text) && text@ == e,
        },
        r matches Ok((fields, _)) ==> forall|i: int|
            0 <= i < fields@.len() ==> field_ok(#[trigger] fields@[i]@),
{
    let discipline: u8 = m[6];
    let end: usize = m.len();
    let mut pos: usize = 16;
    let mut reader = Reader::new(budget);
    let ghost whole = sections(m@.skip(16), 16, m@[6], unsaid(budget as int));
    loop
        invariant
            16 <= pos <= end,
            end == m@.len(),
            discipline == m@[6],
            reader.sound(),
            whole == sections(m@.skip(16), 16, m@[6], unsaid(budget as int)),
            whole == sections(m@.skip(pos as int), pos as int, discipline, reader@),
        decreases end - pos,
    {
        let ghost rest = m@.skip(pos as int);
        if end - pos == 4 {
            assert(rest =~= m@.subrange(pos as int, pos + 4));
            if four_at(m, pos, 0x37, 0x37, 0x37, 0x37) {
                return Ok((reader.fields, reader.budget));
            }
        }
        if end - pos < 5 {
            return Err("no end section".to_owned());
        }
        let len: u32 = be4(m, pos);
        assert(rest.subrange(0, 4) =~= m@.subrange(pos as int, pos + 4));
        if len < 5 || len as usize > end - pos {
            return Err(
                joined("section at byte ", decimal(pos as u64).as_str(), " runs past the message"),
            );
        }
        let next: usize = pos + len as usize;
        let s = slice_subrange(m, pos, next);
        assert(s@ =~= rest.take(len as int));
        match reader.section(s, discipline) {
            Err(e) => return Err(e),
            Ok(_) => {},
        }
        assert(rest.skip(len as int) =~= m@.skip(next as int));
        pos = next;
    }
}

/// The fields of a list, then those of another.
fn extend(out: &mut Vec<Field>, more: Vec<Field>)
    ensures
        fields_view(final(out)@) == fields_view(old(out)@) + fields_view(more@),
        final(out)@ == old(out)@ + more@,
{
    let ghost added = more@;
    let mut more = more;
    out.append(&mut more);
    assert(fields_view(out@) =~= fields_view(old(out)@) + fields_view(added));
}

/// Every field in `bytes`: one or more whole GRIB2 messages, back to back.
pub fn parse(bytes: &[u8]) -> (r: Result<Vec<Field>, String>)
    ensures
        match parsed(bytes@) {
            Ok(fields) => r matches Ok(v) && fields_view(v@) == fields,
            Err(e) => r matches Err(text) && text@ == e,
        },
        r matches Ok(v) ==> forall|i: int| 0 <= i < v@.len() ==> field_ok(#[trigger] v@[i]@),
{
    let mut fields: Vec<Field> = Vec::new();
    let mut budget: usize = MAX_VALUES;
    let end: usize = bytes.len();
    let mut pos: usize = 0;
    let mut n: u64 = 0;
    let ghost whole = messages(bytes@, 0, 1, MAX_VALUES as int);
    proof {
        assert(bytes@.skip(0) =~= bytes@);
        assert(fields_view(fields@) =~= Seq::empty());
        assert(after(Seq::empty(), whole) == whole) by {
            if let Ok((f, b)) = whole {
                assert(Seq::<FieldView>::empty() + f =~= f);
            }
        }
    }
    while pos < end
        invariant
            pos <= end,
            end == bytes@.len(),
            n <= pos,
            whole == messages(bytes@, 0, 1, MAX_VALUES as int),
            whole == after(
                fields_view(fields@),
                messages(bytes@.skip(pos as int), pos as int, n + 1, budget as int),
            ),
            forall|i: int| 0 <= i < fields@.len() ==> field_ok(#[trigger] fields@[i]@),
        decreases end - pos,
    {
        n += 1;
        let rest = slice_subrange(bytes, pos, end);
        assert(rest@ =~= bytes@.skip(pos as int));
        if rest.len() < 16 || !four_at(rest, 0, 0x47, 0x52, 0x49, 0x42) {
            assert(rest@.len() >= 4 ==> rest@.take(4) =~= rest@.subrange(0, 4));
            let mut e = joined("message ", decimal(n).as_str(), ": not GRIB at byte ");
            e.append(decimal(pos as u64).as_str());
            return Err(e);
        }
        assert(rest@.take(4) =~= rest@.subrange(0, 4));
        if rest[7] != 2 {
            let mut e = joined("message ", decimal(n).as_str(), ": GRIB edition ");
            e.append(decimal(rest[7] as u64).as_str());
            e.append(", not 2");
            return Err(e);
        }
        let len: u64 = be(slice_subrange(rest, 8, 16));
        if len < 16 + 4 || len > rest.len() as u64 {
            return Err(joined("message ", decimal(n).as_str(), ": cut short"));
        }
        let m = slice_subrange(rest, 0, len as usize);
        assert(m@.skip(16) =~= rest@.subrange(16, len as int));
        match message(m, budget) {
            Err(e) => {
                let mut text = joined("message ", decimal(n).as_str(), ": ");
                text.append(e.as_str());
                return Err(text);
            },
            Ok((more, left)) => {
                let ghost read = fields_view(fields@);
                proof {
                    let tail = messages(
                        rest@.skip(len as int),
                        pos + len,
                        n + 1,
                        left as int,
                    );
                    if let Ok((f, b)) = tail {
                        assert(read + (fields_view(more@) + f) =~= (read + fields_view(more@)) + f);
                    }
                    assert(rest@.skip(len as int) =~= bytes@.skip(pos + len));
                }
                extend(&mut fields, more);
                budget = left;
            },
        }
        pos = pos + len as usize;
    }
    proof {
        let r = messages(bytes@.skip(pos as int), pos as int, n + 1, budget as int);
        assert(bytes@.skip(pos as int).len() == 0);
        assert(fields_view(fields@) + Seq::<FieldView>::empty() =~= fields_view(fields@));
    }
    Ok(fields)
}

// --- Laws -----------------------------------------------------------------------

/// How many values fields hold, all together.
pub open spec fn points(fields: Seq<FieldView>) -> int
    decreases fields.len(),
{
    if fields.len() == 0 {
        0
    } else {
        points(fields.drop_last()) + fields.last().grid.spec_len()
    }
}

proof fn lemma_points_add(a: Seq<FieldView>, b: Seq<FieldView>)
    ensures
        points(a + b) == points(a) + points(b),
    decreases b.len(),
{
    if b.len() == 0 {
        assert(a + b =~= a);
    } else {
        lemma_points_add(a, b.drop_last());
        assert((a + b).drop_last() =~= a + b.drop_last());
    }
}

/// Sections read the same with more to spend, or with less as long as it is
/// enough.
proof fn lemma_sections(rest: Seq<u8>, at: int, discipline: u8, said: Said, more: int)
    requires
        said.budget >= 0,
        said.budget + more >= 0,
        sections(rest, at, discipline, said) is Ok,
        said.budget + more >= points(sections(rest, at, discipline, said)->Ok_0.fields) - points(
            said.fields,
        ),
    ensures
        ({
            let end = sections(rest, at, discipline, said)->Ok_0;
            &&& sections(rest, at, discipline, Said { budget: said.budget + more, ..said }) == Ok::<
                Said,
                Seq<char>,
            >(Said { budget: end.budget + more, ..end })
        }),
    decreases rest.len(),
{
    let len = be_at(rest, 0, 4);
    if !(rest =~= seq![0x37u8, 0x37, 0x37, 0x37]) {
        let s = rest.take(len);
        let next = section(s, discipline, said)->Ok_0;
        let richer = Said { budget: said.budget + more, ..said };
        lemma_section(s, discipline, said);
        lemma_sections_grow(rest.skip(len), at + len, discipline, next);
        assert(section(s, discipline, richer) == Ok::<Said, Seq<char>>(
            Said { budget: next.budget + more, ..next },
        ));
        lemma_sections(rest.skip(len), at + len, discipline, next, more);
    }
}

/// A section takes what it adds out of the budget.
proof fn lemma_section(s: Seq<u8>, discipline: u8, said: Said)
    requires
        said.budget >= 0,
        section(s, discipline, said) is Ok,
    ensures
        ({
            let next = section(s, discipline, said)->Ok_0;
            &&& next.budget >= 0
            &&& next.budget == said.budget + points(said.fields) - points(next.fields)
            &&& points(next.fields) >= points(said.fields)
        }),
{
    let next = section(s, discipline, said)->Ok_0;
    if s[4] == 7 {
        let g = said.grid->0;
        assert(g.spec_len() >= 0) by (nonlinear_arith)
            requires
                g.spec_len() == g.nx * g.ny,
        ;
        assert(next.fields.drop_last() =~= said.fields);
    }
}

/// Sections use up as many values as they add.
proof fn lemma_sections_grow(rest: Seq<u8>, at: int, discipline: u8, said: Said)
    requires
        said.budget >= 0,
        sections(rest, at, discipline, said) is Ok,
    ensures
        ({
            let end = sections(rest, at, discipline, said)->Ok_0;
            &&& points(end.fields) >= points(said.fields)
            &&& end.budget == said.budget + points(said.fields) - points(end.fields)
            &&& end.budget >= 0
        }),
    decreases rest.len(),
{
    let len = be_at(rest, 0, 4);
    if !(rest =~= seq![0x37u8, 0x37, 0x37, 0x37]) {
        let s = rest.take(len);
        let next = section(s, discipline, said)->Ok_0;
        lemma_section(s, discipline, said);
        lemma_sections_grow(rest.skip(len), at + len, discipline, next);
    }
}

/// Messages read the same wherever they stand in a file, and use up as many
/// values as they hold.
proof fn lemma_messages(rest: Seq<u8>, at: int, n: int, budget: int, at2: int, n2: int, budget2: int)
    requires
        budget >= 0,
        messages(rest, at, n, budget) is Ok,
        budget2 >= points(messages(rest, at, n, budget)->Ok_0.0),
    ensures
        ({
            let (fields, left) = messages(rest, at, n, budget)->Ok_0;
            &&& messages(rest, at2, n2, budget2) == Ok::<(Seq<FieldView>, int), Seq<char>>(
                (fields, budget2 - points(fields)),
            )
            &&& left == budget - points(fields)
            &&& left >= 0
            &&& points(fields) >= 0
        }),
    decreases rest.len(),
{
    if rest.len() > 0 {
        let len = be_at(rest, 8, 16);
        let body = rest.subrange(16, len);
        let said = sections(body, 16, rest[6], unsaid(budget))->Ok_0;
        let (tail, _) = messages(rest.skip(len), at + len, n + 1, said.budget)->Ok_0;
        lemma_points_add(said.fields, tail);
        lemma_sections_grow(body, 16, rest[6], unsaid(budget));
        lemma_messages(
            rest.skip(len),
            at + len,
            n + 1,
            said.budget,
            at2 + len,
            n2 + 1,
            if budget2 - points(said.fields) >= points(tail) {
                budget2 - points(said.fields)
            } else {
                points(tail)
            },
        );
        lemma_sections(body, 16, rest[6], unsaid(budget), budget2 - budget);
    }
}

proof fn lemma_back_to_back(a: Seq<u8>, b: Seq<u8>, at: int, n: int, budget: int, fields: Seq<FieldView>)
    requires
        budget >= 0,
        messages(a, at, n, budget) is Ok,
        parsed(b) == Ok::<Seq<FieldView>, Seq<char>>(fields),
        budget >= points(messages(a, at, n, budget)->Ok_0.0) + points(fields),
    ensures
        messages(a + b, at, n, budget) is Ok,
        messages(a + b, at, n, budget)->Ok_0.0 == messages(a, at, n, budget)->Ok_0.0 + fields,
    decreases a.len(),
{
    if a.len() == 0 {
        assert(a + b =~= b);
        lemma_messages(b, 0, 1, MAX_VALUES as int, at, n, budget);
        assert(Seq::<FieldView>::empty() + fields =~= fields);
    } else {
        let all = a + b;
        let len = be_at(a, 8, 16);
        assert(all.subrange(8, 16) =~= a.subrange(8, 16));
        assert(all.take(4) =~= a.take(4));
        assert(all.subrange(16, len) =~= a.subrange(16, len));
        assert(all.skip(len) =~= a.skip(len) + b);
        let said = sections(a.subrange(16, len), 16, a[6], unsaid(budget))->Ok_0;
        let (tail, _) = messages(a.skip(len), at + len, n + 1, said.budget)->Ok_0;
        lemma_points_add(said.fields, tail);
        lemma_sections_grow(a.subrange(16, len), 16, a[6], unsaid(budget));
        lemma_back_to_back(a.skip(len), b, at + len, n + 1, said.budget, fields);
        assert(said.fields + (tail + fields) =~= (said.fields + tail) + fields);
    }
}

/// Files one after the other hold the fields of the first, then those of the
/// second, as long as that isn't too many values for one file.
pub proof fn law_files_can_be_joined(a: Seq<u8>, b: Seq<u8>)
    requires
        parsed(a) is Ok,
        parsed(b) is Ok,
        points(parsed(a)->Ok_0) + points(parsed(b)->Ok_0) <= MAX_VALUES,
    ensures
        parsed(a + b) == Ok::<Seq<FieldView>, Seq<char>>(parsed(a)->Ok_0 + parsed(b)->Ok_0),
{
    lemma_back_to_back(a, b, 0, 1, MAX_VALUES as int, parsed(b)->Ok_0);
}

/// Values stand where the bitmap keeps a point, and nowhere else, each no wider
/// than the packing says, and none too big for a 32-bit float.
pub proof fn law_values_are_where_the_bitmap_keeps_them(
    data: Seq<u8>,
    k: Packing,
    n: int,
    bitmap: Option<Seq<bool>>,
    i: int,
)
    requires
        k.bits <= 32,
        unpacked(data, k, n, bitmap) is Ok,
        0 <= i < n,
    ensures
        ({
            let v = unpacked(data, k, n, bitmap)->Ok_0.values[i];
            &&& v is Some <==> has(bitmap, i)
            &&& v matches Some(x) ==> x < two_to(k.bits as nat) && !too_big(
                k.reference,
                k.binary as int,
                k.decimal as int,
                x as int,
            )
        }),
{
    lemma_number_bound(data, kept(bitmap, i) * k.bits, k.bits as nat);
    lemma_two_to_grows(k.bits as nat, 32);
    reveal_with_fuel(two_to, 33);
    let values = packed_values(data, k, n, bitmap);
    assert(values[i] is Some ==> !too_big(
        k.reference,
        k.binary as int,
        k.decimal as int,
        values[i]->0 as int,
    ));
}

/// However a file is made, it decodes to no more than `MAX_VALUES` values.
pub proof fn law_a_file_decodes_to_few_values(bytes: Seq<u8>)
    requires
        parsed(bytes) is Ok,
    ensures
        points(parsed(bytes)->Ok_0) <= MAX_VALUES,
{
    let fields = parsed(bytes)->Ok_0;
    lemma_messages(
        bytes,
        0,
        1,
        MAX_VALUES as int,
        0,
        1,
        if points(fields) >= MAX_VALUES {
            points(fields)
        } else {
            MAX_VALUES as int
        },
    );
}

} // verus!
