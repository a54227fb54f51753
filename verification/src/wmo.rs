//! GRIB2 messages as the WMO's Manual on Codes lays them out, octet by octet,
//! and the promise that a message written so is read back as it was meant.

use crate::grib::{
    any_too_big,
    be_at,
    be_value,
    bit,
    bitmap_of,
    bytes_to,
    filled,
    finite32,
    grid_of,
    has,
    identified,
    kept,
    mapped,
    messages,
    number,
    packed_values,
    packing_of,
    parsed,
    places,
    product_of,
    section,
    sections,
    signed_at,
    signed_value,
    size32,
    ten_up,
    too_big,
    too_far,
    unpacked,
    unsaid,
    unscaled,
    FieldView,
    PackedView,
    Packing,
    Said,
};
use crate::grid::{Grid, Scaled};
use crate::text::lemma_ten_to_grows;
use crate::time;
use vstd::arithmetic::power2::{
    lemma_pow2_adds,
    lemma_pow2_pos,
    lemma_pow2_strictly_increases,
    lemma_pow2_unfold,
    pow2,
};
use vstd::prelude::*;

verus! {

// --- Numbers -----------------------------------------------------------------------

/// `n` in `k` octets, the most significant first.
pub open spec fn octets(n: int, k: nat) -> Seq<u8>
    decreases k,
{
    if k == 0 {
        seq![]
    } else {
        octets(n / 256, (k - 1) as nat).push((n % 256) as u8)
    }
}

/// `n` in `k` octets, the first bit its sign and the rest how far from zero it
/// is.
pub open spec fn signed_octets(n: int, k: nat) -> Seq<u8> {
    if n < 0 {
        octets(pow2((8 * k - 1) as nat) - n, k)
    } else {
        octets(n, k)
    }
}

proof fn lemma_octets(n: int, k: nat)
    requires
        0 <= n < bytes_to(k),
    ensures
        octets(n, k).len() == k,
        be_value(octets(n, k)) == n,
    decreases k,
{
    if k > 0 {
        assert(n / 256 < bytes_to((k - 1) as nat));
        lemma_octets(n / 256, (k - 1) as nat);
        assert(octets(n, k).drop_last() =~= octets(n / 256, (k - 1) as nat));
    }
}

proof fn lemma_bytes_are_bits(k: nat)
    ensures
        bytes_to(k) == pow2(8 * k),
    decreases k,
{
    vstd::arithmetic::power2::lemma2_to64();
    if k > 0 {
        lemma_bytes_are_bits((k - 1) as nat);
        lemma_pow2_adds(8, (8 * (k - 1)) as nat);
    }
}

proof fn lemma_signed_octets(n: int, k: nat)
    requires
        k >= 1,
        -pow2((8 * k - 1) as nat) < n < pow2((8 * k - 1) as nat),
    ensures
        signed_octets(n, k).len() == k,
        signed_value(signed_octets(n, k)) == n,
{
    lemma_bytes_are_bits(k);
    lemma_bytes_are_bits((k - 1) as nat);
    vstd::arithmetic::power2::lemma2_to64();
    lemma_pow2_adds(7, (8 * (k - 1)) as nat);
    lemma_pow2_unfold(8 * k);
    if n < 0 {
        lemma_octets(pow2((8 * k - 1) as nat) - n, k);
    } else {
        lemma_octets(n, k);
    }
}

// --- Bits --------------------------------------------------------------------------

/// The last `b` bits of `n`, the most significant first.
pub open spec fn bits_of(n: int, b: nat) -> Seq<bool>
    decreases b,
{
    if b == 0 {
        seq![]
    } else {
        bits_of(n / 2, (b - 1) as nat).push(n % 2 == 1)
    }
}

/// What bit `i` adds to its octet.
pub open spec fn adds(bits: Seq<bool>, i: int, worth: int) -> int {
    if i < bits.len() && bits[i] {
        worth
    } else {
        0
    }
}

/// Bits, eight to an octet, the first the most significant, and zeros to fill
/// the last.
pub open spec fn bytes_of(bits: Seq<bool>) -> Seq<u8> {
    Seq::new(
        ((bits.len() + 7) / 8) as nat,
        |j: int|
            (adds(bits, 8 * j, 128) + adds(bits, 8 * j + 1, 64) + adds(bits, 8 * j + 2, 32) + adds(
                bits,
                8 * j + 3,
                16,
            ) + adds(bits, 8 * j + 4, 8) + adds(bits, 8 * j + 5, 4) + adds(bits, 8 * j + 6, 2)
                + adds(bits, 8 * j + 7, 1)) as u8,
    )
}

/// A bit's place in its octet tells it from those above and below it.
proof fn lemma_digit(high: int, bit: int, low: int, place: int)
    requires
        place > 0,
        0 <= bit <= 1,
        0 <= low < place,
    ensures
        ((high * 2 + bit) * place + low) / place % 2 == bit,
{
    vstd::arithmetic::div_mod::lemma_fundamental_div_mod_converse(
        (high * 2 + bit) * place + low,
        place,
        high * 2 + bit,
        low,
    );
}

spec fn as_bit(bits: Seq<bool>, i: int) -> int {
    adds(bits, i, 1)
}

proof fn lemma_bit_of_bytes(bits: Seq<bool>, i: int)
    requires
        0 <= i < bits.len(),
    ensures
        bit(bytes_of(bits), i) == (if bits[i] {
            1int
        } else {
            0
        }),
{
    let j = i / 8;
    let k = i % 8;
    let (a, b, c, d) = (
        as_bit(bits, 8 * j),
        as_bit(bits, 8 * j + 1),
        as_bit(bits, 8 * j + 2),
        as_bit(bits, 8 * j + 3),
    );
    let (e, f, g, h) = (
        as_bit(bits, 8 * j + 4),
        as_bit(bits, 8 * j + 5),
        as_bit(bits, 8 * j + 6),
        as_bit(bits, 8 * j + 7),
    );
    let byte = 128 * a + 64 * b + 32 * c + 16 * d + 8 * e + 4 * f + 2 * g + h;
    assert(bytes_of(bits)[j] as int == byte);
    assert(i == 8 * j + k && 0 <= k < 8);
    lemma_digit(0, a, 64 * b + 32 * c + 16 * d + 8 * e + 4 * f + 2 * g + h, 128);
    lemma_digit(a, b, 32 * c + 16 * d + 8 * e + 4 * f + 2 * g + h, 64);
    lemma_digit(2 * a + b, c, 16 * d + 8 * e + 4 * f + 2 * g + h, 32);
    lemma_digit(4 * a + 2 * b + c, d, 8 * e + 4 * f + 2 * g + h, 16);
    lemma_digit(8 * a + 4 * b + 2 * c + d, e, 4 * f + 2 * g + h, 8);
    lemma_digit(16 * a + 8 * b + 4 * c + 2 * d + e, f, 2 * g + h, 4);
    lemma_digit(32 * a + 16 * b + 8 * c + 4 * d + 2 * e + f, g, h, 2);
    lemma_digit(64 * a + 32 * b + 16 * c + 8 * d + 4 * e + 2 * f + g, h, 0, 1);
}

proof fn lemma_bits_len(n: int, b: nat)
    ensures
        bits_of(n, b).len() == b,
    decreases b,
{
    if b > 0 {
        lemma_bits_len(n / 2, (b - 1) as nat);
    }
}

/// A number written in bits somewhere is the number read from there.
proof fn lemma_number_written(bits: Seq<bool>, start: int, n: int, b: nat)
    requires
        0 <= start,
        start + b <= bits.len(),
        bits.subrange(start, start + b) == bits_of(n, b),
        0 <= n < pow2(b),
    ensures
        number(bytes_of(bits), start, b) == n,
    decreases b,
{
    vstd::arithmetic::power2::lemma2_to64();
    if b > 0 {
        let less = (b - 1) as nat;
        lemma_pow2_unfold(b);
        lemma_bits_len(n / 2, less);
        let part = bits.subrange(start, start + b);
        assert(bits.subrange(start, start + less) =~= part.drop_last());
        assert(bits_of(n, b).drop_last() =~= bits_of(n / 2, less));
        lemma_number_written(bits, start, n / 2, less);
        lemma_bit_of_bytes(bits, start + less);
        assert(part[less as int] == bits[start + less]);
        assert(bits_of(n, b)[less as int] == (n % 2 == 1));
    }
}

/// The values there are, `b` bits each, one after the other.
pub open spec fn value_bits(values: Seq<Option<u32>>, b: nat, n: int) -> Seq<bool>
    decreases n,
{
    if n <= 0 {
        seq![]
    } else if values[n - 1] is Some {
        value_bits(values, b, n - 1) + bits_of(values[n - 1]->0 as int, b)
    } else {
        value_bits(values, b, n - 1)
    }
}

/// Where values stand.
pub open spec fn standing(values: Seq<Option<u32>>) -> Seq<bool> {
    Seq::new(values.len(), |i: int| values[i] is Some)
}

/// How many values there are among the first `n` points.
pub open spec fn how_many(values: Seq<Option<u32>>, n: int) -> int
    decreases n,
{
    if n <= 0 {
        0
    } else {
        how_many(values, n - 1) + if values[n - 1] is Some {
            1int
        } else {
            0
        }
    }
}

proof fn lemma_value_bits(values: Seq<Option<u32>>, b: nat, n: int, m: int)
    requires
        0 <= n <= m <= values.len(),
    ensures
        0 <= how_many(values, n) <= n,
        how_many(values, n) <= how_many(values, m),
        value_bits(values, b, n).len() == how_many(values, n) * b,
        value_bits(values, b, n).len() <= value_bits(values, b, m).len(),
        value_bits(values, b, m).take(value_bits(values, b, n).len() as int) == value_bits(
            values,
            b,
            n,
        ),
    decreases m,
{
    if n < m {
        lemma_value_bits(values, b, n, m - 1);
        let (x, y) = (value_bits(values, b, m - 1), value_bits(values, b, m));
        let k = value_bits(values, b, n).len() as int;
        assert(y.take(k) =~= x.take(k));
    } else {
        if n > 0 {
            lemma_value_bits(values, b, n - 1, n - 1);
            if values[n - 1] is Some {
                lemma_bits_len(values[n - 1]->0 as int, b);
            }
            let h = how_many(values, n - 1);
            assert((h + 1) * b == h * b + b) by (nonlinear_arith);
        } else {
            assert(0 * b == 0);
        }
        assert(value_bits(values, b, n).take(value_bits(values, b, n).len() as int) =~= value_bits(
            values,
            b,
            n,
        ));
    }
}

/// Each value is read where it was written.
proof fn lemma_value_written(values: Seq<Option<u32>>, b: nat, i: int)
    requires
        0 <= i < values.len(),
        values[i] is Some,
        (values[i]->0) < pow2(b),
    ensures
        number(
            bytes_of(value_bits(values, b, values.len() as int)),
            how_many(values, i) * b,
            b,
        ) == values[i]->0,
{
    let all = value_bits(values, b, values.len() as int);
    lemma_value_bits(values, b, i, i + 1);
    lemma_value_bits(values, b, i + 1, values.len() as int);
    let (x, y) = (value_bits(values, b, i), value_bits(values, b, i + 1));
    let start = how_many(values, i) * b;
    lemma_bits_len(values[i]->0 as int, b);
    assert(y == x + bits_of(values[i]->0 as int, b));
    assert(all.subrange(start, start + b) =~= y.subrange(start, start + b)) by {
        assert(all.take(y.len() as int) == y);
        assert forall|k: int| start <= k < start + b implies all[k] == y[k] by {
            assert(all.take(y.len() as int)[k] == y[k]);
        }
    }
    assert(y.subrange(start, start + b) =~= bits_of(values[i]->0 as int, b));
    lemma_number_written(all, start, values[i]->0 as int, b);
}

// --- Sections ----------------------------------------------------------------------

/// A section says how long it is and what number it has.
pub open spec fn framed(s: Seq<u8>, number: u8) -> bool {
    &&& 5 <= s.len() < 0x1_0000_0000
    &&& s.take(4) == octets(s.len() as int, 4)
    &&& s[4] == number
}

/// Section 1: octets 13 to 19 are the run's year, month, day, hour, minute and
/// second.
#[verifier::opaque]
pub open spec fn dates(s: Seq<u8>, y: int, m: int, d: int, h: int, min: int, sec: int) -> bool {
    &&& framed(s, 1)
    &&& s.len() >= 21
    &&& s.subrange(12, 14) == octets(y, 2)
    &&& s[14] == m && s[15] == d && s[16] == h && s[17] == min && s[18] == sec
}

/// A longitude, west negative, as section 3 writes it: from 0 to 360 degrees.
pub open spec fn eastward(lon: int) -> int {
    if lon < 0 {
        lon + 360_000_000
    } else {
        lon
    }
}

/// Octets 15 to 20 of section 3: Earth's shape, and its radius for a sphere of
/// any size.
pub open spec fn shapes(s: Seq<u8>, radius: Scaled) -> bool {
    ||| s[14] == 0 && radius == (Scaled { scale: 0, value: 6_367_470 })
    ||| s[14] == 6 && radius == (Scaled { scale: 0, value: 6_371_229 })
    ||| s[14] == 1 && s.subrange(15, 16) == signed_octets(radius.scale as int, 1) && s.subrange(
        16,
        20,
    ) == octets(radius.value as int, 4) && -128 < radius.scale < 128
}

/// Section 3: a Lambert conformal grid, template 3.30.
#[verifier::opaque]
pub open spec fn lays_out(s: Seq<u8>, g: Grid) -> bool {
    &&& framed(s, 3)
    &&& s.len() >= 81
    &&& s[5] == 0 && s[10] == 0
    &&& s.subrange(6, 10) == octets(g.nx * g.ny, 4)
    &&& s.subrange(12, 14) == octets(30, 2)
    &&& shapes(s, g.radius)
    &&& s.subrange(30, 34) == octets(g.nx as int, 4)
    &&& s.subrange(34, 38) == octets(g.ny as int, 4)
    &&& s.subrange(38, 42) == signed_octets(g.la1 as int, 4)
    &&& s.subrange(42, 46) == octets(eastward(g.lo1 as int), 4)
    &&& s[46] == 0x30 + if g.winds_along_grid {
        8int
    } else {
        0
    }
    &&& s.subrange(47, 51) == signed_octets(g.lad as int, 4)
    &&& s.subrange(51, 55) == octets(eastward(g.lov as int), 4)
    &&& s.subrange(55, 59) == octets(g.dx as int, 4)
    &&& s.subrange(59, 63) == octets(g.dy as int, 4)
    &&& s[63] == 0
    &&& s[64] == if g.rows_north {
        0x40int
    } else {
        0
    }
    &&& s.subrange(65, 69) == signed_octets(g.latin1 as int, 4)
    &&& s.subrange(69, 73) == signed_octets(g.latin2 as int, 4)
}

/// A grid of cells on a northern cone, with no more points than a field may
/// have.
#[verifier::opaque]
pub open spec fn on_a_northern_cone(g: Grid) -> bool {
    &&& g.nx >= 2 && g.ny >= 2 && g.nx * g.ny <= 4_000_000
    &&& g.dx > 0 && g.dy > 0 && g.radius.value > 0
    &&& 0 < g.latin1 < 89_000_000 && 0 < g.latin2 < 89_000_000
    &&& -89_000_000 < g.lad < 89_000_000 && -89_000_000 < g.la1 < 89_000_000
    &&& -180_000_000 < g.lo1 <= 180_000_000 && -180_000_000 < g.lov <= 180_000_000
}

/// Code table 4.4: a unit of time, and its seconds.
pub open spec fn lasts(unit: u8, seconds: int) -> bool {
    ||| unit == 0 && seconds == 60
    ||| unit == 1 && seconds == 60 * 60
    ||| unit == 2 && seconds == 24 * 60 * 60
    ||| unit == 10 && seconds == 3 * 60 * 60
    ||| unit == 11 && seconds == 6 * 60 * 60
    ||| unit == 12 && seconds == 12 * 60 * 60
    ||| unit == 13 && seconds == 1
}

/// Section 4: a product, template 4.0, valid so many units of time after the
/// run, at a level or at none.
#[verifier::opaque]
pub open spec fn describes(s: Seq<u8>, f: FieldView, ahead: int, seconds: int) -> bool {
    &&& framed(s, 4)
    &&& s.len() >= 34
    &&& s.subrange(7, 9) == octets(0, 2)
    &&& s[9] == f.category && s[10] == f.number
    &&& lasts(s[17], seconds)
    &&& s.subrange(18, 22) == signed_octets(ahead, 4)
    &&& s[22] == f.surface
    &&& match f.level {
        Some(l) => {
            &&& -127 < l.scale < 128 && l.value < 0xffff_ffff
            &&& s.subrange(23, 24) == signed_octets(l.scale as int, 1)
            &&& s.subrange(24, 28) == octets(l.value as int, 4)
        },
        None => s[23] == 0xff || s.subrange(24, 28) == octets(0xffff_ffff, 4),
    }
}

/// Section 5: simple packing, template 5.0, of so many values, so many bits
/// each.
#[verifier::opaque]
pub open spec fn packs(s: Seq<u8>, p: PackedView, count: int, bits: nat) -> bool {
    &&& framed(s, 5)
    &&& s.len() >= 21
    &&& s.subrange(5, 9) == octets(count, 4)
    &&& s.subrange(9, 11) == octets(0, 2)
    &&& s.subrange(11, 15) == octets(p.reference as int, 4)
    &&& s.subrange(15, 17) == signed_octets(p.binary as int, 2)
    &&& s.subrange(17, 19) == signed_octets(p.decimal as int, 2)
    &&& s[19] == bits
}

/// Section 6: a bit for each point, set where there is a value, or none at all
/// where there is one at every point.
#[verifier::opaque]
pub open spec fn maps(s: Seq<u8>, values: Seq<Option<u32>>) -> bool {
    &&& framed(s, 6)
    &&& s.len() >= 6
    &&& {
        ||| s[5] == 255 && forall|i: int| 0 <= i < values.len() ==> (#[trigger] values[i]) is Some
        ||| s[5] == 0 && s.skip(6) == bytes_of(standing(values))
    }
}

/// Section 7: the values there are, one after the other.
#[verifier::opaque]
pub open spec fn holds(s: Seq<u8>, values: Seq<Option<u32>>, bits: nat) -> bool {
    &&& framed(s, 7)
    &&& s.skip(5) == bytes_of(value_bits(values, bits, values.len() as int))
}

proof fn lemma_sizes()
    ensures
        bytes_to(1) == 0x100,
        bytes_to(2) == 0x1_0000,
        bytes_to(4) == 0x1_0000_0000,
        pow2(7) == 0x80,
        pow2(15) == 0x8000,
        pow2(31) == 0x8000_0000,
{
    reveal_with_fuel(bytes_to, 5);
    vstd::arithmetic::power2::lemma2_to64();
}

proof fn lemma_date_read(
    s: Seq<u8>,
    said: Said,
    y: int,
    m: int,
    d: int,
    h: int,
    min: int,
    sec: int,
)
    requires
        dates(s, y, m, d, h, min, sec),
        0 <= y <= 9999,
        time::date(y, m, d),
        0 <= h <= 23,
        0 <= min <= 59,
        0 <= sec <= 59,
    ensures
        identified(s, said) == Ok::<Said, Seq<char>>(
            Said {
                reference: Some(
                    time::calendar_days(y, m, d) * 86_400 + h * 3600 + min * 60 + sec,
                ),
                ..said
            },
        ),
{
    reveal(dates);
    lemma_sizes();
    lemma_octets(y, 2);
    time::lemma_civil_is_calendar(y, m, d);
}

/// The grid a section 3 lays out is the grid read from it.
pub proof fn law_a_grid_is_read_as_written(s: Seq<u8>, g: Grid)
    requires
        lays_out(s, g),
        on_a_northern_cone(g),
    ensures
        grid_of(s) == Ok::<Grid, Seq<char>>(g),
{
    reveal(lays_out);
    reveal(on_a_northern_cone);
    lemma_sizes();
    assert(g.nx <= 4_000_000 && g.ny <= 4_000_000) by (nonlinear_arith)
        requires
            g.nx >= 2,
            g.ny >= 2,
            g.nx * g.ny <= 4_000_000,
    ;
    lemma_octets(g.nx * g.ny, 4);
    lemma_octets(30, 2);
    lemma_octets(g.nx as int, 4);
    lemma_octets(g.ny as int, 4);
    lemma_signed_octets(g.la1 as int, 4);
    lemma_octets(eastward(g.lo1 as int), 4);
    lemma_signed_octets(g.lad as int, 4);
    lemma_octets(eastward(g.lov as int), 4);
    lemma_octets(g.dx as int, 4);
    lemma_octets(g.dy as int, 4);
    lemma_signed_octets(g.latin1 as int, 4);
    lemma_signed_octets(g.latin2 as int, 4);
    if s[14] == 1 {
        lemma_signed_octets(g.radius.scale as int, 1);
        lemma_octets(g.radius.value as int, 4);
    }
}

/// The product a section 4 describes is the product read from it.
pub proof fn law_a_product_is_read_as_written(s: Seq<u8>, f: FieldView, ahead: int, seconds: int)
    requires
        describes(s, f, ahead, seconds),
        -0x8000_0000 < ahead < 0x8000_0000,
    ensures
        product_of(s) matches Ok(p) && {
            &&& p.category == f.category
            &&& p.number == f.number
            &&& p.surface == f.surface
            &&& p.level == f.level
            &&& p.lead == ahead * seconds
        },
{
    reveal(describes);
    lemma_sizes();
    lemma_octets(0, 2);
    lemma_signed_octets(ahead, 4);
    assert(-0x8000_0000 * 86_400 <= ahead * seconds <= 0x8000_0000 * 86_400) by (nonlinear_arith)
        requires
            -0x8000_0000 < ahead < 0x8000_0000,
            1 <= seconds <= 86_400,
    ;
    match f.level {
        Some(l) => {
            lemma_signed_octets(l.scale as int, 1);
            lemma_octets(l.value as int, 4);
            let b = s.subrange(23, 24);
            if s[23] == 0xff {
                assert(b =~= seq![0xffu8]);
                assert(b.drop_last() =~= seq![]);
                reveal_with_fuel(be_value, 2);
                assert(be_value(b) == 0xff);
                assert(signed_value(b) == -127);
            }
        },
        None => {
            lemma_octets(0xffff_ffff, 4);
        },
    }
}

/// The packing a section 5 states is the packing read from it.
pub proof fn law_a_packing_is_read_as_written(s: Seq<u8>, p: PackedView, count: int, bits: nat)
    requires
        packs(s, p, count, bits),
        bits <= 32,
        0 <= count <= 4_000_000,
        -0x8000 < p.binary < 0x8000,
        -0x8000 < p.decimal < 0x8000,
    ensures
        packing_of(s) == Ok::<Packing, Seq<char>>(
            Packing {
                count: count as usize,
                reference: p.reference,
                binary: p.binary,
                decimal: p.decimal,
                bits: bits as u32,
            },
        ),
{
    reveal(packs);
    lemma_sizes();
    lemma_octets(count, 4);
    lemma_octets(0, 2);
    lemma_octets(p.reference as int, 4);
    lemma_signed_octets(p.binary as int, 2);
    lemma_signed_octets(p.decimal as int, 2);
}

// --- A whole message ---------------------------------------------------------------

/// Values well inside what a 32-bit float holds: R below 2^96, E no more than
/// 60, and D not below 0.
#[verifier::opaque]
pub open spec fn moderate(p: PackedView) -> bool {
    &&& p.reference as int % 0x8000_0000 / 0x80_0000 <= 222
    &&& -0x8000 < p.binary <= 60
    &&& 0 <= p.decimal < 0x8000
}

proof fn lemma_moderate(p: PackedView, x: u32)
    requires
        moderate(p),
    ensures
        !too_big(p.reference, p.binary as int, p.decimal as int, x as int),
{
    reveal(moderate);
    let (r, e, d) = (p.reference, p.binary as int, p.decimal as int);
    let s = places(e);
    let low = r as int % 0x8000_0000;
    let (k, f) = (low / 0x80_0000, low % 0x80_0000);
    vstd::arithmetic::power2::lemma2_to64();
    lemma_pow2_pos(221);
    lemma_pow2_adds(24, 221);
    if k > 0 {
        lemma_pow2_pos((k - 1) as nat);
        if k < 222 {
            lemma_pow2_strictly_increases((k - 1) as nat, 221);
        }
        let q = pow2((k - 1) as nat) as int;
        assert(0 <= (0x80_0000 + f) * q <= 0x100_0000 * pow2(221)) by (nonlinear_arith)
            requires
                0 <= f < 0x80_0000,
                1 <= q <= pow2(221),
        ;
    }
    assert(0 <= size32(r) <= pow2(245));
    let u = pow2((s - 149) as nat) as int;
    lemma_pow2_pos((s - 149) as nat);
    lemma_pow2_adds(245, (s - 149) as nat);
    let a = size32(r);
    assert(0 <= a * u <= pow2(245) * u) by (nonlinear_arith)
        requires
            0 <= a <= pow2(245),
            u >= 1,
    ;
    assert((-a) * u == -(a * u)) by (nonlinear_arith);
    let t = pow2((s + e) as nat) as int;
    lemma_pow2_pos((s + e) as nat);
    lemma_pow2_adds(32, (s + e) as nat);
    assert(0 <= x * t <= pow2(32) * t) by (nonlinear_arith)
        requires
            0 <= x <= pow2(32),
            t >= 1,
    ;
    if s + e + 32 < s + 96 {
        lemma_pow2_strictly_increases((s + e + 32) as nat, (s + 96) as nat);
    }
    lemma_pow2_strictly_increases((s + 96) as nat, (s + 1024) as nat);
    lemma_pow2_unfold((s + 97) as nat);
    lemma_pow2_strictly_increases((s + 97) as nat, (s + 127) as nat);
    lemma_pow2_adds(24, (s + 103) as nat);
    let limit = too_far(e);
    assert(limit > pow2((s + 97) as nat));
    if d > 0 {
        lemma_ten_to_grows(0, d as nat);
    }
    let n = ten_up(d);
    assert(limit * n >= limit) by (nonlinear_arith)
        requires
            limit >= 0,
            n >= 1,
    ;
    let v = unscaled(r, e, x as int);
    assert(v * 1 == v);
}

/// Whether every value has so many bits at most.
pub open spec fn narrow(values: Seq<Option<u32>>, bits: nat) -> bool {
    forall|i: int|
        0 <= i < values.len() && (#[trigger] values[i]) is Some ==> (values[i]->0) < pow2(bits)
}

proof fn lemma_map_counts(map: Option<Seq<bool>>, values: Seq<Option<u32>>, n: int)
    requires
        0 <= n <= values.len(),
        map matches Some(m) ==> m == standing(values),
        map is None ==> forall|i: int| 0 <= i < values.len() ==> (#[trigger] values[i]) is Some,
    ensures
        kept(map, n) == how_many(values, n),
    decreases n,
{
    if n > 0 {
        lemma_map_counts(map, values, n - 1);
        assert(values[n - 1] is Some <==> has(map, n - 1));
    }
}

/// The values a section 7 holds, by the packing and the bitmap, are the values
/// read from it.
pub proof fn law_values_are_read_as_written(p: PackedView, bits: nat, map: Option<Seq<bool>>)
    requires
        1 <= bits <= 32,
        p.values.len() <= 4_000_000,
        narrow(p.values, bits),
        finite32(p.reference),
        moderate(p),
        map matches Some(m) ==> m == standing(p.values),
        map is None ==> forall|i: int| 0 <= i < p.values.len() ==> (#[trigger] p.values[i]) is Some,
    ensures
        ({
            let n = p.values.len() as int;
            let k = Packing {
                count: how_many(p.values, n) as usize,
                reference: p.reference,
                binary: p.binary,
                decimal: p.decimal,
                bits: bits as u32,
            };
            unpacked(bytes_of(value_bits(p.values, bits, n)), k, n, map) == Ok::<
                PackedView,
                Seq<char>,
            >(p)
        }),
{
    reveal(moderate);
    let n = p.values.len() as int;
    let k = Packing {
        count: how_many(p.values, n) as usize,
        reference: p.reference,
        binary: p.binary,
        decimal: p.decimal,
        bits: bits as u32,
    };
    let data = bytes_of(value_bits(p.values, bits, n));
    lemma_map_counts(map, p.values, n);
    lemma_value_bits(p.values, bits, n, n);
    let values = packed_values(data, k, n, map);
    assert forall|i: int| 0 <= i < n implies values[i] == p.values[i] by {
        lemma_map_counts(map, p.values, i);
        assert(p.values[i] is Some <==> has(map, i));
        if p.values[i] is Some {
            lemma_value_written(p.values, bits, i);
        }
    }
    assert(values =~= p.values);
    assert(!any_too_big(k, values)) by {
        assert forall|i: int| 0 <= i < values.len() && (#[trigger] values[i]) is Some implies !too_big(
            k.reference,
            k.binary as int,
            k.decimal as int,
            values[i]->0 as int,
        ) by {
            lemma_moderate(p, values[i]->0);
        }
    }
}

/// One section after the other.
proof fn lemma_next_section(s: Seq<u8>, rest: Seq<u8>, number: u8, at: int, discipline: u8, said: Said)
    requires
        framed(s, number),
    ensures
        sections(s + rest, at, discipline, said) == (match section(s, discipline, said) {
            Err(e) => Err(e),
            Ok(next) => sections(rest, at + s.len(), discipline, next),
        }),
{
    lemma_sizes();
    lemma_octets(s.len() as int, 4);
    let all = s + rest;
    assert(all.subrange(0, 4) =~= s.take(4));
    assert(all.take(s.len() as int) =~= s);
    assert(all.skip(s.len() as int) =~= rest);
    assert(all.len() > 4);
}

/// A message's section 0: `GRIB`, the discipline, the edition, and how long the
/// message is.
#[verifier::opaque]
pub open spec fn heads(s: Seq<u8>, discipline: u8, len: int) -> bool {
    &&& s.len() == 16
    &&& s.take(4) == seq![0x47u8, 0x52, 0x49, 0x42]
    &&& s[6] == discipline
    &&& s[7] == 2
    &&& s.subrange(8, 16) == octets(len, 8)
}

/// A message of sections is read section by section.
proof fn lemma_chain(
    s1: Seq<u8>,
    s3: Seq<u8>,
    s4: Seq<u8>,
    s5: Seq<u8>,
    s6: Seq<u8>,
    s7: Seq<u8>,
    discipline: u8,
    said: Seq<Said>,
)
    requires
        framed(s1, 1) && framed(s3, 3) && framed(s4, 4),
        framed(s5, 5) && framed(s6, 6) && framed(s7, 7),
        section(s1, discipline, said[0]) == Ok::<Said, Seq<char>>(said[1]),
        section(s3, discipline, said[1]) == Ok::<Said, Seq<char>>(said[2]),
        section(s4, discipline, said[2]) == Ok::<Said, Seq<char>>(said[3]),
        section(s5, discipline, said[3]) == Ok::<Said, Seq<char>>(said[4]),
        section(s6, discipline, said[4]) == Ok::<Said, Seq<char>>(said[5]),
        section(s7, discipline, said[5]) == Ok::<Said, Seq<char>>(said[6]),
    ensures
        sections(
            s1 + (s3 + (s4 + (s5 + (s6 + (s7 + seq![0x37u8, 0x37, 0x37, 0x37]))))),
            16,
            discipline,
            said[0],
        ) == Ok::<Said, Seq<char>>(said[6]),
{
    let end = seq![0x37u8, 0x37, 0x37, 0x37];
    let r7 = s7 + end;
    let r6 = s6 + r7;
    let r5 = s5 + r6;
    let r4 = s4 + r5;
    let r3 = s3 + r4;
    let a1 = 16int + s1.len();
    let a3 = a1 + s3.len();
    let a4 = a3 + s4.len();
    let a5 = a4 + s5.len();
    let a6 = a5 + s6.len();
    lemma_next_section(s1, r3, 1, 16, discipline, said[0]);
    lemma_next_section(s3, r4, 3, a1, discipline, said[1]);
    lemma_next_section(s4, r5, 4, a3, discipline, said[2]);
    lemma_next_section(s5, r6, 5, a4, discipline, said[3]);
    lemma_next_section(s6, r7, 6, a5, discipline, said[4]);
    lemma_next_section(s7, end, 7, a6, discipline, said[5]);
}

/// A file of one message has its fields.
proof fn lemma_one_message(head: Seq<u8>, body: Seq<u8>, discipline: u8, done: Said)
    requires
        heads(head, discipline, 16int + body.len()),
        4 <= body.len() < 0x8_0000_0000,
        sections(body, 16, discipline, unsaid(16_000_000)) == Ok::<Said, Seq<char>>(done),
    ensures
        parsed(head + body) == Ok::<Seq<FieldView>, Seq<char>>(done.fields),
{
    reveal(heads);
    let all = head + body;
    reveal_with_fuel(bytes_to, 9);
    lemma_octets(all.len() as int, 8);
    assert(all.take(4) =~= head.take(4));
    assert(all.subrange(8, 16) =~= head.subrange(8, 16));
    assert(all.subrange(16, all.len() as int) =~= body);
    assert(all.skip(all.len() as int) =~= seq![]);
    assert(done.fields + Seq::<FieldView>::empty() =~= done.fields);
    reveal_with_fuel(messages, 2);
}

/// Pieces put together from the end are the pieces put together from the start.
proof fn lemma_flat(
    a: Seq<u8>,
    b: Seq<u8>,
    c: Seq<u8>,
    d: Seq<u8>,
    e: Seq<u8>,
    f: Seq<u8>,
    g: Seq<u8>,
    h: Seq<u8>,
)
    ensures
        a + (b + (c + (d + (e + (f + (g + h)))))) == a + b + c + d + e + f + g + h,
        (b + (c + (d + (e + (f + (g + h)))))).len() == b.len() + c.len() + d.len() + e.len()
            + f.len() + g.len() + h.len(),
        (a + b + c + d + e + f + g).len() == a.len() + b.len() + c.len() + d.len() + e.len()
            + f.len() + g.len(),
{
    assert(a + (b + (c + (d + (e + (f + (g + h)))))) =~= a + b + c + d + e + f + g + h);
}

proof fn lemma_assembled(
    head: Seq<u8>,
    s1: Seq<u8>,
    s3: Seq<u8>,
    s4: Seq<u8>,
    s5: Seq<u8>,
    s6: Seq<u8>,
    s7: Seq<u8>,
    discipline: u8,
    said: Seq<Said>,
)
    requires
        heads(head, discipline, (head + s1 + s3 + s4 + s5 + s6 + s7).len() as int + 4),
        framed(s1, 1) && framed(s3, 3) && framed(s4, 4),
        framed(s5, 5) && framed(s6, 6) && framed(s7, 7),
        said[0] == unsaid(16_000_000),
        section(s1, discipline, said[0]) == Ok::<Said, Seq<char>>(said[1]),
        section(s3, discipline, said[1]) == Ok::<Said, Seq<char>>(said[2]),
        section(s4, discipline, said[2]) == Ok::<Said, Seq<char>>(said[3]),
        section(s5, discipline, said[3]) == Ok::<Said, Seq<char>>(said[4]),
        section(s6, discipline, said[4]) == Ok::<Said, Seq<char>>(said[5]),
        section(s7, discipline, said[5]) == Ok::<Said, Seq<char>>(said[6]),
    ensures
        parsed(head + s1 + s3 + s4 + s5 + s6 + s7 + seq![0x37u8, 0x37, 0x37, 0x37]) == Ok::<
            Seq<FieldView>,
            Seq<char>,
        >(said[6].fields),
{
    let end = seq![0x37u8, 0x37, 0x37, 0x37];
    lemma_chain(s1, s3, s4, s5, s6, s7, discipline, said);
    lemma_flat(head, s1, s3, s4, s5, s6, s7, end);
    assert(head.len() == 16) by {
        reveal(heads);
    }
    let body = s1 + (s3 + (s4 + (s5 + (s6 + (s7 + end)))));
    lemma_one_message(head, body, discipline, said[6]);
}

/// The bitmap a section 6 gives is the one read from it.
proof fn lemma_map_read(s: Seq<u8>, values: Seq<Option<u32>>, said: Said) -> (next: Said)
    requires
        maps(s, values),
        said.grid is Some,
        said.grid->0.spec_len() == values.len(),
    ensures
        framed(s, 6),
        section(s, 0, said) == Ok::<Said, Seq<char>>(next),
        forall|d: u8| #[trigger] section(s, d, said) == Ok::<Said, Seq<char>>(next),
        next.bitmap is Some,
        next == (Said { bitmap: next.bitmap, defined: next.defined, ..said }),
        next.bitmap->0 matches Some(m) ==> m == standing(values),
        next.bitmap->0 is None ==> forall|i: int|
            0 <= i < values.len() ==> (#[trigger] values[i]) is Some,
{
    reveal(maps);
    if s[5] == 0 {
        let n = values.len() as int;
        let data = bytes_of(standing(values));
        assert(data.len() * 8 >= n);
        assert forall|i: int| 0 <= i < n implies bitmap_of(data, n)[i] == standing(values)[i] by {
            lemma_bit_of_bytes(standing(values), i);
        }
        assert(bitmap_of(s.skip(6), n) =~= standing(values));
    }
    mapped(s, said)->Ok_0
}

/// What a section 7 holds makes the field.
proof fn lemma_field_filled(s: Seq<u8>, f: FieldView, bits: nat, said: Said) -> (done: Said)
    requires
        holds(s, f.values.values, bits),
        said.reference == Some(f.reference),
        said.grid == Some(f.grid),
        said.product matches Some(p) && p.category == f.category && p.number == f.number
            && p.surface == f.surface && p.level == f.level && p.lead == f.lead,
        said.packing == Some(
            Packing {
                count: how_many(f.values.values, f.values.values.len() as int) as usize,
                reference: f.values.reference,
                binary: f.values.binary,
                decimal: f.values.decimal,
                bits: bits as u32,
            },
        ),
        said.bitmap is Some,
        said.bitmap->0 matches Some(m) ==> m == standing(f.values.values),
        said.bitmap->0 is None ==> forall|i: int|
            0 <= i < f.values.values.len() ==> (#[trigger] f.values.values[i]) is Some,
        said.fields == Seq::<FieldView>::empty(),
        said.budget == 16_000_000,
        f.values.values.len() == f.grid.spec_len() <= 4_000_000,
        1 <= bits <= 32,
        narrow(f.values.values, bits),
        moderate(f.values),
    ensures
        framed(s, 7),
        section(s, f.discipline, said) == Ok::<Said, Seq<char>>(done),
        done.fields == seq![f],
{
    reveal(holds);
    reveal(moderate);
    assert(finite32(f.values.reference)) by {
        let r = f.values.reference as int;
        assert(r / 0x80_0000 % 0x100 == r % 0x8000_0000 / 0x80_0000);
    }
    let map = said.bitmap->0;
    law_values_are_read_as_written(f.values, bits, map);
    let done = filled(s, f.discipline, said)->Ok_0;
    assert(done.fields =~= seq![f]);
    done
}

proof fn lemma_first_sections(
    s1: Seq<u8>,
    s3: Seq<u8>,
    f: FieldView,
    date: (int, int, int),
    clock: (int, int, int),
    said: Said,
)
    requires
        dates(s1, date.0, date.1, date.2, clock.0, clock.1, clock.2),
        0 <= date.0 <= 9999,
        time::date(date.0, date.1, date.2),
        0 <= clock.0 <= 23,
        0 <= clock.1 <= 59,
        0 <= clock.2 <= 59,
        f.reference == time::calendar_days(date.0, date.1, date.2) * 86_400 + clock.0 * 3600
            + clock.1 * 60 + clock.2,
        lays_out(s3, f.grid),
        on_a_northern_cone(f.grid),
    ensures
        framed(s1, 1),
        framed(s3, 3),
        section(s1, f.discipline, said) == Ok::<Said, Seq<char>>(
            Said { reference: Some(f.reference), ..said },
        ),
        section(s3, f.discipline, Said { reference: Some(f.reference), ..said }) == Ok::<
            Said,
            Seq<char>,
        >(Said { reference: Some(f.reference), grid: Some(f.grid), bitmap: None, ..said }),
{
    reveal(dates);
    reveal(lays_out);
    lemma_date_read(s1, said, date.0, date.1, date.2, clock.0, clock.1, clock.2);
    law_a_grid_is_read_as_written(s3, f.grid);
}

proof fn lemma_next_sections(
    s4: Seq<u8>,
    s5: Seq<u8>,
    f: FieldView,
    ahead: int,
    seconds: int,
    count: int,
    bits: nat,
    said: Said,
) -> (next: (Said, Said))
    requires
        describes(s4, f, ahead, seconds),
        -0x8000_0000 < ahead < 0x8000_0000,
        f.lead == ahead * seconds,
        packs(s5, f.values, count, bits),
        bits <= 32,
        0 <= count <= 4_000_000,
        moderate(f.values),
    ensures
        framed(s4, 4),
        framed(s5, 5),
        section(s4, f.discipline, said) == Ok::<Said, Seq<char>>(next.0),
        section(s5, f.discipline, next.0) == Ok::<Said, Seq<char>>(next.1),
        next.1 == (Said { product: next.1.product, packing: next.1.packing, ..said }),
        next.1.product matches Some(p) && p.category == f.category && p.number == f.number
            && p.surface == f.surface && p.level == f.level && p.lead == f.lead,
        next.1.packing == Some(
            Packing {
                count: count as usize,
                reference: f.values.reference,
                binary: f.values.binary,
                decimal: f.values.decimal,
                bits: bits as u32,
            },
        ),
{
    reveal(describes);
    reveal(packs);
    reveal(moderate);
    law_a_product_is_read_as_written(s4, f, ahead, seconds);
    law_a_packing_is_read_as_written(s5, f.values, count, bits);
    let a = Said { product: Some(product_of(s4)->Ok_0), ..said };
    (a, Said { packing: Some(packing_of(s5)->Ok_0), ..a })
}

/// A message written section by section is read as the one field it is meant
/// for: its parameter, level, run and lead, its grid, and just the numbers
/// packed in it, whatever their width, where the bitmap says they stand.
pub proof fn law_a_message_is_read_as_written(
    head: Seq<u8>,
    s1: Seq<u8>,
    s3: Seq<u8>,
    s4: Seq<u8>,
    s5: Seq<u8>,
    s6: Seq<u8>,
    s7: Seq<u8>,
    f: FieldView,
    date: (int, int, int),
    clock: (int, int, int),
    ahead: int,
    seconds: int,
    bits: nat,
)
    requires
        heads(head, f.discipline, (head + s1 + s3 + s4 + s5 + s6 + s7).len() as int + 4),
        dates(s1, date.0, date.1, date.2, clock.0, clock.1, clock.2),
        0 <= date.0 <= 9999,
        time::date(date.0, date.1, date.2),
        0 <= clock.0 <= 23,
        0 <= clock.1 <= 59,
        0 <= clock.2 <= 59,
        f.reference == time::calendar_days(date.0, date.1, date.2) * 86_400 + clock.0 * 3600
            + clock.1 * 60 + clock.2,
        lays_out(s3, f.grid),
        on_a_northern_cone(f.grid),
        describes(s4, f, ahead, seconds),
        -0x8000_0000 < ahead < 0x8000_0000,
        f.lead == ahead * seconds,
        packs(s5, f.values, how_many(f.values.values, f.values.values.len() as int), bits),
        1 <= bits <= 32,
        narrow(f.values.values, bits),
        moderate(f.values),
        f.values.values.len() == f.grid.nx * f.grid.ny,
        maps(s6, f.values.values),
        holds(s7, f.values.values, bits),
    ensures
        parsed(head + s1 + s3 + s4 + s5 + s6 + s7 + seq![0x37u8, 0x37, 0x37, 0x37]) == Ok::<
            Seq<FieldView>,
            Seq<char>,
        >(seq![f]),
{
    reveal(on_a_northern_cone);
    let values = f.values.values;
    let n = values.len() as int;
    let d = f.discipline;
    let said0 = unsaid(16_000_000);
    lemma_first_sections(s1, s3, f, date, clock, said0);
    let said1 = Said { reference: Some(f.reference), ..said0 };
    let said3 = Said { reference: Some(f.reference), grid: Some(f.grid), bitmap: None, ..said0 };
    lemma_value_bits(values, bits, n, n);
    let (said4, said5) = lemma_next_sections(
        s4,
        s5,
        f,
        ahead,
        seconds,
        how_many(values, n),
        bits,
        said3,
    );
    let said6 = lemma_map_read(s6, values, said5);
    assert(section(s6, d, said5) == Ok::<Said, Seq<char>>(said6));
    let done = lemma_field_filled(s7, f, bits, said6);
    let said = seq![said0, said1, said3, said4, said5, said6, done];
    lemma_assembled(head, s1, s3, s4, s5, s6, s7, d, said);
}

/// A later field whose section 6 says 254 keeps the points the last bitmap did:
/// what a message says between the two leaves that bitmap as it was.
pub proof fn law_a_bitmap_is_used_again(
    s6: Seq<u8>,
    s7: Seq<u8>,
    again: Seq<u8>,
    discipline: u8,
    said: Said,
    i: int,
)
    requires
        said.grid is Some,
        s6.len() >= 6 && s6[5] == 0,
        mapped(s6, said) is Ok,
        filled(s7, discipline, mapped(s6, said)->Ok_0) is Ok,
        again.len() >= 6 && again[5] == 254,
        0 <= i < said.grid->0.spec_len(),
    ensures
        mapped(again, filled(s7, discipline, mapped(s6, said)->Ok_0)->Ok_0) matches Ok(later)
            && later.bitmap == mapped(s6, said)->Ok_0.bitmap && later.fields == filled(
            s7,
            discipline,
            mapped(s6, said)->Ok_0,
        )->Ok_0.fields,
        mapped(s6, said)->Ok_0.bitmap matches Some(Some(map)) && map.len()
            == said.grid->0.spec_len() && map[i] == (bit(s6.skip(6), i) == 1),
{
}

/// Each field of a message adds to those before it, and has the run and the grid
/// that were said, and its own product; what is said of the values alone is
/// used up with them.
pub proof fn law_a_field_adds_to_those_before(s7: Seq<u8>, discipline: u8, said: Said)
    requires
        filled(s7, discipline, said) is Ok,
    ensures
        ({
            let after = filled(s7, discipline, said)->Ok_0;
            let f = after.fields.last();
            &&& after.fields.len() == said.fields.len() + 1
            &&& after.fields.drop_last() == said.fields
            &&& f.discipline == discipline
            &&& said.reference == Some(f.reference) && said.grid == Some(f.grid)
            &&& said.product matches Some(p) && f.category == p.category && f.number == p.number
                && f.surface == p.surface && f.level == p.level && f.lead == p.lead
            &&& after.reference == said.reference && after.grid == said.grid
            &&& after.product is None && after.packing is None && after.bitmap is None
        }),
{
    assert(filled(s7, discipline, said)->Ok_0.fields.drop_last() =~= said.fields);
}

} // verus!
