use omawind::grib::{be, fits, parse, signed, unpack, Field, Packed, Packing};
use omawind::grid::{Grid, Lambert, Scaled};
use omawind::time::unix;

/// The values packing stands for: `(R + X*2^E) / 10^D`.
fn scaled(p: &Packed) -> Vec<f32> {
    let r = f64::from(f32::from_bits(p.reference));
    let e = 2f64.powi(p.binary);
    let d = 10f64.powi(-p.decimal);
    p.values
        .iter()
        .map(|x| x.map_or(f32::NAN, |x| ((r + f64::from(x) * e) * d) as f32))
        .collect()
}

fn level(f: &Field) -> Option<f64> {
    f.level.map(|l| f64::from(l.value) / 10f64.powi(l.scale))
}

#[test]
fn reads_sign_and_magnitude() {
    assert_eq!(signed(&[0x80, 0x04]), -4);
    assert_eq!(signed(&[0x00, 0x04]), 4);
    assert_eq!(signed(&[0x82, 0x2c, 0xb7, 0x2e]), -36_484_910);
    assert_eq!(signed(&[0x80]), 0);
}

fn packing(bits: u32, count: usize) -> Packing {
    Packing {
        count,
        reference: 1.5f32.to_bits(),
        binary: -1,
        decimal: 1,
        bits,
    }
}

#[test]
fn unpacks_values_across_byte_boundaries() {
    // 3, 0, 7, 5 in three bits each: 011 000 111 101, then padding.
    let data = [0b0110_0011, 0b1101_0000];
    let v = unpack(&data, &packing(3, 4), 4, &None).unwrap();
    // (1.5 + x/2) / 10
    assert_eq!(scaled(&v), [0.3, 0.15, 0.5, 0.4]);
}

#[test]
fn a_bitmap_leaves_gaps_and_zero_bits_mean_constant() {
    let data = [0b1110_0000];
    let v = scaled(&unpack(&data, &packing(3, 1), 3, &Some(vec![false, true, false])).unwrap());
    assert!(v[0].is_nan() && v[2].is_nan());
    assert_eq!(v[1], 0.5);
    assert_eq!(scaled(&unpack(&[], &packing(0, 2), 2, &None).unwrap()), [0.15, 0.15]);
}

#[test]
fn refuses_short_or_miscounted_data() {
    assert!(unpack(&[0xff], &packing(8, 2), 2, &None).is_err());
    assert!(unpack(&[0xff, 0xff], &packing(8, 2), 3, &None).is_err());
}

#[test]
fn refuses_what_isnt_grib2() {
    assert!(parse(b"<!doctype html><html>Request for Future Data</html>").is_err());
    let mut edition1 = b"GRIB\0\0\0\x01".to_vec();
    edition1.extend([0; 12]);
    assert!(parse(&edition1).unwrap_err().contains("edition 1"));
}

// Messages built by hand: HRRR's grid cut to nx by ny, a 10 m wind field.
fn section(number: u8, body: &[u8]) -> Vec<u8> {
    let mut s = ((body.len() + 5) as u32).to_be_bytes().to_vec();
    s.push(number);
    s.extend(body);
    s
}

fn identification() -> Vec<u8> {
    section(1, &[0, 7, 0, 0, 2, 1, 1, 0x07, 0xea, 9, 14, 3, 0, 0, 0, 1])
}

fn lambert(nx: u32, ny: u32) -> Vec<u8> {
    let mut b = vec![0];
    b.extend(nx.wrapping_mul(ny).to_be_bytes());
    b.extend([0, 0, 0, 30, 6, 0, 0, 0, 0, 0, 0, 0, 0, 0, 0, 0, 0, 0, 0, 0]);
    for v in [nx, ny, 36_364_046, 236_364_977] {
        b.extend(v.to_be_bytes());
    }
    b.push(0x08);
    for v in [38_500_000u32, 262_500_000, 3_000_000, 3_000_000] {
        b.extend(v.to_be_bytes());
    }
    b.extend([0, 0x40]);
    for v in [38_500_000u32, 38_500_000, 0, 0] {
        b.extend(v.to_be_bytes());
    }
    section(3, &b)
}

fn product() -> Vec<u8> {
    section(
        4,
        &[
            0, 0, 0, 0, 2, 2, 2, 0, 0, 0, 0, 0, 1, 0, 0, 0, 1, 103, 0, 0, 0, 0, 10, 255, 0, 0, 0, 0, 0,
        ],
    )
}

fn simple(count: u32, r: f32, e: [u8; 2], d: [u8; 2], bits: u8) -> Vec<u8> {
    let mut b = count.to_be_bytes().to_vec();
    b.extend([0, 0]);
    b.extend(r.to_bits().to_be_bytes());
    b.extend(e);
    b.extend(d);
    b.extend([bits, 0]);
    section(5, &b)
}

fn bitmap(indicator: u8, bits: &[u8]) -> Vec<u8> {
    let mut b = vec![indicator];
    b.extend(bits);
    section(6, &b)
}

fn wrap(sections: &[Vec<u8>]) -> Vec<u8> {
    let body: Vec<u8> = sections.concat().into_iter().chain(*b"7777").collect();
    let mut m = b"GRIB\0\0\0\x02".to_vec();
    m.extend((16 + body.len() as u64).to_be_bytes());
    m.extend(body);
    m
}

fn whole() -> Vec<u8> {
    wrap(&[
        identification(),
        lambert(2, 2),
        product(),
        simple(4, 1.0, [0, 0], [0, 0], 8),
        bitmap(255, &[]),
        section(7, &[0, 1, 2, 3]),
    ])
}

#[test]
fn decodes_a_message_built_by_hand() {
    let m = whole();
    let f = parse(&m).unwrap();
    assert_eq!(f.len(), 1);
    assert_eq!(scaled(&f[0].values), [1.0, 2.0, 3.0, 4.0]);
    assert_eq!((f[0].name().as_str(), level(&f[0]), f[0].lead), ("UGRD", Some(10.0), 3600));
    assert_eq!(f[0].reference, unix(2026, 9, 14, 3, 0, 0));
}

#[test]
fn refuses_a_grid_too_big_to_decode() {
    // A couple of hundred bytes claiming 4.3 billion points of one value.
    let m = wrap(&[
        identification(),
        lambert(65_535, 65_535),
        product(),
        simple(65_535 * 65_535, 1.0, [0, 0], [0, 0], 0),
        bitmap(255, &[]),
        section(7, &[]),
    ]);
    assert!(parse(&m).unwrap_err().contains("too many points"));
}

#[test]
fn refuses_too_many_values_in_one_file() {
    let mut sections = vec![identification()];
    for _ in 0..5 {
        sections.extend([
            lambert(2000, 2000),
            product(),
            simple(4_000_000, 1.0, [0, 0], [0, 0], 0),
            bitmap(255, &[]),
            section(7, &[]),
        ]);
    }
    assert!(parse(&wrap(&sections)).unwrap_err().contains("too many values"));
}

#[test]
fn refuses_a_bitmap_reused_for_another_grid() {
    let m = wrap(&[
        identification(),
        lambert(2, 2),
        product(),
        simple(4, 1.0, [0, 0], [0, 0], 8),
        bitmap(0, &[0xf0]),
        section(7, &[0, 1, 2, 3]),
        lambert(3, 3),
        product(),
        simple(4, 1.0, [0, 0], [0, 0], 8),
        bitmap(254, &[]),
        section(7, &[0, 1, 2, 3]),
    ]);
    assert!(parse(&m).unwrap_err().contains("another grid"));
}

#[test]
fn refuses_a_grid_changed_after_its_bitmap() {
    let m = wrap(&[
        identification(),
        lambert(3, 3),
        product(),
        simple(9, 1.0, [0, 0], [0, 0], 8),
        bitmap(0, &[0xff, 0x80]),
        lambert(2, 2),
        section(7, &[0; 9]),
    ]);
    assert!(parse(&m).unwrap_err().contains("bitmap"));
}

#[test]
fn refuses_values_that_overflow() {
    // D = -32767: every value times 10^32767.
    let m = wrap(&[
        identification(),
        lambert(2, 2),
        product(),
        simple(4, 1.0, [0, 0], [0xff, 0xff], 0),
        bitmap(255, &[]),
        section(7, &[]),
    ]);
    assert!(parse(&m).unwrap_err().contains("overflow"));
}

#[test]
fn only_gaps_may_be_missing_once_scaled() {
    let p = Packed { reference: 0, binary: 0, decimal: 0, values: vec![Some(1), None, Some(3)] };
    let check = |v: [f32; 3]| fits(&p, &v.map(f32::to_bits));
    assert!(check([1.0, f32::NAN, -f32::MAX]).is_ok());
    assert_eq!(check([1.0, 2.0, f32::INFINITY]).unwrap_err(), "values overflow");
    assert_eq!(check([f32::NEG_INFINITY, 2.0, 3.0]).unwrap_err(), "values overflow");
    assert_eq!(check([f32::NAN, 2.0, 3.0]).unwrap_err(), "values overflow");
}

/// One value, unpacked.
fn one(reference: f32, e: i32, d: i32, x: u32) -> Result<Packed, String> {
    let k = Packing { count: 1, reference: reference.to_bits(), binary: e, decimal: d, bits: 32 };
    unpack(&x.to_be_bytes(), &k, 1, &None)
}

#[test]
fn refuses_a_value_too_big_for_a_float() {
    let m = wrap(&[
        identification(),
        lambert(2, 2),
        product(),
        simple(4, 1.0, [0, 0], [0x80, 100], 0),
        bitmap(255, &[]),
        section(7, &[]),
    ]);
    assert_eq!(parse(&m).unwrap_err(), "message 1: values overflow");
    let ok = |r: f32, e: i32, d: i32, x: u32| match one(r, e, d, x) {
        Ok(p) => {
            assert!(scaled(&p)[0].is_finite());
            true
        }
        Err(e) => {
            assert_eq!(e, "values overflow");
            false
        }
    };
    // Half a step past the last float rounds to infinity.
    assert!(ok(f32::MAX, 0, 0, 0) && ok(f32::MAX, 102, 0, 1));
    assert!(!ok(f32::MAX, 103, 0, 1));
    assert!(ok(-f32::MAX, 104, 0, u32::from(u16::MAX)));
    assert!(!ok(-f32::MAX, 0, -1, 0) && !ok(f32::MAX, 0, -1, 0) && ok(-f32::MAX, 0, 1, 0));
    // The sum is what has to fit, not its parts.
    assert!(ok(-f32::MAX, 104, 0, (1 << 25) - 2) && !ok(-f32::MAX, 104, 0, (1 << 25) - 1));
    // X*2^E has to fit a 64-bit float on the way.
    assert!(ok(0.0, 1023, 300, 1) && !ok(0.0, 1023, 300, 2) && !ok(0.0, 1023, 32767, 2));
    assert!(ok(1.0, -32767, 0, u32::MAX) && ok(1.0, 0, 32767, 7) && ok(3.0, -32767, -37, 5));
    assert!(!ok(1.0, -32767, -39, 5));
}

#[test]
fn only_the_bitmaps_gaps_escape_the_limit() {
    let k = Packing { count: 2, reference: 0, binary: 120, decimal: 0, bits: 16 };
    let data = [0, 1, 1, 0];
    let kept = |m: [bool; 3]| unpack(&data, &k, 3, &Some(m.to_vec()));
    // 2^120 fits, 2^128 doesn't.
    assert_eq!(kept([true, false, true]).unwrap_err(), "values overflow");
    let k = Packing { count: 1, ..k };
    assert_eq!(unpack(&data, &k, 3, &Some(vec![false, true, false])).unwrap().values, [None, Some(1), None]);
}

#[test]
fn the_limit_is_where_floats_put_it() {
    let mut seed: u64 = 7;
    let mut next = |n: u64| {
        seed = seed.wrapping_mul(6_364_136_223_846_793_005).wrapping_add(1_442_695_040_888_963_407);
        (seed >> 33) % n
    };
    let mut refused = 0;
    for _ in 0..2000 {
        let r = f32::from_bits((next(1 << 31) << 1 | next(2)) as u32);
        if !r.is_finite() {
            continue;
        }
        let (e, d) = (next(1400) as i32 - 376, next(700) as i32 - 308);
        let x = next(1 << 31) as u32 >> next(31);
        let (two, ten) = (2f64.powi(e), 10f64.powi(-d));
        let v = ((f64::from(r) + f64::from(x) * two) * ten) as f32;
        assert_eq!(one(r, e, d, x).is_ok(), v.is_finite(), "{r} {e} {d} {x}");
        refused += u32::from(!v.is_finite());
    }
    assert!((100..1900).contains(&refused), "{refused}");
}

#[test]
fn bytes_read_the_most_significant_first() {
    assert_eq!(be(&[]), 0);
    assert_eq!(be(&[1, 2, 3]), 0x01_0203);
    assert_eq!(be(&[0xff; 8]), u64::MAX);
}

#[test]
fn files_one_after_the_other_hold_the_fields_of_both() {
    let a = whole();
    let b = wrap(&[
        identification(),
        lambert(2, 3),
        product(),
        simple(4, 2.0, [0x80, 1], [0, 0], 8),
        bitmap(0, &[0b1011_0100]),
        section(7, &[2, 4, 6, 8]),
        product(),
        simple(4, 0.5, [0, 0], [0, 0], 0),
        bitmap(254, &[]),
        section(7, &[]),
    ]);
    let f = parse(&[a.clone(), b.clone(), a].concat()).unwrap();
    assert_eq!(f.len(), 4);
    assert_eq!(f[0].values.values, f[3].values.values);
    let v = scaled(&f[1].values);
    assert_eq!((v[0], v[2], v[3], v[5]), (3.0, 4.0, 5.0, 6.0));
    assert!(v[1].is_nan() && v[4].is_nan());
    let flat: Vec<f32> = scaled(&f[2].values).into_iter().filter(|v| !v.is_nan()).collect();
    assert_eq!(flat, [0.5; 4]);
    assert_eq!(parse(&[]).unwrap().len(), 0);
}

#[test]
fn a_broken_message_is_refused_by_number() {
    let good = whole();
    let err = |bytes: &[u8]| parse(bytes).unwrap_err();
    assert_eq!(err(b"GRIB"), "message 1: not GRIB at byte 0");
    let second = [good.clone(), b"nope".to_vec()].concat();
    assert_eq!(err(&second), format!("message 2: not GRIB at byte {}", good.len()));
    assert_eq!(err(&good[..good.len() - 1]), "message 1: cut short");
    let mut tiny = b"GRIB\0\0\0\x02".to_vec();
    tiny.extend(19u64.to_be_bytes());
    tiny.extend([0; 8]);
    assert_eq!(err(&tiny), "message 1: cut short");
}

#[test]
fn a_section_that_wont_do_is_refused() {
    let err = |sections: &[Vec<u8>]| parse(&wrap(sections)).unwrap_err();
    let says = |sections: &[Vec<u8>], what: &str| {
        assert_eq!(err(sections), format!("message 1: {what}"));
    };
    says(&[section(9, &[])], "unknown section 9");
    says(&[section(1, &[0])], "section 1 is too short");
    says(&[section(1, &[0, 7, 0, 0, 2, 1, 1, 0x07, 0xea, 13, 14, 3, 0, 0, 0, 1])], "impossible reference time");
    says(&[section(6, &[])], "section 6 is too short");
    says(&[bitmap(255, &[])], "bitmap before grid");
    says(&[lambert(3, 3), bitmap(0, &[0xff])], "bitmap too short for the grid");
    says(&[lambert(3, 3), bitmap(254, &[])], "reuses a bitmap never defined");
    says(&[lambert(3, 3), bitmap(7, &[])], "predefined bitmap 7 isn't supported");
    says(&[section(7, &[])], "data before its identification, grid, product, packing or bitmap");
    says(&[vec![0, 0, 0, 4, 1]], "section at byte 16 runs past the message");
    says(&[vec![0, 0, 0, 99, 1]], "section at byte 16 runs past the message");
    says(&[section(2, &[]), vec![0, 0, 0]], "section at byte 21 runs past the message");
    says(&[section(4, &[])], "section 4 is too short");
    says(&[section(4, &[0; 10])], "section 4 is too short for template 4.0");
    says(&[section(4, &[0, 0, 0, 8, 0])], "product template 4.8 isn't supported (only 4.0)");
    let mut odd = product();
    odd[17] = 3;
    says(&[odd], "time unit 3 isn't supported");
    says(&[section(5, &[])], "section 5 is too short");
    says(&[section(5, &[0; 8])], "section 5 is too short for template 5.0");
    says(
        &[section(5, &[0, 0, 0, 0, 0, 3, 0])],
        "packing template 5.3 isn't supported (only simple packing, 5.0)",
    );
    says(&[simple(4, 1.0, [0, 0], [0, 0], 33)], "33 bits per value isn't supported");
    let mut m = b"GRIB\0\0\0\x02".to_vec();
    m.extend(20u64.to_be_bytes());
    m.extend(*b"777x");
    assert_eq!(parse(&m).unwrap_err(), "message 1: no end section");
}

#[test]
fn a_grid_that_wont_do_is_refused() {
    let err = |change: &dyn Fn(&mut Vec<u8>)| {
        let mut s = lambert(2, 2);
        change(&mut s);
        parse(&wrap(&[s])).unwrap_err()
    };
    let put = |at: usize, bytes: [u8; 4]| {
        move |s: &mut Vec<u8>| s[at..at + 4].copy_from_slice(&bytes)
    };
    assert!(err(&|s| s[5] = 1).contains("defined by a table"));
    assert!(err(&|s| s[10] = 1).contains("a list of points"));
    assert!(err(&|s| s[13] = 20).contains("grid template 3.20 isn't supported"));
    assert!(err(&|s| s[14] = 4).contains("earth shape 4 isn't supported"));
    assert!(err(&|s| s[63] = 0x80).contains("north pole"));
    assert!(err(&|s| s[64] = 0x50).contains("scanning mode 0x50 isn't supported"));
    assert!(err(&put(6, [0, 0, 0, 5])).contains("grid is 2×2 but says it has 5 points"));
    assert!(err(&put(55, [0, 0, 0, 0])).contains("only northern cones"));
    assert!(err(&put(65, [0x80, 0, 0, 1])).contains("only northern cones"));
    assert_eq!(parse(&wrap(&[section(3, &[0; 8])])).unwrap_err(), "message 1: section 3 is too short");
    let short = section(3, &[0, 0, 0, 0, 4, 0, 0, 0, 30, 6]);
    assert_eq!(
        parse(&wrap(&[short])).unwrap_err(),
        "message 1: section 3 is too short for template 3.30"
    );
}

#[test]
fn a_grid_is_read_in_whole_numbers() {
    let f = parse(&whole()).unwrap();
    let g = &f[0].grid;
    assert_eq!((g.nx, g.ny, g.len()), (2, 2, 4));
    assert_eq!((g.la1, g.lo1, g.lov), (36_364_046, -123_635_023, -97_500_000));
    assert_eq!((g.dx, g.dy, g.radius.value), (3_000_000, 3_000_000, 6_371_229));
    assert!(g.winds_along_grid && g.rows_north && !g.is_empty());
    assert_eq!(f[0].valid(), f[0].reference + 3600);
    assert!(g.equals(g));
}

#[test]
fn packing_that_wont_do_is_refused() {
    let k = |count: usize, reference: f32, binary: i32, decimal: i32| Packing {
        count,
        reference: reference.to_bits(),
        binary,
        decimal,
        bits: 8,
    };
    let err = |k: Packing| unpack(&[1, 2], &k, 2, &None).unwrap_err();
    assert_eq!(err(k(3, 1.0, 0, 0)), "packs 3 values for 2 points with data");
    assert_eq!(err(k(2, f32::NAN, 0, 0)), "reference value isn't a number");
    assert_eq!(err(k(2, f32::INFINITY, 0, 0)), "reference value isn't a number");
    assert_eq!(err(k(2, 1.0, 1024, 0)), "scale factors overflow");
    assert_eq!(err(k(2, 1.0, 0, -309)), "scale factors overflow");
    assert_eq!(unpack(&[1], &k(2, 1.0, 0, 0), 2, &None).unwrap_err(), "data section too short");
    assert_eq!(err(k(2, 1.0, 1023, -308)), "values overflow");
    let v = unpack(&[0, 0], &k(2, 0.0, 1023, -308), 2, &None).unwrap();
    assert_eq!(v.values, [Some(0), Some(0)]);
}

#[test]
fn values_may_be_32_bits_wide() {
    let k = Packing { count: 2, reference: 0, binary: 0, decimal: 0, bits: 32 };
    let v = unpack(&[0xff, 0xff, 0xff, 0xff, 1, 2, 3, 4], &k, 2, &None).unwrap();
    assert_eq!(v.values, [Some(u32::MAX), Some(0x0102_0304)]);
}

#[test]
fn parameters_have_their_names() {
    let f = parse(&whole()).unwrap().remove(0);
    let name = |category: u8, number: u8| {
        let mut g = f.clone();
        (g.category, g.number) = (category, number);
        g.name()
    };
    assert_eq!(name(2, 3), "VGRD");
    assert_eq!(name(2, 22), "GUST");
    assert_eq!(name(3, 1), "PRMSL");
    assert_eq!(name(3, 198), "MSLMA");
    assert_eq!(name(19, 0), "0.19.0");
}

#[test]
fn scaled_numbers_are_equal_by_worth() {
    let s = |scale: i32, value: u32| Scaled { scale, value };
    assert!(s(0, 10).equals(&s(1, 100)) && s(1, 100).equals(&s(0, 10)));
    assert!(s(-1, 1).equals(&s(0, 10)));
    assert!(!s(0, 10).equals(&s(0, 11)) && !s(2, 100).equals(&s(0, 10)));
    assert!(s(5, 0).equals(&s(-120, 0)));
    assert!(!s(-127, 1).equals(&s(127, 1)));
}

fn bay() -> Lambert {
    Lambert {
        nx: 82,
        ny: 88,
        la1: 36_364_046,
        lo1: -123_635_023,
        lov: -97_500_000,
        lad: 38_500_000,
        latin1: 38_500_000,
        latin2: 38_500_000,
        dx: 3_000_000,
        dy: 3_000_000,
        radius: Scaled { scale: 0, value: 6_371_229 },
        winds_along_grid: true,
        rows_north: true,
    }
}

#[test]
fn only_northern_cones_are_grids() {
    let g = Grid::lambert(bay()).unwrap();
    assert_eq!(g.len(), 7216);
    assert_eq!(g.column_row(3000), (48, 36));
    let refused = |change: &dyn Fn(&mut Lambert)| {
        let mut l = bay();
        change(&mut l);
        Grid::lambert(l).unwrap_err() == "unsupported Lambert grid: only northern cones"
    };
    assert!(refused(&|l| l.nx = 1) && refused(&|l| l.ny = 1));
    assert!(refused(&|l| l.dx = 0) && refused(&|l| l.dy = 0) && refused(&|l| l.radius.value = 0));
    assert!(refused(&|l| l.latin1 = 0) && refused(&|l| l.latin2 = -1));
    assert!(refused(&|l| l.latin1 = 89_000_000) && refused(&|l| l.lad = -89_000_000));
    assert!(refused(&|l| l.la1 = 89_000_000));
    let mut other = bay();
    other.lov += 1;
    assert!(!g.equals(&Grid::lambert(other).unwrap()));
}
