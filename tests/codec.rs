use compls::{decode_int, encode_int, CompLs, CompLsError, Precision};

fn encoded(value: i64) -> Vec<u8> {
    let mut out = Vec::new();
    encode_int(value, &mut out);
    out
}

fn quantize(delta: f64, m: f64) -> i64 {
    let mut d = delta;
    if d < 0.0 {
        d -= 1.0 / m;
    }
    (d * m).round() as i64
}

fn dequantize(q: i64, m: f64) -> f64 {
    let mut d = q as f64 / m;
    if d < 0.0 {
        d += 1.0 / m;
    }
    d
}

fn encode_points(points: &[(f64, f64)], m: f64) -> CompLs {
    let mut prev = (0.0, 0.0);
    let mut deltas = Vec::new();
    for p in points {
        deltas.push((quantize(p.0 - prev.0, m), quantize(p.1 - prev.1, m)));
        prev = *p;
    }
    CompLs::encode_quantized(&deltas)
}

fn decode_points(c: &CompLs, m: f64) -> Vec<(f64, f64)> {
    let mut prev = (0.0, 0.0);
    let mut points = Vec::new();
    for (x, y) in c.quantized_deltas() {
        let p = (prev.0 + dequantize(x, m), prev.1 + dequantize(y, m));
        points.push(p);
        prev = p;
    }
    points
}

fn assert_close(a: &[(f64, f64)], b: &[(f64, f64)], tolerance: f64) {
    assert_eq!(a.len(), b.len());
    for i in 0..a.len() {
        assert!((a[i].0 - b[i].0).abs() <= tolerance);
        assert!((a[i].1 - b[i].1).abs() <= tolerance);
    }
}

#[test]
fn serialize_and_length() {
    let lines: Vec<Vec<(f64, f64)>> = vec![
        vec![(76.9017028, 43.1802978)],
        vec![(76.8936157, 43.2443809), (76.8936309, 43.2442245)],
        vec![(76.8397903, 43.2167510), (76.8398132, 43.2167587), (76.8408584, 43.2169990)],
        vec![(76.9756393, 43.2715377), (76.9760818, 43.2720947), (76.9766235, 43.2728042)],
        vec![
            (76.9615707, 43.2746200),
            (76.9616699, 43.2747688),
            (76.9620742, 43.2753715),
            (76.9627532, 43.2764091),
            (76.9629516, 43.2765502),
            (76.9630584, 43.2765998),
        ],
        vec![
            (76.9759140, 43.2704200),
            (76.9757766, 43.2705001),
            (76.9756774, 43.2705917),
            (76.9755706, 43.2707099),
            (76.9754562, 43.2708740),
            (76.9753875, 43.2710494),
            (76.9754028, 43.2711601),
            (76.9754638, 43.2713012),
            (76.9756011, 43.2714843),
            (76.9756393, 43.2715377),
        ],
    ];
    for l in lines {
        let length = l.len();
        let compln = encode_points(&l, 1e7);
        assert_eq!(length, compln.size());

        let copy = CompLs::try_new(compln.as_bytes()).unwrap();
        let back = decode_points(&copy, 1e7);
        println!("{:?} <=> {:?}", l, back);
        assert_close(&l, &back, 0.1);
    }
}

#[test]
fn single_point_seven_digits() {
    let points = vec![(76.9017028, 43.1802978)];
    let c = encode_points(&points, 1e7);
    assert_eq!(c.size(), 1);
    let back = decode_points(&c, 1e7);
    assert_eq!(back.len(), 1);
    assert_close(&points, &back, 1e-7);
}

#[test]
fn two_points_seven_digits() {
    let points = vec![(76.8936157, 43.2443809), (76.8936309, 43.2442245)];
    let c = encode_points(&points, 1e7);
    assert_eq!(c.size(), 2);
    let back = decode_points(&c, 1e7);
    assert_eq!(back.len(), 2);
    assert_close(&points, &back, 1e-7);
}

#[test]
fn empty_sequence_gives_empty_buffer() {
    let c = CompLs::encode_quantized(&[]);
    assert_eq!(c.as_bytes().len(), 0);
    assert_eq!(c.size(), 0);
    assert!(c.quantized_deltas().is_empty());
}

#[test]
fn zero_encodes_to_one_and_reads_back_as_minus_one() {
    assert_eq!(encoded(0), vec![1u8]);
    assert_eq!(decode_int(&encoded(0)), -1);
}

#[test]
fn varint_exact_bytes() {
    assert_eq!(encoded(1), vec![2u8]);
    assert_eq!(encoded(-1), vec![1u8]);
    assert_eq!(encoded(-2), vec![3u8]);
    assert_eq!(encoded(63), vec![126u8]);
    assert_eq!(encoded(64), vec![128u8, 1]);
    assert_eq!(encoded(-65), vec![129u8, 1]);
    assert_eq!(encoded(300), vec![216u8, 4]);
    assert_eq!(decode_int(&[216, 4]), 300);
    assert_eq!(decode_int(&[129, 1]), -65);
    assert_eq!(decode_int(&[2]), 1);
}

#[test]
fn varint_appends_to_existing_bytes() {
    let mut out = vec![7u8, 200];
    encode_int(64, &mut out);
    assert_eq!(out, vec![7u8, 200, 128, 1]);
}

#[test]
fn varint_extremes_round_trip() {
    for v in [i64::MAX, i64::MIN, i64::MAX - 1, i64::MIN + 1, 1i64 << 62, -(1i64 << 62)] {
        let bytes = encoded(v);
        assert!(bytes.len() <= 10);
        assert!(*bytes.last().unwrap() < 128);
        assert_eq!(decode_int(&bytes), v);
    }
    assert_eq!(encoded(i64::MIN).len(), 10);
}

#[test]
fn try_new_rejects_odd_terminal_count() {
    match CompLs::try_new(&[2, 4, 6]) {
        Err(CompLsError::BrokenEncoding(_)) => {}
        _ => panic!("expected BrokenEncoding"),
    }
    match CompLs::try_new(&[128, 2]) {
        Err(CompLsError::BrokenEncoding(_)) => {}
        _ => panic!("expected BrokenEncoding"),
    }
}

#[test]
fn try_new_accepts_even_terminal_count() {
    let c = CompLs::try_new(&[128, 1, 4, 200]).unwrap();
    assert_eq!(c.as_bytes(), &[128u8, 1, 4, 200]);
    assert_eq!(c.size(), 1);
    assert_eq!(c.quantized_deltas(), vec![(64i64, 2i64)]);
    let empty = CompLs::try_new(&[]).unwrap();
    assert_eq!(empty.size(), 0);
}

#[test]
fn size_matches_decoded_points() {
    let c = CompLs::try_new(&[2, 3, 128, 1, 5, 6, 7, 255]).unwrap();
    assert_eq!(c.size(), 3);
    assert_eq!(c.quantized_deltas().len(), 3);
}

#[test]
fn quantized_round_trip_reads_zero_as_minus_one() {
    let deltas = vec![(5i64, -3i64), (0, 7), (-200, 0), (i64::MAX, i64::MIN)];
    let c = CompLs::encode_quantized(&deltas);
    assert_eq!(c.size(), 4);
    assert_eq!(
        c.quantized_deltas(),
        vec![(5i64, -3i64), (-1, 7), (-200, -1), (i64::MAX, i64::MIN)]
    );
    assert_eq!(c.as_bytes()[..3], [10u8, 5, 1]);
}

#[test]
fn encoding_has_even_terminal_count() {
    let c = CompLs::encode_quantized(&[(1, 2), (-70, 9000), (0, 0)]);
    let terminals = c.as_bytes().iter().filter(|b| **b < 128).count();
    assert_eq!(terminals, 6);
    assert!(CompLs::try_new(c.as_bytes()).is_ok());
}

#[test]
fn precision_digits() {
    assert_eq!(Precision::Two.digits(), 2);
    assert_eq!(Precision::Seven.digits(), 7);
    assert_eq!(Precision::Other(4).digits(), 4);
}
