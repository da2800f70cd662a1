use srp_phat::codec::{
    decode_frames, decode_geometry, decode_opts, encode_results, CodecError, Cursor, SourceOut,
    MAX_SOURCES_CAP, SOURCE_FIELDS,
};

fn pack_frames(n_emp: u32, n_samples: u32, data: &[f64]) -> Vec<u8> {
    let mut b = Vec::new();
    b.extend_from_slice(&n_emp.to_le_bytes());
    b.extend_from_slice(&n_samples.to_le_bytes());
    for v in data {
        b.extend_from_slice(&v.to_le_bytes());
    }
    b
}

fn reals(bits: &[u64]) -> Vec<f64> {
    bits.iter().map(|b| f64::from_bits(*b)).collect()
}

fn read_f64(buf: &[u8], at: usize) -> f64 {
    f64::from_le_bytes(buf[at..at + 8].try_into().unwrap())
}

#[test]
fn frames_roundtrip() {
    let data = [1.0, 2.0, 3.0, 4.0, 5.0, 6.0];
    let buf = pack_frames(2, 3, &data);
    let f = decode_frames(&buf).unwrap();
    assert_eq!(f.n_emp, 2);
    assert_eq!(f.n_samples, 3);
    assert_eq!(reals(f.channel(0)), vec![1.0, 2.0, 3.0]);
    assert_eq!(reals(f.channel(1)), vec![4.0, 5.0, 6.0]);
}

#[test]
fn geometry_roundtrip() {
    let mut b = Vec::new();
    b.extend_from_slice(&4_000.0f64.to_le_bytes());
    b.extend_from_slice(&2u32.to_le_bytes());
    for v in [1.0f64, 2.0, 3.0, 4.0, 5.0, 6.0] {
        b.extend_from_slice(&v.to_le_bytes());
    }
    let g = decode_geometry(&b).unwrap();
    assert_eq!(f64::from_bits(g.sample_rate_hz), 4_000.0);
    let ecef: Vec<[f64; 3]> = g
        .ecef
        .iter()
        .map(|p| [f64::from_bits(p[0]), f64::from_bits(p[1]), f64::from_bits(p[2])])
        .collect();
    assert_eq!(ecef, vec![[1.0, 2.0, 3.0], [4.0, 5.0, 6.0]]);
}

#[test]
fn results_encode_shape_and_flags() {
    let srcs = vec![
        SourceOut {
            ecef: [10.0f64.to_bits(), 20.0f64.to_bits(), 30.0f64.to_bits()],
            velocity: None,
            radial_velocity: None,
            covariance: Some([1.0f64.to_bits(); 9]),
            confidence: 0.5f64.to_bits(),
            dominant_hz: 600.0f64.to_bits(),
        },
        SourceOut {
            ecef: [1.0f64.to_bits(), 2.0f64.to_bits(), 3.0f64.to_bits()],
            velocity: Some([4.0f64.to_bits(), 5.0f64.to_bits(), 6.0f64.to_bits()]),
            radial_velocity: Some(7.0f64.to_bits()),
            covariance: None,
            confidence: 0.9f64.to_bits(),
            dominant_hz: 440.0f64.to_bits(),
        },
    ];
    let buf = encode_results(&srcs);
    assert_eq!(buf.len(), 4 + 2 * SOURCE_FIELDS * 8);
    let n = u32::from_le_bytes(buf[0..4].try_into().unwrap());
    assert_eq!(n, 2);
}

#[test]
fn truncated_buffer_errors() {
    assert!(matches!(decode_frames(&[0, 0]), Err(CodecError::Truncated)));
    assert!(matches!(decode_geometry(&[0, 0]), Err(CodecError::Truncated)));
    assert!(matches!(decode_opts(&[0, 0]), Err(CodecError::Truncated)));
}

#[test]
fn oversized_header_rejected_without_allocating() {
    let mut frames = Vec::new();
    frames.extend_from_slice(&u32::MAX.to_le_bytes());
    frames.extend_from_slice(&u32::MAX.to_le_bytes());
    assert!(matches!(
        decode_frames(&frames),
        Err(CodecError::Truncated | CodecError::BadShape)
    ));

    let mut geom = Vec::new();
    geom.extend_from_slice(&4_000.0f64.to_le_bytes());
    geom.extend_from_slice(&u32::MAX.to_le_bytes());
    assert!(matches!(
        decode_geometry(&geom),
        Err(CodecError::Truncated | CodecError::BadShape)
    ));
}

#[test]
fn non_finite_samples_rejected() {
    let buf = pack_frames(1, 1, &[f64::NAN]);
    assert!(matches!(decode_frames(&buf), Err(CodecError::NonFinite)));
}

#[test]
fn max_sources_is_clamped() {
    let mut b = Vec::new();
    for v in [300.0f64, 20.0, 2.0, 0.5] {
        b.extend_from_slice(&v.to_le_bytes());
    }
    b.extend_from_slice(&u32::MAX.to_le_bytes());
    assert_eq!(decode_opts(&b).unwrap().max_sources, MAX_SOURCES_CAP);
}

// ---------------------------------------------------------------------------

#[test]
fn cursor_reads_words_in_order_and_stops_at_the_end() {
    let mut b = Vec::new();
    b.extend_from_slice(&0xDEAD_BEEFu32.to_le_bytes());
    b.extend_from_slice(&(-2.5f64).to_le_bytes());
    b.extend_from_slice(&[1, 2, 3]);
    let mut c = Cursor::new(&b);
    assert_eq!(c.remaining(), 15);
    assert_eq!(c.u32().unwrap(), 0xDEAD_BEEF);
    assert_eq!(c.remaining(), 11);
    assert_eq!(f64::from_bits(c.f64_bits().unwrap()), -2.5);
    assert_eq!(c.remaining(), 3);
    assert!(matches!(c.u32(), Err(CodecError::Truncated)));
    assert!(matches!(c.f64_bits(), Err(CodecError::Truncated)));
    assert_eq!(c.remaining(), 3);
}

#[test]
fn cursor_finite_read_rejects_infinity_and_consumes_it() {
    let mut b = Vec::new();
    b.extend_from_slice(&f64::INFINITY.to_le_bytes());
    b.extend_from_slice(&7.0f64.to_le_bytes());
    let mut c = Cursor::new(&b);
    assert!(matches!(c.finite_f64(), Err(CodecError::NonFinite)));
    assert_eq!(c.remaining(), 8);
    assert_eq!(f64::from_bits(c.finite_f64().unwrap()), 7.0);
}

#[test]
fn frames_header_overflow_is_bad_shape() {
    // u32::MAX² samples fit a 64-bit count but not its byte size.
    let mut frames = Vec::new();
    frames.extend_from_slice(&u32::MAX.to_le_bytes());
    frames.extend_from_slice(&u32::MAX.to_le_bytes());
    if usize::BITS == 64 {
        assert!(matches!(decode_frames(&frames), Err(CodecError::BadShape)));
    }
}

#[test]
fn frames_short_payload_is_truncated() {
    let mut buf = pack_frames(2, 2, &[1.0, 2.0, 3.0, 4.0]);
    buf.pop();
    assert!(matches!(decode_frames(&buf), Err(CodecError::Truncated)));
}

#[test]
fn frames_with_trailing_bytes_decode_the_declared_samples() {
    let mut buf = pack_frames(1, 2, &[0.25, -0.5]);
    buf.extend_from_slice(&[9, 9, 9]);
    let f = decode_frames(&buf).unwrap();
    assert_eq!(reals(&f.data), vec![0.25, -0.5]);
}

#[test]
fn empty_frame_set_decodes() {
    let buf = pack_frames(0, 5, &[]);
    let f = decode_frames(&buf).unwrap();
    assert_eq!((f.n_emp, f.n_samples, f.data.len()), (0, 5, 0));
}

#[test]
fn geometry_rejects_non_finite_rate_and_coordinate() {
    let mut b = Vec::new();
    b.extend_from_slice(&f64::NAN.to_le_bytes());
    b.extend_from_slice(&0u32.to_le_bytes());
    assert!(matches!(decode_geometry(&b), Err(CodecError::NonFinite)));

    let mut b = Vec::new();
    b.extend_from_slice(&4_000.0f64.to_le_bytes());
    b.extend_from_slice(&1u32.to_le_bytes());
    for v in [1.0f64, f64::NEG_INFINITY, 3.0] {
        b.extend_from_slice(&v.to_le_bytes());
    }
    assert!(matches!(decode_geometry(&b), Err(CodecError::NonFinite)));
}

#[test]
fn geometry_missing_count_is_truncated() {
    let b = 4_000.0f64.to_le_bytes();
    assert!(matches!(decode_geometry(&b), Err(CodecError::Truncated)));
}

#[test]
fn opts_roundtrip_below_cap() {
    let mut b = Vec::new();
    for v in [300.0f64, 20.0, 2.0, 0.5] {
        b.extend_from_slice(&v.to_le_bytes());
    }
    b.extend_from_slice(&4u32.to_le_bytes());
    let o = decode_opts(&b).unwrap();
    assert_eq!(f64::from_bits(o.grid_extent_m), 300.0);
    assert_eq!(f64::from_bits(o.coarse_res_m), 20.0);
    assert_eq!(f64::from_bits(o.fine_res_m), 2.0);
    assert_eq!(f64::from_bits(o.min_peak_ratio), 0.5);
    assert_eq!(o.max_sources, 4);
}

#[test]
fn opts_non_finite_before_truncation_reports_non_finite() {
    let mut b = Vec::new();
    b.extend_from_slice(&f64::NAN.to_le_bytes());
    b.extend_from_slice(&[0, 0]);
    assert!(matches!(decode_opts(&b), Err(CodecError::NonFinite)));
    let mut b = Vec::new();
    for v in [1.0f64, 2.0, 3.0, 4.0] {
        b.extend_from_slice(&v.to_le_bytes());
    }
    assert!(matches!(decode_opts(&b), Err(CodecError::Truncated)));
}

#[test]
fn results_records_read_back_field_by_field() {
    let srcs = vec![
        SourceOut {
            ecef: [10.0f64.to_bits(), 20.0f64.to_bits(), 30.0f64.to_bits()],
            velocity: None,
            radial_velocity: None,
            covariance: Some([1.5f64.to_bits(); 9]),
            confidence: 0.5f64.to_bits(),
            dominant_hz: 600.0f64.to_bits(),
        },
        SourceOut {
            ecef: [1.0f64.to_bits(), 2.0f64.to_bits(), 3.0f64.to_bits()],
            velocity: Some([4.0f64.to_bits(), 5.0f64.to_bits(), 6.0f64.to_bits()]),
            radial_velocity: Some(7.0f64.to_bits()),
            covariance: None,
            confidence: 0.9f64.to_bits(),
            dominant_hz: 440.0f64.to_bits(),
        },
    ];
    let buf = encode_results(&srcs);
    let rec0: Vec<f64> = (0..21).map(|f| read_f64(&buf, 4 + 8 * f)).collect();
    let rec1: Vec<f64> = (0..21).map(|f| read_f64(&buf, 4 + 168 + 8 * f)).collect();
    let mut want0 = vec![10.0, 20.0, 30.0, 0.0, 0.0, 0.0, 0.0, 0.0, 0.0];
    want0.extend_from_slice(&[1.5; 9]);
    want0.extend_from_slice(&[1.0, 0.5, 600.0]);
    let mut want1 = vec![1.0, 2.0, 3.0, 4.0, 5.0, 6.0, 1.0, 7.0, 1.0];
    want1.extend_from_slice(&[0.0; 9]);
    want1.extend_from_slice(&[0.0, 0.9, 440.0]);
    assert_eq!(rec0, want0);
    assert_eq!(rec1, want1);
}

#[test]
fn no_results_encode_to_a_zero_header() {
    assert_eq!(encode_results(&[]), vec![0, 0, 0, 0]);
}
