use face_index::single::Single;

fn single(x: f32) -> Single {
    Single::from_bits(x.to_bits())
}

const SAMPLES: [f32; 17] = [
    0.0,
    -0.0,
    1.0,
    -1.0,
    0.6,
    0.4,
    -0.4,
    1e-9,
    1e-6,
    f32::EPSILON,
    f32::MAX,
    f32::MIN,
    f32::MIN_POSITIVE,
    1e-45,
    f32::INFINITY,
    f32::NEG_INFINITY,
    f32::NAN,
];

#[test]
fn comparisons_agree_with_the_machine() {
    for a in SAMPLES {
        for b in SAMPLES {
            assert_eq!(single(a).less_than(&single(b)), a < b, "{a} < {b}");
            assert_eq!(single(a).at_most(&single(b)), a <= b, "{a} <= {b}");
        }
    }
}

#[test]
fn total_order_agrees_with_the_machine() {
    let mut samples = SAMPLES.to_vec();
    samples.push(-f32::NAN);
    for &a in &samples {
        for &b in &samples {
            let ranks = single(a).total_order().cmp(&single(b).total_order());
            assert_eq!(ranks, a.total_cmp(&b), "{a} against {b}");
        }
    }
}

#[test]
fn classification_agrees_with_the_machine() {
    for a in SAMPLES {
        assert_eq!(single(a).is_nan(), a.is_nan());
        assert_eq!(single(a).is_finite(), a.is_finite());
        assert_eq!(single(a).abs(), single(a.abs()));
    }
}

#[test]
fn rounding_agrees_with_the_machine() {
    let mut samples = SAMPLES.to_vec();
    for x in [
        0.25, 0.49999997, 0.5, 0.75, 1.5, 2.5, 111.5, 111.49999, 254.5, 255.5, 639.5, 640.0,
        8388607.5, 8388608.0, 16777216.0, 2147483648.0, 4294967040.0, 4294967296.0, 1e20, -0.5,
        -0.25, -7.9,
    ] {
        samples.push(x);
    }
    for &x in &samples {
        assert_eq!(single(x).whole(), x.floor().max(0.0) as u32, "floor of {x}");
        assert_eq!(single(x).whole(), x.max(0.0) as u32, "cast of {x}");
        assert_eq!(single(x).whole(), x as u32, "plain cast of {x}");
        assert_eq!(single(x).rounded(), x.round() as u32, "round of {x}");
    }
    let mut bits: u32 = 0x3E00_0000;
    while bits < 0x5000_0000 {
        let x = f32::from_bits(bits);
        assert_eq!(single(x).whole(), x as u32);
        assert_eq!(single(x).rounded(), x.round() as u32);
        bits += 0x0001_2345;
    }
}

#[test]
fn lesser_and_greater_agree_with_the_machine() {
    for a in SAMPLES {
        for b in SAMPLES {
            let least = f32::from_bits(single(a).lesser(&single(b)).bits);
            let most = f32::from_bits(single(a).greater(&single(b)).bits);
            if a.is_nan() && b.is_nan() {
                assert!(least.is_nan() && most.is_nan());
            } else {
                assert_eq!(least, a.min(b));
                assert_eq!(most, a.max(b));
            }
        }
    }
}

#[test]
fn rounding_keeps_order() {
    assert!(single(2.4).rounded() <= single(2.5).rounded());
    assert_eq!(single(2.4).rounded(), 2);
    assert_eq!(single(2.5).rounded(), 3);
    assert_eq!(single(2.5).whole(), 2);
}
