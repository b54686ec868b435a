use perlin_terrain::perlin::{
    blend, random_height_map, random_octaves, smooth_noise, NoiseError, Octave, WhiteNoise,
};
use perlin_terrain::rng::Seed;

const NOISE_DENOM: f64 = 4503599627370496.0; // 2^52
const OCTAVE_DENOM: f64 = 18446744073709551616.0; // 2^64

#[test]
fn random_height_map_should_produce_the_right_dimensions() {
    let hm = random_height_map(10, 10).unwrap();

    assert!(hm.height() == 10);

    for i in 0..10 {
        assert!(hm.width() == 10);
        let _ = hm.at(i, 0);
    }
}

#[test]
fn from_seed_should_produce_the_right_size() {
    let o = WhiteNoise::with_dimensions(10, 10).unwrap();

    assert!(o.height() == 10);

    for i in 0..10 {
        assert!(o.width() == 10);
        let _ = o.at(i, 9);
    }
}

#[test]
fn from_seed_should_produce_random_numbers_for_each() {
    let o = WhiteNoise::with_dimensions(10, 1).unwrap();

    let mut all0 = true;

    for i in 0..10 {
        all0 = all0 && o.at(0, i) == 0;
    }

    assert!(!all0);
}

#[test]
fn from_seed_should_produce_random_numbers_between_0_and_1() {
    let o = WhiteNoise::with_dimensions(100, 100).unwrap();

    for i in 0..100 {
        for j in 0..100 {
            let v = o.at(i, j) as f64 / NOISE_DENOM;
            assert!(v <= 1.0);
            assert!(v >= 0.0);
        }
    }
}

#[test]
fn two_runs_with_the_fixed_seed_are_identical() {
    let a = WhiteNoise::with_dimensions(8, 5).unwrap();
    let b = WhiteNoise::with_dimensions(8, 5).unwrap();

    assert_eq!(a.width(), b.width());
    assert_eq!(a.height(), b.height());
    for r in 0..5 {
        for c in 0..8 {
            assert_eq!(a.at(r, c), b.at(r, c));
        }
    }
}

#[test]
fn two_runs_with_an_explicit_seed_are_identical() {
    let seed = Seed { w0: 1, w1: 2, w2: 3, w3: 4 };
    let a = WhiteNoise::with_seed(&seed, 6, 4).unwrap();
    let b = WhiteNoise::with_seed(&seed, 6, 4).unwrap();

    for r in 0..4 {
        for c in 0..6 {
            assert_eq!(a.at(r, c), b.at(r, c));
        }
    }
}

#[test]
fn dimensions_are_preserved_through_the_pipeline() {
    let noise = WhiteNoise::with_dimensions(3, 5).unwrap();
    assert_eq!(noise.width(), 3);
    assert_eq!(noise.height(), 5);

    let octave = smooth_noise(&noise, 3);
    assert_eq!(octave.width(), 3);
    assert_eq!(octave.height(), 5);

    let octaves = random_octaves(3, 5).unwrap();
    assert_eq!(octaves.len(), 7);
    for o in &octaves {
        assert_eq!(o.width(), 3);
        assert_eq!(o.height(), 5);
    }

    let hm = random_height_map(3, 5).unwrap();
    assert_eq!(hm.width(), 3);
    assert_eq!(hm.height(), 5);
    assert_eq!(hm.octave_count(), 7);
    let _ = hm.at(4, 2);
}

#[test]
fn white_noise_numerators_stay_below_their_denominator() {
    let o = WhiteNoise::with_dimensions(16, 9).unwrap();
    for r in 0..9 {
        for c in 0..16 {
            assert!(o.at(r, c) < 1u128 << 52);
        }
    }
}

#[test]
fn height_map_values_stay_inside_the_unit_interval() {
    let hm = random_height_map(9, 4).unwrap();
    let weight_total = (1u128 << hm.octave_count()) - 1;
    for r in 0..4 {
        for c in 0..9 {
            let num = hm.at(r, c);
            assert!(num <= weight_total * (u64::MAX as u128));
            let v = num as f64 / (weight_total as f64 * OCTAVE_DENOM);
            assert!(v >= 0.0);
            assert!(v <= 1.0);
        }
    }
}

#[test]
fn octave_zero_smoothing_is_the_identity() {
    let noise = WhiteNoise::with_dimensions(6, 6).unwrap();
    let octave = smooth_noise(&noise, 0);
    for r in 0..6 {
        for c in 0..6 {
            assert_eq!(octave.at(r, c), noise.at(r, c) * 4096);
        }
    }
}

#[test]
fn blending_uniform_octaves_returns_their_value() {
    let noise = WhiteNoise::with_dimensions(3, 3).unwrap();
    let value = (0.42f64 * OCTAVE_DENOM) as u128;
    let mut octaves: Vec<Octave> = Vec::new();
    for _ in 0..7 {
        octaves.push(Octave::uniform(3, 3, value));
    }
    let hm = blend(&noise, &octaves);
    assert_eq!(hm.octave_count(), 7);
    for r in 0..3 {
        for c in 0..3 {
            assert_eq!(hm.at(r, c), value * 127);
            let v = hm.at(r, c) as f64 / (127.0 * OCTAVE_DENOM);
            assert!((v - 0.42).abs() < 1e-9);
        }
    }
}

#[test]
fn full_period_smoothing_wraps_to_the_origin_cell() {
    let noise = WhiteNoise::with_dimensions(4, 4).unwrap();
    let octave = smooth_noise(&noise, 2);
    for r in 0..4 {
        for c in 0..4 {
            assert_eq!(octave.at(r, c), noise.at(0, 0) * 4096);
        }
    }
}

#[test]
fn zero_dimensions_are_rejected() {
    assert!(matches!(
        WhiteNoise::with_dimensions(0, 5),
        Err(NoiseError::InvalidDimension)
    ));
    assert!(matches!(
        WhiteNoise::with_dimensions(5, 0),
        Err(NoiseError::InvalidDimension)
    ));
    assert!(matches!(
        random_height_map(0, 5),
        Err(NoiseError::InvalidDimension)
    ));
    assert!(matches!(
        random_height_map(5, 0),
        Err(NoiseError::InvalidDimension)
    ));
    assert!(matches!(
        random_octaves(0, 3),
        Err(NoiseError::InvalidDimension)
    ));
    let seed = Seed { w0: 9, w1: 9, w2: 9, w3: 9 };
    assert!(matches!(
        WhiteNoise::with_seed(&seed, 0, 0),
        Err(NoiseError::InvalidDimension)
    ));
}
