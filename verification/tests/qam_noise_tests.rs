use modem_core::noise::{lcg_next, raw_noise, LCG_INCREMENT, LCG_MULTIPLIER};
use modem_core::qam::{qam_grid, qam_level, qam_side, QamPoint};

#[test]
fn test_qam16_constellation_size() {
    let side = qam_side(16).unwrap();
    assert_eq!(side, 4);
    let c = qam_grid(side);
    assert_eq!(c.len(), 16);
}

#[test]
fn test_qam4_constellation() {
    let side = qam_side(4).unwrap();
    let c = qam_grid(side);
    assert_eq!(c.len(), 4);
}

#[test]
fn test_qam_symmetry() {
    let c = qam_grid(qam_side(16).unwrap());
    let sum_re: i64 = c.iter().map(|p| p.in_phase).sum();
    let sum_im: i64 = c.iter().map(|p| p.quadrature).sum();
    assert_eq!(sum_re, 0, "Constellation should be centered: sum_re={}", sum_re);
    assert_eq!(sum_im, 0, "Constellation should be centered: sum_im={}", sum_im);
}

#[test]
fn qam_order_must_be_perfect_square() {
    assert_eq!(qam_side(8), None);
    assert_eq!(qam_side(15), None);
    assert_eq!(qam_side(17), None);
    assert_eq!(qam_side(64), Some(8));
    assert_eq!(qam_side(256), Some(16));
    assert_eq!(qam_side(1), Some(1));
    assert_eq!(qam_side(0), Some(0));
    assert_eq!(qam_side(4_294_836_225), Some(65535));
    assert_eq!(qam_side(u32::MAX), None);
}

#[test]
fn qam4_grid_points() {
    let c = qam_grid(2);
    assert_eq!(
        c,
        vec![
            QamPoint { symbol: 0, in_phase: -1, quadrature: -1 },
            QamPoint { symbol: 1, in_phase: 1, quadrature: -1 },
            QamPoint { symbol: 2, in_phase: -1, quadrature: 1 },
            QamPoint { symbol: 3, in_phase: 1, quadrature: 1 },
        ]
    );
}

#[test]
fn qam16_grid_layout_and_mirror() {
    let c = qam_grid(4);
    for (s, p) in c.iter().enumerate() {
        assert_eq!(p.symbol as usize, s);
        assert_eq!(p.in_phase, 2 * (s % 4) as i64 - 3);
        assert_eq!(p.quadrature, 2 * (s / 4) as i64 - 3);
        let opposite = c[15 - s];
        assert_eq!(opposite.in_phase, -p.in_phase);
        assert_eq!(opposite.quadrature, -p.quadrature);
    }
}

#[test]
fn qam_levels() {
    assert_eq!(qam_level(0, 8), -7);
    assert_eq!(qam_level(7, 8), 7);
    assert_eq!(qam_level(3, 8), -1);
    assert_eq!(qam_level(0, 1), 0);
}

#[test]
fn lcg_step_values() {
    assert_eq!(lcg_next(0), LCG_INCREMENT);
    assert_eq!(
        lcg_next(1),
        LCG_MULTIPLIER.wrapping_add(LCG_INCREMENT)
    );
    assert_eq!(
        lcg_next(u64::MAX),
        u64::MAX.wrapping_mul(LCG_MULTIPLIER).wrapping_add(LCG_INCREMENT)
    );
}

#[test]
fn raw_noise_follows_generator() {
    let seed = 42u64;
    let v = raw_noise(5, seed);
    assert_eq!(v.len(), 5);
    let mut state = seed;
    for &x in &v {
        state = state
            .wrapping_mul(6364136223846793005)
            .wrapping_add(1442695040888963407);
        assert_eq!(x as u64, state >> 33);
        assert!(x < 0x8000_0000);
    }
}

#[test]
fn raw_noise_first_value_from_zero_seed() {
    // The first state from seed 0 is the increment itself.
    assert_eq!(raw_noise(1, 0), vec![(1442695040888963407u64 >> 33) as u32]);
    assert!(raw_noise(0, 7).is_empty());
}

#[test]
fn raw_noise_longer_run_extends_shorter() {
    let short = raw_noise(4, 1234);
    let long = raw_noise(9, 1234);
    assert_eq!(&long[..4], &short[..]);
}

#[test]
fn raw_noise_continues_from_reached_state() {
    let seed = 99u64;
    let whole = raw_noise(5, seed);
    let state = lcg_next(lcg_next(seed));
    let rest = raw_noise(3, state);
    assert_eq!(&whole[2..], &rest[..]);
}
