use boids::geometry::Vect;
use boids::speed::{clamped, root};

fn norm_sq(v: Vect) -> i128 {
    (v.x as i128) * (v.x as i128) + (v.y as i128) * (v.y as i128)
}

#[test]
fn root_rounds_down() {
    assert_eq!(root(0), 0);
    assert_eq!(root(1), 1);
    assert_eq!(root(15), 3);
    assert_eq!(root(16), 4);
    assert_eq!(root(17), 4);
    assert_eq!(root(250_000_000_000), 500_000);
    assert_eq!(root(0x2000_0000_0000_0000), 1_518_500_249);
}

#[test]
fn clamped_gives_the_zero_vector_a_heading() {
    assert_eq!(clamped(Vect::new(0, 0), 25_000, 150_000), Vect::new(25_000, 0));
}

#[test]
fn clamped_keeps_a_speed_within_the_limits() {
    assert_eq!(clamped(Vect::new(30_000, 40_000), 25_000, 150_000), Vect::new(30_000, 40_000));
    assert_eq!(clamped(Vect::new(25_000, 0), 25_000, 150_000), Vect::new(25_000, 0));
    assert_eq!(clamped(Vect::new(0, -150_000), 25_000, 150_000), Vect::new(0, -150_000));
}

#[test]
fn clamped_scales_a_fast_vector_down() {
    assert_eq!(clamped(Vect::new(300_000, 400_000), 25_000, 150_000), Vect::new(90_000, 120_000));
    assert_eq!(clamped(Vect::new(-300_000, 400_000), 25_000, 150_000), Vect::new(-90_000, 120_000));
    assert_eq!(clamped(Vect::new(0, -150_001), 25_000, 150_000), Vect::new(0, -150_000));
    assert_eq!(clamped(Vect::new(150_000, 1), 25_000, 150_000), Vect::new(149_999, 1));
}

#[test]
fn clamped_scales_a_slow_vector_up() {
    assert_eq!(clamped(Vect::new(3, 4), 25_000, 150_000), Vect::new(15_000, 20_000));
    assert_eq!(clamped(Vect::new(-3, -4), 25_000, 150_000), Vect::new(-15_000, -20_000));
    assert_eq!(clamped(Vect::new(1, 1), 25_000, 150_000), Vect::new(17_679, 17_677));
    assert_eq!(clamped(Vect::new(0, 24_999), 25_000, 150_000), Vect::new(0, 25_000));
}

#[test]
fn clamped_speed_is_always_within_the_limits() {
    let lo: i64 = 25_000;
    let hi: i64 = 150_000;
    let samples: [i64; 11] =
        [0, 1, -1, 7, -17_677, 17_678, 24_999, -106_066, 106_067, 999_999, -1_073_741_824];
    for x in samples {
        for y in samples {
            let before = norm_sq(Vect::new(x, y));
            let n = norm_sq(clamped(Vect::new(x, y), lo, hi));
            let low = (lo as i128) * (lo as i128);
            let high = (hi as i128) * (hi as i128);
            assert!(low <= n, "{} {}", x, y);
            assert!(n <= high, "{} {}", x, y);
            if before != 0 && before < low {
                assert!(n <= low + 2 * lo as i128, "{} {}", x, y);
            }
            if before > high {
                assert!(n >= high - 2 * hi as i128, "{} {}", x, y);
            }
        }
    }
}

#[test]
fn clamped_holds_with_the_tightest_limits() {
    let samples: [i64; 7] = [0, 1, -1, 2, 5, -6, 1000];
    for x in samples {
        for y in samples {
            let n = norm_sq(clamped(Vect::new(x, y), 1, 3));
            assert!(1 <= n && n <= 9, "{} {}", x, y);
        }
    }
}

#[test]
fn clamped_accepts_limits_close_together() {
    assert_eq!(clamped(Vect::new(3, 4), 100_000, 100_002), Vect::new(60_000, 80_000));
    assert_eq!(clamped(Vect::new(-300_000, 0), 100_000, 150_000), Vect::new(-150_000, 0));
    let n = norm_sq(clamped(Vect::new(70_000, 70_000), 100_000, 100_002));
    assert!(100_000i128 * 100_000 <= n && n <= 100_002i128 * 100_002);
    let m = norm_sq(clamped(Vect::new(123_456, -654_321), 100_000, 100_002));
    assert!(100_000i128 * 100_000 <= m && m <= 100_002i128 * 100_002);
}

#[test]
fn root_up_rounds_up() {
    assert_eq!(boids::speed::root_up(0), 0);
    assert_eq!(boids::speed::root_up(1), 1);
    assert_eq!(boids::speed::root_up(15), 4);
    assert_eq!(boids::speed::root_up(16), 4);
    assert_eq!(boids::speed::root_up(17), 5);
}
