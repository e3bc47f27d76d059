use boids::geometry::Vect;
use boids::grid::Cell;
use boids::steer::{advance, gather, quot, saturate, steer, Agent, Params, Ratio, Tally};

fn agent(x: i64, y: i64, vx: i64, vy: i64) -> Agent {
    Agent { pos: Vect::new(x, y), vel: Vect::new(vx, vy), add: Cell { col: 0, row: 0 } }
}

#[test]
fn standard_params_are_usable() {
    let p = Params::standard();
    assert!(p.check());
    assert_eq!(p.sight, 20_000);
    assert_eq!((p.min_speed, p.max_speed), (25_000, 150_000));
    assert_eq!(p.repel, Ratio { num: 15, den: 2 });
    assert_eq!(p.align, Ratio { num: 9, den: 200 });
    assert_eq!(p.cohesion, Ratio { num: 3, den: 100 });
}

#[test]
fn check_rejects_unusable_params() {
    let ok = Params::standard();
    assert!(!Params { sight: -1, ..ok }.check());
    assert!(!Params { min_speed: 0, ..ok }.check());
    assert!(!Params { min_speed: 100_000, max_speed: 100_001, ..ok }.check());
    assert!(Params { min_speed: 100_000, max_speed: 100_002, ..ok }.check());
    assert!(Params { min_speed: 100_000, max_speed: 150_000, ..ok }.check());
    assert!(!Params { max_speed: 1_073_741_825, ..ok }.check());
    assert!(!Params { repel: Ratio { num: 1, den: 0 }, ..ok }.check());
    assert!(!Params { align: Ratio { num: -1, den: 1 }, ..ok }.check());
    assert!(!Params { cohesion: Ratio { num: 1_000_001, den: 1 }, ..ok }.check());
}

#[test]
fn quot_rounds_toward_zero() {
    assert_eq!(quot(7, 2), 3);
    assert_eq!(quot(-7, 2), -3);
    assert_eq!(quot(0, 5), 0);
    assert_eq!(quot(-1, 1000), 0);
}

#[test]
fn saturate_holds_to_the_coordinate_range() {
    assert_eq!(saturate(5), 5);
    assert_eq!(saturate(1_073_741_825), 1_073_741_824);
    assert_eq!(saturate(-1_073_741_825), -1_073_741_824);
    assert_eq!(saturate(i128::MAX), 1_073_741_824);
}

#[test]
fn gather_sees_near_neighbour_only() {
    let agents = vec![agent(0, 0, 0, 0), agent(5_000, 0, 0, 40_000), agent(100_000, 100_000, 9, 9)];
    let t = gather(&agents, 0, &vec![0, 1, 2], 20_000);
    assert_eq!(t.count, 1);
    assert_eq!((t.sep_x, t.sep_y), (-200, 0));
    assert_eq!((t.pos_x, t.pos_y), (5_000, 0));
    assert_eq!((t.vel_x, t.vel_y), (0, 40_000));
}

#[test]
fn gather_counts_the_border_of_sight() {
    let agents = vec![agent(0, 0, 0, 0), agent(12_000, 16_000, 1, 2), agent(12_000, 16_001, 3, 4)];
    let t = gather(&agents, 0, &vec![1, 2], 20_000);
    assert_eq!(t.count, 1);
    assert_eq!((t.vel_x, t.vel_y), (1, 2));
    assert_eq!((t.sep_x, t.sep_y), (-30, -40));
}

#[test]
fn gather_passes_over_self_and_unknown_identifiers() {
    let agents = vec![agent(0, 0, 1, 1), agent(1_000, 0, 2, 2)];
    let t = gather(&agents, 0, &vec![0, 0, 5, 99], 20_000);
    assert_eq!(t.count, 0);
    assert_eq!((t.sep_x, t.sep_y, t.pos_x, t.pos_y, t.vel_x, t.vel_y), (0, 0, 0, 0, 0, 0));
}

#[test]
fn gather_neighbour_at_same_point_does_not_push() {
    let agents = vec![agent(7, 7, 1, 1), agent(7, 7, 2, 3)];
    let t = gather(&agents, 0, &vec![1], 20_000);
    assert_eq!(t.count, 1);
    assert_eq!((t.sep_x, t.sep_y), (0, 0));
    assert_eq!((t.vel_x, t.vel_y), (2, 3));
}

#[test]
fn steer_without_neighbours_keeps_velocity() {
    let own = agent(500_000, 300_000, 30_000, -40_000);
    let none = Tally { sep_x: 0, sep_y: 0, pos_x: 0, pos_y: 0, vel_x: 0, vel_y: 0, count: 0 };
    assert_eq!(steer(&own, &none, &Params::standard()), Vect::new(30_000, -40_000));
}

#[test]
fn steer_adds_the_three_weighted_terms() {
    let agents = vec![agent(0, 0, 30_000, 0), agent(5_000, 0, 0, 40_000)];
    let t = gather(&agents, 0, &vec![1], 20_000);
    let v = steer(&agents[0], &t, &Params::standard());
    assert_eq!(v, Vect::new(28_650, 1_800));
}

#[test]
fn steer_averages_over_the_neighbours() {
    let own = agent(1_000, 1_000, 0, 0);
    let t = Tally { sep_x: 0, sep_y: 0, pos_x: 9_000, pos_y: -3_000, vel_x: 2_001, vel_y: -2_001, count: 3 };
    let v = steer(&own, &t, &Params::standard());
    assert_eq!(v, Vect::new(30 + 60, -30 - 60));
}

#[test]
fn advance_moves_by_velocity_times_time() {
    assert_eq!(
        advance(Vect::new(100_000, 100_000), Vect::new(30_000, 40_000), 1000),
        Vect::new(130_000, 140_000)
    );
    assert_eq!(advance(Vect::new(0, 0), Vect::new(30_000, -40_001), 500), Vect::new(15_000, -20_000));
    assert_eq!(advance(Vect::new(5, 6), Vect::new(30_000, -40_001), 0), Vect::new(5, 6));
}

#[test]
fn advance_may_leave_the_coordinate_range() {
    assert_eq!(
        advance(Vect::new(1_073_741_000, 0), Vect::new(150_000, -1), u32::MAX),
        Vect::new(645_318_835_250, -4_294_967)
    );
}

#[test]
fn hold_brings_back_into_the_coordinate_range() {
    assert_eq!(
        boids::steer::hold(Vect::new(645_318_835_250, -4_294_967)),
        Vect::new(1_073_741_824, -4_294_967)
    );
    assert_eq!(boids::steer::hold(Vect::new(i64::MIN, 7)), Vect::new(-1_073_741_824, 7));
}

#[test]
fn neighbours_keep_the_order_of_the_candidates() {
    let agents = vec![agent(0, 0, 0, 0), agent(5_000, 0, 0, 0), agent(0, 20_000, 0, 0), agent(0, 20_001, 0, 0)];
    assert_eq!(boids::steer::neighbours(&agents, 0, &vec![3, 2, 0, 1, 7], 20_000), vec![2, 1]);
    assert_eq!(boids::steer::neighbours(&agents, 3, &vec![0, 1, 2, 3], 1), vec![2]);
    assert_eq!(boids::steer::neighbours(&agents, 1, &vec![], 20_000), Vec::<usize>::new());
}
