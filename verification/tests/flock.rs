use boids::flock::Engine;
use boids::geometry::{Rect, Vect};
use boids::grid::Cell;
use boids::steer::{gather, Agent, Params};

fn world() -> Rect {
    Rect { min: Vect::new(0, 0), max: Vect::new(1_000_000, 600_000) }
}

fn engine(size: i64) -> Engine {
    let cols = (1_000_000 / size) as usize + 1;
    let rows = (600_000 / size) as usize + 1;
    Engine::new(world(), size, cols, rows, Params::standard()).unwrap()
}

fn filed_right(e: &Engine) -> bool {
    e.grid.count() == e.agents.len()
        && e.agents.iter().enumerate().all(|(i, a)| a.add == e.grid.cell_of(a.pos) && e.grid.contains(a.add, i))
}

#[test]
fn engine_rejects_unusable_parameters() {
    let p = Params::standard();
    assert!(Engine::new(world(), 20_000, 50, 30, p).is_some());
    assert!(Engine::new(world(), 0, 50, 30, p).is_none());
    assert!(Engine::new(world(), 20_000, 0, 30, p).is_none());
    assert!(Engine::new(Rect { min: Vect::new(1, 0), max: Vect::new(0, 5) }, 20_000, 50, 30, p).is_none());
    assert!(Engine::new(Rect { min: Vect::new(0, 0), max: Vect::new(i64::MAX, 5) }, 20_000, 50, 30, p).is_none());
    assert!(Engine::new(world(), 20_000, 50, 30, Params { min_speed: 0, ..p }).is_none());
}

#[test]
fn spawn_numbers_agents_and_files_them() {
    let mut e = engine(20_000);
    assert_eq!(e.spawn(Vect::new(0, 0), Vect::new(1, 1)), Some(0));
    assert_eq!(e.spawn(Vect::new(45_000, 21_000), Vect::new(1, 1)), Some(1));
    assert_eq!(e.agents[1].add, Cell { col: 2, row: 1 });
    assert!(filed_right(&e));
}

#[test]
fn spawn_rejects_what_is_out_of_range() {
    let mut e = engine(20_000);
    assert_eq!(e.spawn(Vect::new(1_073_741_825, 0), Vect::new(1, 1)), None);
    assert_eq!(e.spawn(Vect::new(0, 0), Vect::new(0, -1_073_741_825)), None);
    assert_eq!(e.agents.len(), 0);
    assert_eq!(e.grid.count(), 0);
}

#[test]
fn three_agents_near_one_sees_two_but_not_three() {
    let mut e = engine(20_000);
    e.spawn(Vect::new(0, 0), Vect::new(30_000, 0));
    e.spawn(Vect::new(5_000, 0), Vect::new(30_000, 0));
    e.spawn(Vect::new(100_000, 100_000), Vect::new(30_000, 0));
    let mut cands = vec![];
    e.grid.query(Rect::cube(e.agents[0].pos, e.params.sight), &mut cands);
    assert!(cands.contains(&1));
    assert!(!cands.contains(&2));
    let t = gather(&e.agents, 0, &cands, e.params.sight);
    assert_eq!(t.count, 1);
    assert!(t.sep_x < 0);
    assert_eq!(t.sep_y, 0);
}

#[test]
fn lone_agent_moves_by_its_clamped_velocity() {
    let mut e = engine(20_000);
    e.spawn(Vect::new(100_000, 100_000), Vect::new(30_000, 40_000));
    let next = e.step(0, 1000);
    assert_eq!(next.vel, Vect::new(30_000, 40_000));
    assert_eq!(next.pos, Vect::new(130_000, 140_000));
    assert_eq!(e.agents[0], next);

    let mut slow = engine(20_000);
    slow.spawn(Vect::new(100_000, 100_000), Vect::new(3, 4));
    slow.update(1000);
    assert_eq!(slow.agents[0].vel, Vect::new(15_000, 20_000));
    assert_eq!(slow.agents[0].pos, Vect::new(115_000, 120_000));
    assert_eq!(slow.agents[0].add, Cell { col: 5, row: 6 });
}

#[test]
fn step_steers_by_the_neighbour() {
    let mut e = engine(20_000);
    e.spawn(Vect::new(100_000, 100_000), Vect::new(30_000, 0));
    e.spawn(Vect::new(105_000, 100_000), Vect::new(0, 40_000));
    let next = e.step(0, 1000);
    assert_eq!(next.vel, Vect::new(28_650, 1_800));
    assert_eq!(next.pos, Vect::new(128_650, 101_800));
    assert_eq!(e.agents[1], Agent { pos: Vect::new(105_000, 100_000), vel: Vect::new(0, 40_000), add: Cell { col: 5, row: 5 } });
}

#[test]
fn agent_leaving_on_the_right_comes_back_on_the_left() {
    let mut e = engine(20_000);
    e.spawn(Vect::new(990_000, 300_000), Vect::new(100_000, 0));
    e.update(1000);
    assert_eq!(e.agents[0].pos, Vect::new(0, 300_000));
    assert_eq!(e.agents[0].add, Cell { col: 0, row: 15 });
    assert!(filed_right(&e));
}

#[test]
fn frame_of_no_time_moves_nobody() {
    let mut e = engine(20_000);
    e.spawn(Vect::new(10_000, 10_000), Vect::new(30_000, 40_000));
    e.spawn(Vect::new(500_000, 10_000), Vect::new(-30_000, 40_000));
    e.update(0);
    assert_eq!(e.agents[0].pos, Vect::new(10_000, 10_000));
    assert_eq!(e.agents[1].pos, Vect::new(500_000, 10_000));
}

#[test]
fn index_count_equals_agent_count_after_many_frames() {
    let sizes: [i64; 3] = [5_000, 20_000, 300_000];
    for size in sizes {
        let mut e = engine(size);
        let mut seed: i64 = 12345;
        for _ in 0..60 {
            seed = (seed * 1_103_515_245 + 12_345) % 2_147_483_648;
            let x = seed % 1_000_000;
            seed = (seed * 1_103_515_245 + 12_345) % 2_147_483_648;
            let y = seed % 600_000;
            seed = (seed * 1_103_515_245 + 12_345) % 2_147_483_648;
            let vx = seed % 200_000 - 100_000;
            seed = (seed * 1_103_515_245 + 12_345) % 2_147_483_648;
            let vy = seed % 200_000 - 100_000;
            assert!(e.spawn(Vect::new(x, y), Vect::new(vx, vy)).is_some());
        }
        for _ in 0..40 {
            e.update(16);
            assert_eq!(e.agents.len(), 60);
            assert!(filed_right(&e));
            for a in e.agents.iter() {
                let n = (a.vel.x as i128) * (a.vel.x as i128) + (a.vel.y as i128) * (a.vel.y as i128);
                assert!(25_000 * 25_000 <= n && n <= 150_000 * 150_000);
            }
        }
    }
}

#[test]
fn neighbours_are_filtered_by_exact_distance() {
    let mut e = engine(50_000);
    e.spawn(Vect::new(0, 0), Vect::new(30_000, 0));
    e.spawn(Vect::new(5_000, 0), Vect::new(30_000, 0));
    e.spawn(Vect::new(100_000, 100_000), Vect::new(30_000, 0));
    e.spawn(Vect::new(15_000, 15_000), Vect::new(30_000, 0));
    e.spawn(Vect::new(12_000, 16_000), Vect::new(30_000, 0));
    let mut cands = vec![];
    e.grid.query(Rect::cube(e.agents[0].pos, e.params.sight), &mut cands);
    assert_eq!(cands, vec![0, 1, 3, 4]);
    assert_eq!(e.neighbours(0), vec![1, 4]);
    assert_eq!(e.neighbours(2), Vec::<usize>::new());
    assert_eq!(e.neighbours(3), vec![1, 4]);
}

#[test]
fn update_advances_agents_in_order() {
    let mut whole = engine(20_000);
    let mut parts = engine(20_000);
    let starts = [(100_000, 100_000, 30_000, 0), (105_000, 100_000, 0, 40_000), (101_000, 109_000, -40_000, -30_000)];
    for (x, y, vx, vy) in starts {
        whole.spawn(Vect::new(x, y), Vect::new(vx, vy));
        parts.spawn(Vect::new(x, y), Vect::new(vx, vy));
    }
    whole.update(100);
    let first = parts.step(0, 100);
    assert_eq!(first.vel, Vect::new(27_600, -457));
    assert_eq!(first.pos, Vect::new(102_760, 99_955));
    parts.step(1, 100);
    parts.step(2, 100);
    assert_eq!(whole.agents, parts.agents);
    assert_eq!(whole.grid.cells, parts.grid.cells);
}

#[test]
fn engine_accepts_speed_limits_close_together() {
    let p = Params { min_speed: 100_000, max_speed: 150_000, ..Params::standard() };
    let mut e = Engine::new(world(), 20_000, 51, 31, p).unwrap();
    e.spawn(Vect::new(100_000, 100_000), Vect::new(300_000, 0));
    e.spawn(Vect::new(500_000, 100_000), Vect::new(0, -3));
    e.update(1000);
    assert_eq!(e.agents[0].vel, Vect::new(150_000, 0));
    assert_eq!(e.agents[0].pos, Vect::new(250_000, 100_000));
    assert_eq!(e.agents[1].vel, Vect::new(0, -100_000));
    assert_eq!(e.agents[1].pos, Vect::new(500_000, 0));
    assert!(Engine::new(world(), 20_000, 51, 31, Params { min_speed: 100_000, max_speed: 100_001, ..p }).is_none());
}

#[test]
fn agent_wraps_where_the_edge_is_the_coordinate_limit() {
    let far = Rect { min: Vect::new(0, 0), max: Vect::new(1_073_741_824, 600_000) };
    let mut e = Engine::new(far, 100_000_000, 11, 1, Params::standard()).unwrap();
    e.spawn(Vect::new(1_073_741_000, 300_000), Vect::new(100_000, 0));
    e.update(1000);
    assert_eq!(e.agents[0].pos, Vect::new(0, 300_000));
    assert_eq!(e.agents[0].add, Cell { col: 0, row: 0 });
    assert!(filed_right(&e));
}

#[test]
fn agent_far_beyond_a_corner_is_held_to_the_range() {
    let mut e = engine(20_000);
    e.spawn(Vect::new(990_000, 300_000), Vect::new(90_000, 120_000));
    e.update(u32::MAX);
    assert_eq!(e.agents[0].pos, Vect::new(0, 1_073_741_824));
    e.update(0);
    assert_eq!(e.agents[0].pos, Vect::new(0, 0));
    assert!(filed_right(&e));
}
