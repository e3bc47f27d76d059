//! The steering rule of one agent: what it gathers from the agents it sees,
//! and how that turns into a new velocity and position.

use crate::geometry::{dist_sq, distance_squared, Vect, COORD_LIMIT};
use crate::grid::Cell;
use vstd::arithmetic::div_mod::{
    lemma_div_is_ordered, lemma_div_multiples_vanish, lemma_div_nonincreasing,
    lemma_div_pos_is_pos,
};
use vstd::prelude::*;

verus! {

/// Ticks per distance unit, squared.
pub const UNIT_SQ: i128 = 1_000_000;

/// Largest numerator or denominator of a weight.
pub const WEIGHT_LIMIT: i64 = 1_000_000;

/// Largest magnitude of a gathered sum.
pub const SUM_LIMIT: i128 = 0x10_0000_0000_0000_0000_0000_0000;

/// One simulated agent: where it is, how it moves, and the cell that files it.
#[derive(Clone, Copy, Debug, PartialEq, Eq, Structural)]
pub struct Agent {
    pub pos: Vect,
    pub vel: Vect,
    pub add: Cell,
}

/// A non-negative weight, as a fraction.
#[derive(Clone, Copy, Debug, PartialEq, Eq, Structural)]
pub struct Ratio {
    pub num: i64,
    pub den: i64,
}

impl Ratio {
    pub open spec fn valid(self) -> bool {
        0 <= self.num <= WEIGHT_LIMIT && 0 < self.den <= WEIGHT_LIMIT
    }
}

/// The tunable numbers of the steering rule.
#[derive(Clone, Copy, Debug, PartialEq, Eq, Structural)]
pub struct Params {
    /// How far an agent sees, in ticks.
    pub sight: i64,
    /// Slowest and fastest speed, in ticks per second.
    pub min_speed: i64,
    pub max_speed: i64,
    pub repel: Ratio,
    pub align: Ratio,
    pub cohesion: Ratio,
}

impl Params {
    /// The speed limits are two ticks apart at least, which is the room that
    /// rounding to whole ticks needs.
    pub open spec fn valid(self) -> bool {
        &&& 0 <= self.sight <= COORD_LIMIT
        &&& 0 < self.min_speed
        &&& self.min_speed + 2 <= self.max_speed <= COORD_LIMIT
        &&& self.repel.valid()
        &&& self.align.valid()
        &&& self.cohesion.valid()
    }

    /// Sight 20 units, speeds 25 to 150 units per second, weights 7.5, 0.045
    /// and 0.03.
    pub fn standard() -> (p: Params)
        ensures
            p.valid(),
            p == (Params {
                sight: 20_000,
                min_speed: 25_000,
                max_speed: 150_000,
                repel: Ratio { num: 15, den: 2 },
                align: Ratio { num: 9, den: 200 },
                cohesion: Ratio { num: 3, den: 100 },
            }),
    {
        Params {
            sight: 20_000,
            min_speed: 25_000,
            max_speed: 150_000,
            repel: Ratio { num: 15, den: 2 },
            align: Ratio { num: 9, den: 200 },
            cohesion: Ratio { num: 3, den: 100 },
        }
    }

    /// Whether the numbers can be used.
    pub fn check(&self) -> (ok: bool)
        ensures
            ok == self.valid(),
    {
        0 <= self.sight && self.sight <= COORD_LIMIT && 0 < self.min_speed && self.min_speed
            < COORD_LIMIT && self.min_speed + 2 <= self.max_speed && self.max_speed
            <= COORD_LIMIT && 0 <= self.repel.num && self.repel.num <= WEIGHT_LIMIT && 0
            < self.repel.den && self.repel.den <= WEIGHT_LIMIT && 0 <= self.align.num
            && self.align.num <= WEIGHT_LIMIT && 0 < self.align.den && self.align.den
            <= WEIGHT_LIMIT && 0 <= self.cohesion.num && self.cohesion.num <= WEIGHT_LIMIT && 0
            < self.cohesion.den && self.cohesion.den <= WEIGHT_LIMIT
    }
}

/// Division that rounds toward zero, for a positive divisor.
pub open spec fn div_trunc(a: int, b: int) -> int {
    if a >= 0 {
        a / b
    } else {
        -((-a) / b)
    }
}

/// Division that rounds away from zero, for a positive divisor.
pub open spec fn div_away(a: int, b: int) -> int {
    if a >= 0 {
        (a + b - 1) / b
    } else {
        -((-a + b - 1) / b)
    }
}

/// `v` held to a coordinate's range.
pub open spec fn sat(v: int) -> int {
    if v > COORD_LIMIT {
        COORD_LIMIT as int
    } else if v < -COORD_LIMIT {
        -COORD_LIMIT
    } else {
        v
    }
}

pub fn quot(a: i128, b: i128) -> (q: i128)
    requires
        b > 0,
        a > i128::MIN,
    ensures
        q == div_trunc(a as int, b as int),
        a >= 0 ==> 0 <= q <= a,
        a <= 0 ==> a <= q <= 0,
{
    if a >= 0 {
        proof {
            lemma_div_pos_is_pos(a as int, b as int);
            lemma_div_nonincreasing(a as int, b as int);
        }
        a / b
    } else {
        let n: i128 = -a;
        proof {
            lemma_div_pos_is_pos(n as int, b as int);
            lemma_div_nonincreasing(n as int, b as int);
        }
        -(n / b)
    }
}

pub fn saturate(v: i128) -> (s: i64)
    ensures
        s == sat(v as int),
        -COORD_LIMIT <= s <= COORD_LIMIT,
{
    if v > COORD_LIMIT as i128 {
        COORD_LIMIT
    } else if v < -(COORD_LIMIT as i128) {
        -COORD_LIMIT
    } else {
        v as i64
    }
}

/// What an agent has gathered from the agents it sees.
pub struct Sums {
    /// The push away from them, each weighted by the inverse square of its distance.
    pub sep_x: int,
    pub sep_y: int,
    /// The sum of their positions.
    pub pos_x: int,
    pub pos_y: int,
    /// The sum of their velocities.
    pub vel_x: int,
    pub vel_y: int,
    /// How many they are.
    pub count: int,
}

/// The running sums of a gathering.
#[derive(Clone, Copy, Debug)]
pub struct Tally {
    pub sep_x: i128,
    pub sep_y: i128,
    pub pos_x: i128,
    pub pos_y: i128,
    pub vel_x: i128,
    pub vel_y: i128,
    pub count: usize,
}

impl View for Tally {
    type V = Sums;

    open spec fn view(&self) -> Sums {
        Sums {
            sep_x: self.sep_x as int,
            sep_y: self.sep_y as int,
            pos_x: self.pos_x as int,
            pos_y: self.pos_y as int,
            vel_x: self.vel_x as int,
            vel_y: self.vel_y as int,
            count: self.count as int,
        }
    }
}

pub open spec fn no_sums() -> Sums {
    Sums { sep_x: 0, sep_y: 0, pos_x: 0, pos_y: 0, vel_x: 0, vel_y: 0, count: 0 }
}

/// Agent `me` sees the candidate `c`: another agent, no farther than `sight`.
pub open spec fn sees(agents: Seq<Agent>, me: int, c: usize, sight: int) -> bool {
    &&& c < agents.len()
    &&& c != me
    &&& dist_sq(agents[c as int].pos, agents[me].pos) <= sight * sight
}

/// One coordinate of the push that a neighbour at squared distance `d`
/// exerts: the offset from it, over `d`, in ticks. A neighbour at the
/// same point pushes nowhere.
pub open spec fn push_away(offset: int, d: int) -> int {
    if d == 0 {
        0
    } else {
        div_trunc(offset * UNIT_SQ, d)
    }
}

/// The sums with one more neighbour counted.
pub open spec fn tallied(s: Sums, own: Agent, other: Agent) -> Sums {
    let d = dist_sq(other.pos, own.pos);
    Sums {
        sep_x: s.sep_x + push_away(own.pos.x - other.pos.x, d),
        sep_y: s.sep_y + push_away(own.pos.y - other.pos.y, d),
        pos_x: s.pos_x + other.pos.x,
        pos_y: s.pos_y + other.pos.y,
        vel_x: s.vel_x + other.vel.x,
        vel_y: s.vel_y + other.vel.y,
        count: s.count + 1,
    }
}

/// What agent `me` gathers from the first `k` candidates.
pub open spec fn gathered(agents: Seq<Agent>, me: int, cands: Seq<usize>, sight: int, k: int) -> Sums
    decreases k,
{
    if k <= 0 {
        no_sums()
    } else {
        let before = gathered(agents, me, cands, sight, k - 1);
        if sees(agents, me, cands[k - 1], sight) {
            tallied(before, agents[me], agents[cands[k - 1] as int])
        } else {
            before
        }
    }
}

/// Every agent's position and velocity are within the coordinate range.
pub open spec fn all_bounded(agents: Seq<Agent>) -> bool {
    forall|i: int| 0 <= i < agents.len() ==> (#[trigger] agents[i]).pos.bounded() && agents[i].vel.bounded()
}

proof fn lemma_push_bound(offset: int, d: int)
    requires
        d > 0,
        offset * offset <= d,
    ensures
        -UNIT_SQ <= push_away(offset, d) <= UNIT_SQ,
{
    let a = if offset >= 0 { offset } else { -offset };
    assert(a <= d && offset * UNIT_SQ == (if offset >= 0 { a * UNIT_SQ } else { -(a * UNIT_SQ) })
        && 0 <= a * UNIT_SQ <= d * UNIT_SQ) by (nonlinear_arith)
        requires
            a >= 0,
            a == offset || a == -offset,
            offset * offset <= d,
            offset >= 0 ==> a == offset,
            offset < 0 ==> a == -offset,
    ;
    lemma_div_is_ordered(a * UNIT_SQ, d * UNIT_SQ, d);
    lemma_div_multiples_vanish(UNIT_SQ as int, d);
    lemma_div_pos_is_pos(a * UNIT_SQ, d);
}

fn push_of(offset: i128, d: i128) -> (p: i128)
    requires
        0 <= d <= 0x8000_0000_0000_0000,
        offset * offset <= d,
        -0x8000_0000 <= offset <= 0x8000_0000,
    ensures
        p == push_away(offset as int, d as int),
        -UNIT_SQ <= p <= UNIT_SQ,
{
    if d == 0 {
        0
    } else {
        proof {
            lemma_push_bound(offset as int, d as int);
        }
        quot(offset * UNIT_SQ, d)
    }
}

/// Gathers what agent `me` sees among the candidates: separation, and the
/// sums of positions and velocities. Candidates that are out of range, the
/// agent itself, or farther than `sight` are passed over.
pub fn gather(agents: &Vec<Agent>, me: usize, cands: &Vec<usize>, sight: i64) -> (t: Tally)
    requires
        me < agents.len(),
        all_bounded(agents@),
        0 <= sight <= COORD_LIMIT,
    ensures
        t@ == gathered(agents@, me as int, cands@, sight as int, cands@.len() as int),
        0 <= t.count <= cands@.len(),
        -SUM_LIMIT <= t.sep_x <= SUM_LIMIT,
        -SUM_LIMIT <= t.sep_y <= SUM_LIMIT,
        -SUM_LIMIT <= t.pos_x <= SUM_LIMIT,
        -SUM_LIMIT <= t.pos_y <= SUM_LIMIT,
        -SUM_LIMIT <= t.vel_x <= SUM_LIMIT,
        -SUM_LIMIT <= t.vel_y <= SUM_LIMIT,
{
    let own = agents[me];
    assert(0 <= sight * sight <= 0x4000_0000 * 0x4000_0000) by (nonlinear_arith)
        requires
            0 <= sight <= 0x4000_0000,
    ;
    let reach: i128 = (sight as i128) * (sight as i128);
    let n = cands.len();
    let mut t = Tally { sep_x: 0, sep_y: 0, pos_x: 0, pos_y: 0, vel_x: 0, vel_y: 0, count: 0 };
    let mut k: usize = 0;
    while k < n
        invariant
            k <= n,
            n == cands@.len(),
            me < agents.len(),
            own == agents@[me as int],
            all_bounded(agents@),
            reach == sight * sight,
            t@ == gathered(agents@, me as int, cands@, sight as int, k as int),
            t.count <= k,
            -k * 0x8000_0000 <= t.sep_x <= k * 0x8000_0000,
            -k * 0x8000_0000 <= t.sep_y <= k * 0x8000_0000,
            -k * 0x8000_0000 <= t.pos_x <= k * 0x8000_0000,
            -k * 0x8000_0000 <= t.pos_y <= k * 0x8000_0000,
            -k * 0x8000_0000 <= t.vel_x <= k * 0x8000_0000,
            -k * 0x8000_0000 <= t.vel_y <= k * 0x8000_0000,
        decreases n - k,
    {
        let c = cands[k];
        if c < agents.len() && c != me {
            let other = agents[c];
            let d = distance_squared(other.pos, own.pos);
            if d <= reach {
                let dx: i128 = own.pos.x as i128 - other.pos.x as i128;
                let dy: i128 = own.pos.y as i128 - other.pos.y as i128;
                assert(dx * dx <= d && dy * dy <= d) by (nonlinear_arith)
                    requires
                        d == (other.pos.x - own.pos.x) * (other.pos.x - own.pos.x) + (other.pos.y
                            - own.pos.y) * (other.pos.y - own.pos.y),
                        dx == own.pos.x - other.pos.x,
                        dy == own.pos.y - other.pos.y,
                ;
                t = Tally {
                    sep_x: t.sep_x + push_of(dx, d),
                    sep_y: t.sep_y + push_of(dy, d),
                    pos_x: t.pos_x + other.pos.x as i128,
                    pos_y: t.pos_y + other.pos.y as i128,
                    vel_x: t.vel_x + other.vel.x as i128,
                    vel_y: t.vel_y + other.vel.y as i128,
                    count: t.count + 1,
                };
            }
        }
        k = k + 1;
    }
    t
}

/// The mean of `count` values that add up to `sum`; zero where there are none.
pub open spec fn mean(sum: int, count: int) -> int {
    if count == 0 {
        0
    } else {
        div_trunc(sum, count)
    }
}

/// The pull toward the mean position of the neighbours; zero where there are none.
pub open spec fn pull(sum: int, count: int, own: int) -> int {
    if count == 0 {
        0
    } else {
        mean(sum, count) - own
    }
}

pub open spec fn weighted(v: int, r: Ratio) -> int {
    div_trunc(v * r.num, r.den as int)
}

/// One coordinate of the velocity after steering, held to the coordinate range.
pub open spec fn steered_axis(
    vel: int,
    pos: int,
    sep: int,
    vel_sum: int,
    pos_sum: int,
    count: int,
    p: Params,
) -> int {
    sat(
        vel + weighted(sep, p.repel) + weighted(mean(vel_sum, count), p.align) + weighted(
            pull(pos_sum, count, pos),
            p.cohesion,
        ),
    )
}

/// The velocity of `own` after steering by what it gathered, before its
/// speed is held to the limits.
pub open spec fn steered(own: Agent, s: Sums, p: Params) -> Vect {
    Vect {
        x: steered_axis(own.vel.x as int, own.pos.x as int, s.sep_x, s.vel_x, s.pos_x, s.count, p) as i64,
        y: steered_axis(own.vel.y as int, own.pos.y as int, s.sep_y, s.vel_y, s.pos_y, s.count, p) as i64,
    }
}

/// The position reached from `pos` at velocity `vel` after `dt` milliseconds.
/// It may lie outside the coordinate range.
pub open spec fn advanced(pos: Vect, vel: Vect, dt: u32) -> Vect {
    Vect {
        x: (pos.x + div_trunc(vel.x * dt, 1000)) as i64,
        y: (pos.y + div_trunc(vel.y * dt, 1000)) as i64,
    }
}

/// `p` with each coordinate held to the coordinate range.
pub open spec fn held(p: Vect) -> Vect {
    Vect { x: sat(p.x as int) as i64, y: sat(p.y as int) as i64 }
}

fn weigh(v: i128, r: Ratio) -> (w: i128)
    requires
        r.valid(),
        -2 * SUM_LIMIT <= v <= 2 * SUM_LIMIT,
    ensures
        w == weighted(v as int, r),
        -2 * SUM_LIMIT * WEIGHT_LIMIT <= w <= 2 * SUM_LIMIT * WEIGHT_LIMIT,
{
    assert(-2 * SUM_LIMIT * WEIGHT_LIMIT <= v * r.num <= 2 * SUM_LIMIT * WEIGHT_LIMIT)
        by (nonlinear_arith)
        requires
            -2 * SUM_LIMIT <= v <= 2 * SUM_LIMIT,
            0 <= r.num <= WEIGHT_LIMIT,
    ;
    quot(v * (r.num as i128), r.den as i128)
}

fn steer_axis(
    vel: i64,
    pos: i64,
    sep: i128,
    vel_sum: i128,
    pos_sum: i128,
    count: usize,
    p: &Params,
) -> (v: i64)
    requires
        p.valid(),
        -COORD_LIMIT <= vel <= COORD_LIMIT,
        -COORD_LIMIT <= pos <= COORD_LIMIT,
        -SUM_LIMIT <= sep <= SUM_LIMIT,
        -SUM_LIMIT <= vel_sum <= SUM_LIMIT,
        -SUM_LIMIT <= pos_sum <= SUM_LIMIT,
    ensures
        v == steered_axis(
            vel as int,
            pos as int,
            sep as int,
            vel_sum as int,
            pos_sum as int,
            count as int,
            *p,
        ),
        -COORD_LIMIT <= v <= COORD_LIMIT,
{
    let heading: i128 = if count == 0 {
        0
    } else {
        quot(vel_sum, count as i128)
    };
    let centre: i128 = if count == 0 {
        0
    } else {
        quot(pos_sum, count as i128) - pos as i128
    };
    let a: i128 = weigh(sep, p.repel);
    let b: i128 = weigh(heading, p.align);
    let c: i128 = weigh(centre, p.cohesion);
    saturate(vel as i128 + a + b + c)
}

/// Steers `own` by what it gathered.
pub fn steer(own: &Agent, t: &Tally, p: &Params) -> (v: Vect)
    requires
        p.valid(),
        own.pos.bounded(),
        own.vel.bounded(),
        -SUM_LIMIT <= t.sep_x <= SUM_LIMIT,
        -SUM_LIMIT <= t.sep_y <= SUM_LIMIT,
        -SUM_LIMIT <= t.pos_x <= SUM_LIMIT,
        -SUM_LIMIT <= t.pos_y <= SUM_LIMIT,
        -SUM_LIMIT <= t.vel_x <= SUM_LIMIT,
        -SUM_LIMIT <= t.vel_y <= SUM_LIMIT,
    ensures
        v == steered(*own, t@, *p),
        v.bounded(),
{
    Vect {
        x: steer_axis(own.vel.x, own.pos.x, t.sep_x, t.vel_x, t.pos_x, t.count, p),
        y: steer_axis(own.vel.y, own.pos.y, t.sep_y, t.vel_y, t.pos_y, t.count, p),
    }
}

/// Moves `pos` by `vel` over `dt` milliseconds.
pub fn advance(pos: Vect, vel: Vect, dt: u32) -> (to: Vect)
    requires
        pos.bounded(),
        vel.bounded(),
    ensures
        to == advanced(pos, vel, dt),
        to.x == pos.x + div_trunc(vel.x * dt, 1000),
        to.y == pos.y + div_trunc(vel.y * dt, 1000),
        dt == 0 ==> to == pos,
{
    assert(-0x4000_0000 * 0x1_0000_0000 <= vel.x * dt <= 0x4000_0000 * 0x1_0000_0000 && -0x4000_0000
        * 0x1_0000_0000 <= vel.y * dt <= 0x4000_0000 * 0x1_0000_0000) by (nonlinear_arith)
        requires
            -0x4000_0000 <= vel.x <= 0x4000_0000,
            -0x4000_0000 <= vel.y <= 0x4000_0000,
            0 <= dt <= 0x1_0000_0000,
    ;
    assert(dt == 0 ==> vel.x * dt == 0 && vel.y * dt == 0) by (nonlinear_arith);
    let sx: i128 = quot((vel.x as i128) * (dt as i128), 1000);
    let sy: i128 = quot((vel.y as i128) * (dt as i128), 1000);
    Vect { x: (pos.x as i128 + sx) as i64, y: (pos.y as i128 + sy) as i64 }
}

/// Holds each coordinate of `p` to the coordinate range.
pub fn hold(p: Vect) -> (h: Vect)
    ensures
        h == held(p),
        h.bounded(),
        p.bounded() ==> h == p,
{
    Vect { x: saturate(p.x as i128), y: saturate(p.y as i128) }
}

/// An agent that sees no candidate gathers nothing.
pub proof fn lemma_gather_alone(agents: Seq<Agent>, me: int, cands: Seq<usize>, sight: int, k: int)
    requires
        0 <= k <= cands.len(),
        forall|j: int| 0 <= j < k ==> !sees(agents, me, #[trigger] cands[j], sight),
    ensures
        gathered(agents, me, cands, sight, k) == no_sums(),
    decreases k,
{
    if k > 0 {
        lemma_gather_alone(agents, me, cands, sight, k - 1);
    }
}

/// With no neighbour in sight, alignment and cohesion are exactly zero:
/// nothing is divided by the empty count.
pub proof fn lemma_alone_is_unmoved(agents: Seq<Agent>, me: int, cands: Seq<usize>, sight: int)
    requires
        forall|j: int| 0 <= j < cands.len() ==> !sees(agents, me, #[trigger] cands[j], sight),
    ensures
        ({
            let s = gathered(agents, me, cands, sight, cands.len() as int);
            &&& s.count == 0
            &&& mean(s.vel_x, s.count) == 0
            &&& mean(s.vel_y, s.count) == 0
            &&& pull(s.pos_x, s.count, agents[me].pos.x as int) == 0
            &&& pull(s.pos_y, s.count, agents[me].pos.y as int) == 0
            &&& s.sep_x == 0
            &&& s.sep_y == 0
        }),
{
    lemma_gather_alone(agents, me, cands, sight, cands.len() as int);
}

/// The candidates among the first `k` that agent `me` sees, in their order.
pub open spec fn seen(agents: Seq<Agent>, me: int, cands: Seq<usize>, sight: int, k: int) -> Seq<usize>
    decreases k,
{
    if k <= 0 {
        Seq::empty()
    } else {
        let before = seen(agents, me, cands, sight, k - 1);
        if sees(agents, me, cands[k - 1], sight) {
            before.push(cands[k - 1])
        } else {
            before
        }
    }
}

/// Filters the candidates by exact distance: what is left are the other
/// agents no farther than `sight` from agent `me`.
pub fn neighbours(agents: &Vec<Agent>, me: usize, cands: &Vec<usize>, sight: i64) -> (found: Vec<usize>)
    requires
        me < agents.len(),
        all_bounded(agents@),
        0 <= sight <= COORD_LIMIT,
    ensures
        found@ == seen(agents@, me as int, cands@, sight as int, cands@.len() as int),
{
    let own = agents[me];
    assert(0 <= sight * sight <= 0x4000_0000 * 0x4000_0000) by (nonlinear_arith)
        requires
            0 <= sight <= 0x4000_0000,
    ;
    let reach: i128 = (sight as i128) * (sight as i128);
    let n = cands.len();
    let mut found: Vec<usize> = Vec::new();
    let mut k: usize = 0;
    while k < n
        invariant
            k <= n,
            n == cands@.len(),
            me < agents.len(),
            own == agents@[me as int],
            all_bounded(agents@),
            reach == sight * sight,
            found@ == seen(agents@, me as int, cands@, sight as int, k as int),
        decreases n - k,
    {
        let c = cands[k];
        if c < agents.len() && c != me {
            if distance_squared(agents[c].pos, own.pos) <= reach {
                found.push(c);
            }
        }
        k = k + 1;
    }
    found
}

/// Filtering keeps exactly the candidates that the agent sees.
pub proof fn lemma_seen_exact(agents: Seq<Agent>, me: int, cands: Seq<usize>, sight: int, k: int, c: usize)
    requires
        0 <= k <= cands.len(),
    ensures
        seen(agents, me, cands, sight, k).contains(c) <==> sees(agents, me, c, sight) && exists|j: int|
            0 <= j < k && cands[j] == c,
    decreases k,
{
    if k > 0 {
        lemma_seen_exact(agents, me, cands, sight, k - 1, c);
        let before = seen(agents, me, cands, sight, k - 1);
        let now = seen(agents, me, cands, sight, k);
        let x = cands[k - 1];
        if sees(agents, me, x, sight) {
            assert(now == before.push(x));
            if now.contains(c) {
                let w = choose|w: int| 0 <= w < now.len() && now[w] == c;
                if w < before.len() {
                    assert(before[w] == c);
                    assert(before.contains(c));
                } else {
                    assert(c == x);
                    assert(cands[k - 1] == c);
                }
            }
            if sees(agents, me, c, sight) && exists|j: int| 0 <= j < k && cands[j] == c {
                let j = choose|j: int| 0 <= j < k && cands[j] == c;
                if j == k - 1 {
                    assert(now[before.len() as int] == c);
                } else {
                    assert(before.contains(c));
                    let w = choose|w: int| 0 <= w < before.len() && before[w] == c;
                    assert(now[w] == c);
                }
            }
        } else {
            if sees(agents, me, c, sight) && exists|j: int| 0 <= j < k && cands[j] == c {
                let j = choose|j: int| 0 <= j < k && cands[j] == c;
                assert(j != k - 1);
            }
        }
    }
}

} // verus!
