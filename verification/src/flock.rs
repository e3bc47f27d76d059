//! The flock: a table of agents, the grid that files them, and the frame
//! that advances every agent once.
//!
//! Agents are advanced in place and in order. An agent that is advanced
//! later in a frame sees the new state of those advanced before it.

use crate::geometry::{dist_sq, norm_sq, Rect, Vect, COORD_LIMIT};
use crate::grid::{
    cell_at, filed, hits_of, lemma_axis_cell_monotone, lemma_block_single, lemma_cell_of_slot,
    lemma_filed_only, lemma_moved_keeps, lemma_moved_only, lemma_query_covers,
    lemma_slot_in_range, moved_of, single, Cell, Grid,
};
use crate::speed::{clamped, spec_clamped};
use crate::steer::{
    advance, advanced, all_bounded, gather, gathered, held, hold, lemma_alone_is_unmoved,
    lemma_seen_exact, neighbours, seen, sees, steer, steered, Agent, Params, Sums,
};
use vstd::prelude::*;

verus! {

/// The state of a flock as plain values.
pub struct World {
    pub agents: Seq<Agent>,
    pub cells: Seq<Seq<usize>>,
    pub size: int,
    pub cols: int,
    pub rows: int,
    pub bounds: Rect,
    pub params: Params,
}

impl World {
    /// The identifiers that the grid offers agent `i` as possible neighbours.
    pub open spec fn candidates(self, i: int) -> Seq<usize> {
        hits_of(
            self.cells,
            self.size,
            self.cols,
            self.rows,
            Rect::spec_cube(self.agents[i].pos, self.params.sight),
        )
    }

    /// What agent `i` gathers from the neighbours it sees.
    pub open spec fn sums(self, i: int) -> Sums {
        gathered(
            self.agents,
            i,
            self.candidates(i),
            self.params.sight as int,
            self.candidates(i).len() as int,
        )
    }

    /// The agents that agent `i` sees: the candidates, filtered by exact distance.
    pub open spec fn neighbours(self, i: int) -> Seq<usize> {
        seen(
            self.agents,
            i,
            self.candidates(i),
            self.params.sight as int,
            self.candidates(i).len() as int,
        )
    }

    /// The velocity of agent `i` after one step.
    pub open spec fn next_vel(self, i: int) -> Vect {
        spec_clamped(
            steered(self.agents[i], self.sums(i), self.params),
            self.params.min_speed as int,
            self.params.max_speed as int,
        )
    }

    /// The position of agent `i` after a step of `dt` milliseconds: moved,
    /// wrapped around the bounds where it has left them, and then held to the
    /// coordinate range.
    pub open spec fn next_pos(self, i: int, dt: u32) -> Vect {
        held(self.bounds.spec_wrap(advanced(self.agents[i].pos, self.next_vel(i), dt)))
    }

    /// Agent `i` after a step of `dt` milliseconds, filed under its new cell.
    pub open spec fn next_agent(self, i: int, dt: u32) -> Agent {
        Agent {
            pos: self.next_pos(i, dt),
            vel: self.next_vel(i),
            add: cell_at(self.size, self.cols, self.rows, self.next_pos(i, dt)),
        }
    }

    /// The world after agent `i` alone has taken a step.
    pub open spec fn stepped(self, i: int, dt: u32) -> World {
        let next = self.next_agent(i, dt);
        World {
            agents: self.agents.update(i, next),
            cells: moved_of(self.cells, self.cols, self.agents[i].add, next.add, i as usize),
            ..self
        }
    }

    /// The world after the first `k` agents have taken a step, in order.
    pub open spec fn framed(self, k: int, dt: u32) -> World
        decreases k,
    {
        if k <= 0 {
            self
        } else {
            self.framed(k - 1, dt).stepped(k - 1, dt)
        }
    }
}

/// The simulator.
pub struct Engine {
    pub agents: Vec<Agent>,
    pub bounds: Rect,
    pub grid: Grid,
    pub params: Params,
}

impl View for Engine {
    type V = World;

    open spec fn view(&self) -> World {
        World {
            agents: self.agents@,
            cells: self.grid.contents(),
            size: self.grid.size as int,
            cols: self.grid.cols as int,
            rows: self.grid.rows as int,
            bounds: self.bounds,
            params: self.params,
        }
    }
}

/// A rectangle that can bound a flock: not inverted, within the coordinate range.
pub open spec fn bounds_ok(b: Rect) -> bool {
    &&& b.min.bounded()
    &&& b.max.bounded()
    &&& b.min.x <= b.max.x
    &&& b.min.y <= b.max.y
}

impl Engine {
    /// Every agent is filed under the cell of its position, and its handle
    /// names that cell.
    pub open spec fn filed_right(self) -> bool {
        forall|i: int|
            0 <= i < self.agents@.len() ==> {
                &&& (#[trigger] self.agents@[i]).add == self.grid.spec_cell_of(self.agents@[i].pos)
                &&& self.grid.holds(self.agents@[i].add, i as usize)
            }
    }

    /// The first `k` agents move at a speed within the limits.
    pub open spec fn paced(self, k: int) -> bool {
        forall|j: int|
            0 <= j < k && j < self.agents@.len() ==> self.params.min_speed * self.params.min_speed
                <= norm_sq((#[trigger] self.agents@[j]).vel) <= self.params.max_speed
                * self.params.max_speed
    }

    /// The grid files nothing but agents, each under its own handle only.
    pub open spec fn nothing_stray(self) -> bool {
        forall|c: Cell, j: usize| #[trigger]
            self.grid.holds(c, j) ==> j < self.agents@.len() && self.agents@[j as int].add == c
    }

    /// The grid files exactly the agents: as many identifiers as there are
    /// agents, each agent once, in the cell of its position, which its
    /// handle names, and nothing else.
    pub open spec fn wf(self) -> bool {
        &&& self.grid.wf()
        &&& self.params.valid()
        &&& bounds_ok(self.bounds)
        &&& self.grid.total() == self.agents@.len()
        &&& all_bounded(self.agents@)
        &&& self.filed_right()
        &&& self.nothing_stray()
        &&& single(self.grid.contents())
    }

    /// An empty flock within `bounds`, over a grid of `cols * rows` cells of
    /// side `size`; `None` where a parameter cannot be used.
    pub fn new(bounds: Rect, size: i64, cols: usize, rows: usize, params: Params) -> (made: Option<
        Engine,
    >)
        ensures
            made.is_some() <==> bounds_ok(bounds) && params.valid() && size > 0 && cols > 0 && rows
                > 0 && cols * rows <= usize::MAX,
            made.is_some() ==> {
                let e = made.unwrap();
                &&& e.wf()
                &&& e.agents@.len() == 0
                &&& e.bounds == bounds
                &&& e.params == params
                &&& e.grid.size == size
                &&& e.grid.cols == cols
                &&& e.grid.rows == rows
            },
    {
        let fits = bounds.min.x >= -COORD_LIMIT && bounds.min.y >= -COORD_LIMIT && bounds.max.x
            <= COORD_LIMIT && bounds.max.y <= COORD_LIMIT && bounds.min.x <= bounds.max.x
            && bounds.min.y <= bounds.max.y;
        if !fits || !params.check() {
            return None;
        }
        match Grid::new(size, cols, rows) {
            Some(grid) => {
                proof {
                    assert forall|k: int| 0 <= k < grid.contents().len() implies (
                    #[trigger] grid.contents()[k]).no_duplicates() by {
                        assert(grid.contents()[k].len() == 0);
                    }
                    assert forall|c: Cell, j: usize| !#[trigger] grid.holds(c, j) by {
                        if grid.valid(c) {
                            lemma_slot_in_range(
                                c.col as int,
                                c.row as int,
                                cols as int,
                                rows as int,
                            );
                            assert(grid.contents()[grid.slot(c)].len() == 0);
                        }
                    }
                }
                Some(Engine { agents: Vec::new(), bounds, grid, params })
            },
            None => None,
        }
    }

    /// Adds an agent and files it. Returns its identifier, or `None` where
    /// its position or velocity is outside the coordinate range, in which
    /// case nothing changes.
    pub fn spawn(&mut self, pos: Vect, vel: Vect) -> (id: Option<usize>)
        requires
            old(self).wf(),
            old(self).agents@.len() < usize::MAX,
        ensures
            final(self).wf(),
            id.is_some() <==> pos.bounded() && vel.bounded(),
            id.is_none() ==> *final(self) == *old(self),
            id.is_some() ==> {
                &&& id.unwrap() == old(self).agents@.len()
                &&& final(self).agents@ == old(self).agents@.push(
                    Agent { pos, vel, add: old(self).grid.spec_cell_of(pos) },
                )
                &&& final(self).grid.contents() == filed(
                    old(self).grid.contents(),
                    old(self).grid.slot(old(self).grid.spec_cell_of(pos)),
                    id.unwrap(),
                )
                &&& final(self).grid.total() == old(self).grid.total() + 1
                &&& final(self).grid.same_shape(old(self).grid)
                &&& final(self).bounds == old(self).bounds
                &&& final(self).params == old(self).params
            },
    {
        let fits = -COORD_LIMIT <= pos.x && pos.x <= COORD_LIMIT && -COORD_LIMIT <= pos.y && pos.y
            <= COORD_LIMIT && -COORD_LIMIT <= vel.x && vel.x <= COORD_LIMIT && -COORD_LIMIT
            <= vel.y && vel.y <= COORD_LIMIT;
        if !fits {
            return None;
        }
        let id = self.agents.len();
        let ghost before = self.grid;
        let add = self.grid.insert(pos, id);
        self.agents.push(Agent { pos, vel, add });
        proof {
            assert(!before.holds(add, id));
            lemma_filed_only(before, add, id);
            assert forall|c: Cell, j: usize| #[trigger] self.grid.holds(c, j) implies j
                < self.agents@.len() && self.agents@[j as int].add == c by {
                assert(filed(before.contents(), before.slot(add), id)[before.slot(c)].contains(j));
                if !(j == id && c == add) {
                    assert(before.holds(c, j));
                }
            }
            let k = before.slot(add);
            lemma_slot_in_range(
                add.col as int,
                add.row as int,
                before.cols as int,
                before.rows as int,
            );
            let cell = before.contents()[k];
            assert(self.grid.contents()[k] == cell.push(id));
            assert(cell.push(id)[cell.len() as int] == id);
            assert forall|i: int| 0 <= i < self.agents@.len() implies {
                &&& (#[trigger] self.agents@[i]).add == self.grid.spec_cell_of(self.agents@[i].pos)
                &&& self.grid.holds(self.agents@[i].add, i as usize)
            } by {
                if i < id {
                    let c = old(self).agents@[i].add;
                    assert(before.holds(c, i as usize));
                    lemma_slot_in_range(
                        c.col as int,
                        c.row as int,
                        before.cols as int,
                        before.rows as int,
                    );
                    let s = before.slot(c);
                    let w = choose|w: int|
                        0 <= w < before.contents()[s].len() && before.contents()[s][w] == i as usize;
                    assert(self.grid.contents()[s][w] == i as usize);
                }
            }
        }
        Some(id)
    }

    /// The agents within sight of agent `i`.
    pub fn neighbours(&self, i: usize) -> (found: Vec<usize>)
        requires
            self.wf(),
            i < self.agents@.len(),
        ensures
            found@ == self@.neighbours(i as int),
    {
        let region = Rect::cube(self.agents[i].pos, self.params.sight);
        let mut cands: Vec<usize> = Vec::new();
        self.grid.query(region, &mut cands);
        assert(cands@ =~= self@.candidates(i as int));
        neighbours(&self.agents, i, &cands, self.params.sight)
    }

    /// Advances agent `i` by `dt` milliseconds: it gathers from the
    /// neighbours it sees, steers, holds its speed to the limits, moves,
    /// wraps around the bounds and is refiled. Returns its new state.
    pub fn step(&mut self, i: usize, dt: u32) -> (next: Agent)
        requires
            old(self).wf(),
            i < old(self).agents@.len(),
        ensures
            final(self).wf(),
            final(self)@ == old(self)@.stepped(i as int, dt),
            next == old(self)@.next_agent(i as int, dt),
            final(self).agents@.len() == old(self).agents@.len(),
            final(self).grid.total() == old(self).grid.total(),
            old(self).params.min_speed * old(self).params.min_speed <= norm_sq(next.vel) <= old(
                self,
            ).params.max_speed * old(self).params.max_speed,
    {
        let own = self.agents[i];
        let region = Rect::cube(own.pos, self.params.sight);
        let mut cands: Vec<usize> = Vec::new();
        self.grid.query(region, &mut cands);
        assert(cands@ =~= old(self)@.candidates(i as int));
        let t = gather(&self.agents, i, &cands, self.params.sight);
        let vel = clamped(
            steer(&own, &t, &self.params),
            self.params.min_speed,
            self.params.max_speed,
        );
        let pos = hold(self.bounds.wrap(advance(own.pos, vel, dt)));
        let add = self.grid.update(pos, i, own.add);
        let next = Agent { pos, vel, add };
        self.agents[i] = next;
        proof {
            assert(self@.agents =~= old(self)@.stepped(i as int, dt).agents);
            let before = old(self).grid;
            if own.add != add && before.holds(add, i) {
                assert(old(self).agents@[i as int].add == add);
            }
            lemma_moved_only(before, own.add, add, i);
            assert forall|c: Cell, j: usize| #[trigger] self.grid.holds(c, j) implies j
                < self.agents@.len() && self.agents@[j as int].add == c by {
                assert(before.moved(own.add, add, i)[before.slot(c)].contains(j));
                if !(j == i && c == add) {
                    assert(before.holds(c, j));
                }
            }
            assert forall|j: int| 0 <= j < self.agents@.len() implies {
                &&& (#[trigger] self.agents@[j]).add == self.grid.spec_cell_of(self.agents@[j].pos)
                &&& self.grid.holds(self.agents@[j].add, j as usize)
            } by {
                if j != i {
                    assert(self.agents@[j] == old(self).agents@[j]);
                    lemma_moved_keeps(
                        old(self).grid,
                        own.add,
                        add,
                        i,
                        old(self).agents@[j].add,
                        j as usize,
                    );
                }
            }
        }
        next
    }

    /// Advances every agent once, in order, by `dt` milliseconds.
    pub fn update(&mut self, dt: u32)
        requires
            old(self).wf(),
        ensures
            final(self).wf(),
            final(self)@ == old(self)@.framed(old(self).agents@.len() as int, dt),
            final(self).agents@.len() == old(self).agents@.len(),
            final(self).grid.total() == final(self).agents@.len(),
            forall|j: int|
                0 <= j < final(self).agents@.len() ==> {
                    let limits = final(self).params;
                    limits.min_speed * limits.min_speed <= norm_sq(
                        (#[trigger] final(self).agents@[j]).vel,
                    ) <= limits.max_speed * limits.max_speed
                },
    {
        let n = self.agents.len();
        let mut i: usize = 0;
        while i < n
            invariant
                i <= n,
                n == self.agents@.len(),
                n == old(self).agents@.len(),
                self.wf(),
                self@ == old(self)@.framed(i as int, dt),
                self.paced(i as int),
            decreases n - i,
        {
            let ghost before = *self;
            let _ = self.step(i, dt);
            assert forall|j: int| 0 <= j < i + 1 && j < self.agents@.len() implies self.params.min_speed
                * self.params.min_speed <= norm_sq((#[trigger] self.agents@[j]).vel)
                <= self.params.max_speed * self.params.max_speed by {
                if j < i {
                    assert(self.agents@[j] == before.agents@[j]);
                }
            }
            i = i + 1;
        }
    }
}

/// Every agent within sight of agent `i` is among the candidates that the
/// grid offers it, whatever the size of the cells.
pub proof fn lemma_neighbours_are_candidates(e: Engine, i: int, j: int)
    requires
        e.wf(),
        0 <= i < e.agents@.len(),
        0 <= j < e.agents@.len(),
        dist_sq(e.agents@[j].pos, e.agents@[i].pos) <= e.params.sight * e.params.sight,
    ensures
        e@.candidates(i).contains(j as usize),
{
    let p = e.agents@[i].pos;
    let q = e.agents@[j].pos;
    let r = e.params.sight as int;
    assert(-r <= q.x - p.x <= r && -r <= q.y - p.y <= r) by (nonlinear_arith)
        requires
            (q.x - p.x) * (q.x - p.x) + (q.y - p.y) * (q.y - p.y) <= r * r,
            r >= 0,
    ;
    lemma_query_covers(e.grid, Rect::spec_cube(p, e.params.sight), q, j as usize);
}

/// The grid offers an agent no candidate twice, so no neighbour is counted
/// more than once.
pub proof fn lemma_candidates_single(e: Engine, i: int)
    requires
        e.wf(),
        0 <= i < e.agents@.len(),
    ensures
        e@.candidates(i).no_duplicates(),
{
    let g = e.grid;
    let cells = g.contents();
    let cols = g.cols as int;
    let rows = g.rows as int;
    let size = g.size as int;
    let home = |id: usize| g.slot(e.agents@[id as int].add);
    assert forall|k: int, id: usize| 0 <= k < cells.len() && #[trigger] cells[k].contains(
        id,
    ) implies home(id) == k by {
        let c = lemma_cell_of_slot(cols, rows, k);
        assert(g.holds(c, id));
    }
    let region = Rect::spec_cube(e.agents@[i].pos, e.params.sight);
    lemma_axis_cell_monotone(region.min.x as int, region.min.x as int, size, cols);
    lemma_axis_cell_monotone(region.max.x as int, region.max.x as int, size, cols);
    lemma_axis_cell_monotone(region.min.y as int, region.min.y as int, size, rows);
    lemma_axis_cell_monotone(region.max.y as int, region.max.y as int, size, rows);
    let lo = g.spec_cell_of(region.min);
    let hi = g.spec_cell_of(region.max);
    assert((hi.row + 1) * cols <= cols * rows) by (nonlinear_arith)
        requires
            hi.row + 1 <= rows,
            0 < cols,
    ;
    lemma_block_single(cells, cols, lo.row as int, hi.row + 1, lo.col as int, hi.col + 1, home);
}

/// The neighbours of agent `i` are exactly the other agents whose position
/// is no farther from it than its sight.
pub proof fn lemma_neighbours_exact(e: Engine, i: int, j: usize)
    requires
        e.wf(),
        0 <= i < e.agents@.len(),
    ensures
        e@.neighbours(i).contains(j) <==> sees(e.agents@, i, j, e.params.sight as int),
{
    let cands = e@.candidates(i);
    lemma_seen_exact(e.agents@, i, cands, e.params.sight as int, cands.len() as int, j);
    if sees(e.agents@, i, j, e.params.sight as int) {
        lemma_neighbours_are_candidates(e, i, j as int);
        let w = choose|w: int| 0 <= w < cands.len() && cands[w] == j;
        assert(cands[w] == j);
    }
}

/// An agent that sees nobody keeps its course: its new velocity is its old
/// one with the speed held to the limits, and it moves by that velocity.
pub proof fn lemma_alone_keeps_course(w: World, i: int, dt: u32)
    requires
        w.params.valid(),
        0 <= i < w.agents.len(),
        w.agents[i].vel.bounded(),
        w.neighbours(i).len() == 0,
    ensures
        w.next_vel(i) == spec_clamped(
            w.agents[i].vel,
            w.params.min_speed as int,
            w.params.max_speed as int,
        ),
        w.next_pos(i, dt) == held(
            w.bounds.spec_wrap(
                advanced(
                    w.agents[i].pos,
                    spec_clamped(
                        w.agents[i].vel,
                        w.params.min_speed as int,
                        w.params.max_speed as int,
                    ),
                    dt,
                ),
            ),
        ),
{
    let cands = w.candidates(i);
    let sight = w.params.sight as int;
    assert forall|j: int| 0 <= j < cands.len() implies !sees(w.agents, i, #[trigger] cands[j], sight) by {
        if sees(w.agents, i, cands[j], sight) {
            lemma_seen_exact(w.agents, i, cands, sight, cands.len() as int, cands[j]);
            assert(w.neighbours(i).contains(cands[j]));
        }
    }
    lemma_alone_is_unmoved(w.agents, i, cands, sight);
    assert(0 * w.params.repel.num == 0 && 0 * w.params.align.num == 0 && 0 * w.params.cohesion.num
        == 0);
    assert(steered(w.agents[i], w.sums(i), w.params) == w.agents[i].vel);
}

} // verus!
