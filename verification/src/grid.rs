//! A uniform grid over the plane that files agent identifiers by position.
//!
//! The grid covers `cols * rows` square cells of side `size`, anchored at the
//! origin. A position outside that area is filed in the nearest cell.

use crate::geometry::{Rect, Vect};
use vstd::arithmetic::div_mod::{lemma_div_is_ordered, lemma_div_nonincreasing, lemma_div_pos_is_pos};
use vstd::prelude::*;

verus! {

/// The handle of a filed identifier: the cell that holds it.
#[derive(Clone, Copy, Debug, PartialEq, Eq, Structural)]
pub struct Cell {
    pub col: usize,
    pub row: usize,
}

/// The cell coordinate of `v` along one axis of `n` cells of side `size`.
pub open spec fn axis_cell(v: int, size: int, n: int) -> int {
    if v < 0 {
        0
    } else if v / size >= n {
        n - 1
    } else {
        v / size
    }
}

/// The number of identifiers in the first `k` cells.
pub open spec fn total_upto(cells: Seq<Seq<usize>>, k: int) -> int
    decreases k,
{
    if k <= 0 {
        0
    } else {
        total_upto(cells, k - 1) + cells[k - 1].len()
    }
}

/// The first index at or after `i` at which `s` holds `id`, or the length of `s`.
pub open spec fn find_from(s: Seq<usize>, id: usize, i: int) -> int
    decreases s.len() - i,
{
    if i >= s.len() {
        s.len() as int
    } else if s[i] == id {
        i
    } else {
        find_from(s, id, i + 1)
    }
}

/// `cells` with `id` appended to cell `slot`.
pub open spec fn filed(cells: Seq<Seq<usize>>, slot: int, id: usize) -> Seq<Seq<usize>> {
    cells.update(slot, cells[slot].push(id))
}

/// `cells` with the first occurrence of `id` taken out of cell `slot`.
pub open spec fn unfiled(cells: Seq<Seq<usize>>, slot: int, id: usize) -> Seq<Seq<usize>> {
    cells.update(slot, cells[slot].remove(find_from(cells[slot], id, 0)))
}

/// The identifiers of columns `c0..c1` of one row, in column order.
pub open spec fn row_ids(cells: Seq<Seq<usize>>, cols: int, row: int, c0: int, c1: int) -> Seq<
    usize,
>
    decreases c1 - c0,
{
    if c1 <= c0 {
        Seq::empty()
    } else {
        row_ids(cells, cols, row, c0, c1 - 1) + cells[row * cols + c1 - 1]
    }
}

/// The identifiers of rows `r0..r1`, columns `c0..c1`, row by row.
pub open spec fn block_ids(
    cells: Seq<Seq<usize>>,
    cols: int,
    r0: int,
    r1: int,
    c0: int,
    c1: int,
) -> Seq<usize>
    decreases r1 - r0,
{
    if r1 <= r0 {
        Seq::empty()
    } else {
        block_ids(cells, cols, r0, r1 - 1, c0, c1) + row_ids(cells, cols, r1 - 1, c0, c1)
    }
}

/// The cell of a grid of `cols * rows` cells of side `size` in which `p` is filed.
pub open spec fn cell_at(size: int, cols: int, rows: int, p: Vect) -> Cell {
    Cell {
        col: axis_cell(p.x as int, size, cols) as usize,
        row: axis_cell(p.y as int, size, rows) as usize,
    }
}

/// The row-major index of a cell.
pub open spec fn slot_at(cols: int, at: Cell) -> int {
    at.row * cols + at.col
}

/// The identifiers of every cell between the cells of a region's two corners.
pub open spec fn hits_of(cells: Seq<Seq<usize>>, size: int, cols: int, rows: int, region: Rect) -> Seq<
    usize,
> {
    let lo = cell_at(size, cols, rows, region.min);
    let hi = cell_at(size, cols, rows, region.max);
    block_ids(cells, cols, lo.row as int, hi.row + 1, lo.col as int, hi.col + 1)
}

/// `cells` after `id` has moved from the cell `from` to the cell `at`.
pub open spec fn moved_of(cells: Seq<Seq<usize>>, cols: int, from: Cell, at: Cell, id: usize) -> Seq<
    Seq<usize>,
> {
    if from == at {
        cells
    } else {
        filed(unfiled(cells, slot_at(cols, from), id), slot_at(cols, at), id)
    }
}

pub proof fn lemma_total_update(cells: Seq<Seq<usize>>, j: int, s: Seq<usize>, k: int)
    requires
        0 <= j < cells.len(),
        0 <= k <= cells.len(),
    ensures
        total_upto(cells.update(j, s), k) == total_upto(cells, k) + (if j < k {
            s.len() - cells[j].len()
        } else {
            0
        }),
    decreases k,
{
    if k > 0 {
        lemma_total_update(cells, j, s, k - 1);
    }
}

pub proof fn lemma_total_monotone(cells: Seq<Seq<usize>>, i: int, k: int)
    requires
        0 <= i <= k,
    ensures
        0 <= total_upto(cells, i) <= total_upto(cells, k),
    decreases k,
{
    if i < k {
        lemma_total_monotone(cells, i, k - 1);
    } else if k > 0 {
        lemma_total_monotone(cells, i - 1, k - 1);
    }
}

/// The first occurrence of a held identifier is a valid index that holds it.
pub proof fn lemma_find_from(s: Seq<usize>, id: usize, i: int)
    requires
        0 <= i,
        exists|j: int| i <= j < s.len() && s[j] == id,
    ensures
        i <= find_from(s, id, i) < s.len(),
        s[find_from(s, id, i)] == id,
    decreases s.len() - i,
{
    if s[i] != id {
        lemma_find_from(s, id, i + 1);
    }
}

/// A row-major slot index lies inside the grid.
pub proof fn lemma_slot_in_range(col: int, row: int, cols: int, rows: int)
    requires
        0 <= col < cols,
        0 <= row < rows,
    ensures
        0 <= row * cols + col < cols * rows,
        0 <= row * cols <= cols * rows - cols,
{
    assert(0 <= row * cols <= (rows - 1) * cols && (rows - 1) * cols == cols * rows - cols)
        by (nonlinear_arith)
        requires
            0 <= row <= rows - 1,
            0 < cols,
    ;
}

/// Cells are assigned monotonically along an axis.
pub proof fn lemma_axis_cell_monotone(a: int, b: int, size: int, n: int)
    requires
        a <= b,
        size > 0,
        n > 0,
    ensures
        0 <= axis_cell(a, size, n) <= axis_cell(b, size, n) < n,
{
    if a >= 0 {
        lemma_div_is_ordered(a, b, size);
        lemma_div_pos_is_pos(a, size);
    }
    if b >= 0 {
        lemma_div_pos_is_pos(b, size);
    }
}

pub proof fn lemma_row_holds(
    cells: Seq<Seq<usize>>,
    cols: int,
    row: int,
    c0: int,
    c1: int,
    c: int,
    id: usize,
)
    requires
        c0 <= c < c1,
        cells[row * cols + c].contains(id),
    ensures
        row_ids(cells, cols, row, c0, c1).contains(id),
    decreases c1 - c0,
{
    let head = row_ids(cells, cols, row, c0, c1 - 1);
    let last = cells[row * cols + c1 - 1];
    if c == c1 - 1 {
        let i = choose|i: int| 0 <= i < last.len() && last[i] == id;
        assert((head + last)[head.len() + i] == id);
    } else {
        lemma_row_holds(cells, cols, row, c0, c1 - 1, c, id);
        let i = choose|i: int| 0 <= i < head.len() && head[i] == id;
        assert((head + last)[i] == id);
    }
}

pub proof fn lemma_block_holds(
    cells: Seq<Seq<usize>>,
    cols: int,
    r0: int,
    r1: int,
    c0: int,
    c1: int,
    r: int,
    c: int,
    id: usize,
)
    requires
        r0 <= r < r1,
        c0 <= c < c1,
        cells[r * cols + c].contains(id),
    ensures
        block_ids(cells, cols, r0, r1, c0, c1).contains(id),
    decreases r1 - r0,
{
    let head = block_ids(cells, cols, r0, r1 - 1, c0, c1);
    let last = row_ids(cells, cols, r1 - 1, c0, c1);
    if r == r1 - 1 {
        lemma_row_holds(cells, cols, r, c0, c1, c, id);
        let i = choose|i: int| 0 <= i < last.len() && last[i] == id;
        assert((head + last)[head.len() + i] == id);
    } else {
        lemma_block_holds(cells, cols, r0, r1 - 1, c0, c1, r, c, id);
        let i = choose|i: int| 0 <= i < head.len() && head[i] == id;
        assert((head + last)[i] == id);
    }
}

/// The spatial index.
pub struct Grid {
    pub size: i64,
    pub cols: usize,
    pub rows: usize,
    pub cells: Vec<Vec<usize>>,
}

impl Grid {
    /// What each cell holds, cell by cell in row-major order.
    pub open spec fn contents(self) -> Seq<Seq<usize>> {
        Seq::new(self.cells@.len(), |i: int| self.cells@[i]@)
    }

    /// The number of filed identifiers.
    pub open spec fn total(self) -> int {
        total_upto(self.contents(), self.cells@.len() as int)
    }

    pub open spec fn wf(self) -> bool {
        &&& self.size > 0
        &&& self.cols > 0
        &&& self.rows > 0
        &&& self.cols * self.rows <= usize::MAX
        &&& self.cells@.len() == self.cols * self.rows
        &&& self.total() <= usize::MAX
    }

    /// Two grids of the same extent and cell size.
    pub open spec fn same_shape(self, other: Grid) -> bool {
        &&& self.size == other.size
        &&& self.cols == other.cols
        &&& self.rows == other.rows
    }

    pub open spec fn valid(self, at: Cell) -> bool {
        at.col < self.cols && at.row < self.rows
    }

    pub open spec fn slot(self, at: Cell) -> int {
        slot_at(self.cols as int, at)
    }

    /// The cell in which a position is filed.
    pub open spec fn spec_cell_of(self, p: Vect) -> Cell {
        cell_at(self.size as int, self.cols as int, self.rows as int, p)
    }

    /// The cell `at` holds `id`.
    pub open spec fn holds(self, at: Cell, id: usize) -> bool {
        self.valid(at) && self.contents()[self.slot(at)].contains(id)
    }

    /// What a query of `region` yields: the identifiers of every cell between
    /// the cells of the region's two corners.
    pub open spec fn hits(self, region: Rect) -> Seq<usize> {
        hits_of(self.contents(), self.size as int, self.cols as int, self.rows as int, region)
    }

    /// The contents after `id` has moved from cell `from` to cell `at`.
    pub open spec fn moved(self, from: Cell, at: Cell, id: usize) -> Seq<Seq<usize>> {
        moved_of(self.contents(), self.cols as int, from, at, id)
    }
}

/// The cell coordinate of `v` along one axis.
fn axis_of(v: i64, size: i64, n: usize) -> (c: usize)
    requires
        size > 0,
        n > 0,
    ensures
        c == axis_cell(v as int, size as int, n as int),
        c < n,
{
    if v < 0 {
        0
    } else {
        proof {
            lemma_div_pos_is_pos(v as int, size as int);
            lemma_div_nonincreasing(v as int, size as int);
        }
        let q: i64 = v / size;
        if q as u64 >= n as u64 {
            n - 1
        } else {
            q as usize
        }
    }
}

impl Grid {
    /// An empty grid of `cols * rows` cells of side `size`, or `None` where a
    /// parameter is zero or negative or the cell count does not fit the machine.
    pub fn new(size: i64, cols: usize, rows: usize) -> (made: Option<Grid>)
        ensures
            made.is_some() <==> size > 0 && cols > 0 && rows > 0 && cols * rows <= usize::MAX,
            made.is_some() ==> {
                let g = made.unwrap();
                &&& g.wf()
                &&& g.size == size
                &&& g.cols == cols
                &&& g.rows == rows
                &&& g.total() == 0
                &&& forall|k: int| 0 <= k < cols * rows ==> #[trigger] g.contents()[k].len() == 0
            },
    {
        if size <= 0 || cols == 0 || rows == 0 {
            return None;
        }
        let count: usize = match cols.checked_mul(rows) {
            Some(c) => c,
            None => {
                return None;
            },
        };
        let mut cells: Vec<Vec<usize>> = Vec::new();
        let mut k: usize = 0;
        while k < count
            invariant
                k <= count,
                cells@.len() == k,
                forall|j: int| 0 <= j < k ==> (#[trigger] cells@[j])@.len() == 0,
            decreases count - k,
        {
            cells.push(Vec::new());
            k = k + 1;
        }
        let g = Grid { size, cols, rows, cells };
        proof {
            lemma_total_empty(g.contents(), count as int);
        }
        Some(g)
    }

    pub fn cell_of(&self, p: Vect) -> (at: Cell)
        requires
            self.wf(),
        ensures
            at == self.spec_cell_of(p),
            self.valid(at),
    {
        Cell { col: axis_of(p.x, self.size, self.cols), row: axis_of(p.y, self.size, self.rows) }
    }

    /// The row-major index of a cell.
    fn slot_of(&self, at: Cell) -> (k: usize)
        requires
            self.wf(),
            self.valid(at),
        ensures
            k == self.slot(at),
            k < self.cells@.len(),
    {
        proof {
            lemma_slot_in_range(at.col as int, at.row as int, self.cols as int, self.rows as int);
            assert(at.row * self.cols + at.col < self.cols * self.rows);
            assert(0 <= at.row * self.cols);
        }
        at.row * self.cols + at.col
    }

    /// Files `id` under the cell of `pos` and returns that cell as its handle.
    pub fn insert(&mut self, pos: Vect, id: usize) -> (at: Cell)
        requires
            old(self).wf(),
            old(self).total() < usize::MAX,
        ensures
            final(self).wf(),
            final(self).same_shape(*old(self)),
            at == old(self).spec_cell_of(pos),
            final(self).valid(at),
            final(self).contents() == filed(old(self).contents(), old(self).slot(at), id),
            final(self).total() == old(self).total() + 1,
    {
        let at = self.cell_of(pos);
        let k = self.slot_of(at);
        self.cells[k].push(id);
        proof {
            assert(self.contents() =~= filed(old(self).contents(), k as int, id));
            lemma_total_update(
                old(self).contents(),
                k as int,
                old(self).contents()[k as int].push(id),
                self.cells@.len() as int,
            );
        }
        at
    }

    /// Whether the cell `at` holds `id`.
    pub fn contains(&self, at: Cell, id: usize) -> (found: bool)
        requires
            self.wf(),
        ensures
            found == self.holds(at, id),
    {
        if at.col >= self.cols || at.row >= self.rows {
            return false;
        }
        let k = self.slot_of(at);
        let ghost cell = self.contents()[k as int];
        assert(cell == self.cells@[k as int]@);
        let n = self.cells[k].len();
        let mut i: usize = 0;
        while i < n
            invariant
                i <= n,
                k < self.cells@.len(),
                cell == self.cells@[k as int]@,
                n == cell.len(),
                self.valid(at),
                k == self.slot(at),
                cell == self.contents()[k as int],
                forall|j: int| 0 <= j < i ==> cell[j] != id,
            decreases n - i,
        {
            if self.cells[k][i] == id {
                assert(cell[i as int] == id);
                assert(cell.contains(id));
                return true;
            }
            i = i + 1;
        }
        assert(!cell.contains(id));
        false
    }

    /// Takes the first occurrence of `id` out of the cell `from`.
    pub fn remove(&mut self, from: Cell, id: usize)
        requires
            old(self).wf(),
            old(self).holds(from, id),
        ensures
            final(self).wf(),
            final(self).same_shape(*old(self)),
            final(self).contents() == unfiled(old(self).contents(), old(self).slot(from), id),
            final(self).total() == old(self).total() - 1,
    {
        let k = self.slot_of(from);
        let ghost cell = self.contents()[k as int];
        assert(cell == self.cells@[k as int]@);
        proof {
            lemma_find_from(cell, id, 0);
        }
        let n = self.cells[k].len();
        let mut i: usize = 0;
        while self.cells[k][i] != id
            invariant
                i < n,
                k < self.cells@.len(),
                cell == self.cells@[k as int]@,
                n == cell.len(),
                find_from(cell, id, 0) == find_from(cell, id, i as int),
                find_from(cell, id, 0) < n,
            decreases n - i,
        {
            assert(find_from(cell, id, i as int) == find_from(cell, id, i + 1));
            assert(i + 1 >= n ==> find_from(cell, id, i + 1) == n);
            i = i + 1;
        }
        assert(find_from(cell, id, i as int) == i);
        self.cells[k].remove(i);
        proof {
            assert(self.contents() =~= unfiled(old(self).contents(), k as int, id));
            lemma_total_update(
                old(self).contents(),
                k as int,
                cell.remove(i as int),
                self.cells@.len() as int,
            );
        }
    }

    /// Refiles `id`, held by the cell `from`, under the cell of `pos`, and
    /// returns the new handle. Nothing is touched where the cell stays the same.
    pub fn update(&mut self, pos: Vect, id: usize, from: Cell) -> (at: Cell)
        requires
            old(self).wf(),
            old(self).holds(from, id),
        ensures
            final(self).wf(),
            final(self).same_shape(*old(self)),
            at == old(self).spec_cell_of(pos),
            final(self).valid(at),
            final(self).contents() == old(self).moved(from, at, id),
            at == from ==> final(self).contents() == old(self).contents(),
            forall|k: int|
                0 <= k < old(self).contents().len() && k != old(self).slot(from) && k != old(
                    self,
                ).slot(at) ==> #[trigger] final(self).contents()[k] == old(self).contents()[k],
            final(self).holds(at, id),
            final(self).total() == old(self).total(),
    {
        let at = self.cell_of(pos);
        if at.col == from.col && at.row == from.row {
            return at;
        }
        self.remove(from, id);
        let ghost mid = self.contents();
        let _ = self.insert(pos, id);
        proof {
            lemma_slot_in_range(at.col as int, at.row as int, self.cols as int, self.rows as int);
            lemma_slot_in_range(
                from.col as int,
                from.row as int,
                self.cols as int,
                self.rows as int,
            );
            let k = old(self).slot(at);
            assert(self.contents()[k] == mid[k].push(id));
            assert(mid[k].push(id)[mid[k].len() as int] == id);
        }
        at
    }

    /// Appends to `out` the identifiers of every cell that `region` touches.
    /// `out` is not cleared first.
    pub fn query(&self, region: Rect, out: &mut Vec<usize>)
        requires
            self.wf(),
        ensures
            final(out)@ == old(out)@ + self.hits(region),
    {
        let lo = self.cell_of(region.min);
        let hi = self.cell_of(region.max);
        let r1: usize = hi.row + 1;
        let c1: usize = hi.col + 1;
        let ghost cells = self.contents();
        let ghost cols = self.cols as int;
        let mut r: usize = lo.row;
        while r < r1
            invariant
                self.wf(),
                cells == self.contents(),
                cols == self.cols,
                lo.row <= r,
                r <= r1 || r == lo.row,
                r1 <= self.rows,
                c1 <= self.cols,
                lo.col < self.cols,
                out@ == old(out)@ + block_ids(cells, cols, lo.row as int, r as int, lo.col as int, c1 as int),
            decreases r1 - r,
        {
            let ghost before = out@;
            let mut c: usize = lo.col;
            while c < c1
                invariant
                    self.wf(),
                    cells == self.contents(),
                    cols == self.cols,
                    r < r1 <= self.rows,
                    c1 <= self.cols,
                    lo.col <= c,
                    c <= c1 || c == lo.col,
                    out@ == before + row_ids(cells, cols, r as int, lo.col as int, c as int),
                decreases c1 - c,
            {
                let k = self.slot_of(Cell { col: c, row: r });
                let n = self.cells[k].len();
                let ghost base = out@;
                let mut i: usize = 0;
                while i < n
                    invariant
                        i <= n,
                        k < self.cells@.len(),
                        n == self.cells@[k as int]@.len(),
                        out@ == base + self.cells@[k as int]@.subrange(0, i as int),
                    decreases n - i,
                {
                    out.push(self.cells[k][i]);
                    assert(self.cells@[k as int]@.subrange(0, i + 1) =~= self.cells@[k as int]@.subrange(
                        0,
                        i as int,
                    ).push(self.cells@[k as int]@[i as int]));
                    i = i + 1;
                }
                assert(self.cells@[k as int]@.subrange(0, n as int) =~= cells[k as int]);
                assert(out@ =~= before + row_ids(cells, cols, r as int, lo.col as int, c + 1));
                c = c + 1;
            }
            assert(out@ =~= old(out)@ + block_ids(
                cells,
                cols,
                lo.row as int,
                r + 1,
                lo.col as int,
                c1 as int,
            ));
            r = r + 1;
        }
    }

    /// The number of filed identifiers.
    pub fn count(&self) -> (n: usize)
        requires
            self.wf(),
        ensures
            n == self.total(),
    {
        let len = self.cells.len();
        let mut n: usize = 0;
        let mut k: usize = 0;
        while k < len
            invariant
                k <= len,
                len == self.cells@.len(),
                n == total_upto(self.contents(), k as int),
                self.total() <= usize::MAX,
            decreases len - k,
        {
            proof {
                lemma_total_monotone(self.contents(), k + 1, len as int);
            }
            n = n + self.cells[k].len();
            k = k + 1;
        }
        n
    }
}

/// A grid of empty cells holds nothing.
pub proof fn lemma_total_empty(cells: Seq<Seq<usize>>, k: int)
    requires
        0 <= k <= cells.len(),
        forall|j: int| 0 <= j < k ==> (#[trigger] cells[j]).len() == 0,
    ensures
        total_upto(cells, k) == 0,
    decreases k,
{
    if k > 0 {
        lemma_total_empty(cells, k - 1);
    }
}

/// A query returns every identifier filed at a position inside the queried
/// region, whatever the cell size.
pub proof fn lemma_query_covers(g: Grid, region: Rect, p: Vect, id: usize)
    requires
        g.wf(),
        region.holds(p),
        g.holds(g.spec_cell_of(p), id),
    ensures
        g.hits(region).contains(id),
{
    let size = g.size as int;
    lemma_axis_cell_monotone(region.min.x as int, p.x as int, size, g.cols as int);
    lemma_axis_cell_monotone(p.x as int, region.max.x as int, size, g.cols as int);
    lemma_axis_cell_monotone(region.min.y as int, p.y as int, size, g.rows as int);
    lemma_axis_cell_monotone(p.y as int, region.max.y as int, size, g.rows as int);
    let lo = g.spec_cell_of(region.min);
    let hi = g.spec_cell_of(region.max);
    let at = g.spec_cell_of(p);
    lemma_block_holds(
        g.contents(),
        g.cols as int,
        lo.row as int,
        hi.row + 1,
        lo.col as int,
        hi.col + 1,
        at.row as int,
        at.col as int,
        id,
    );
}

/// Refiling an identifier at the position it was just filed at changes
/// nothing: a second update with the handle of the first leaves the contents
/// of the first.
pub proof fn lemma_update_idempotent(g: Grid, after: Grid, pos: Vect, id: usize, from: Cell)
    requires
        g.wf(),
        after.wf(),
        after.same_shape(g),
        after.contents() == g.moved(from, g.spec_cell_of(pos), id),
    ensures
        after.spec_cell_of(pos) == g.spec_cell_of(pos),
        after.moved(g.spec_cell_of(pos), after.spec_cell_of(pos), id) == after.contents(),
{
}

/// Refiling an identifier under the cell that already holds it leaves every
/// cell as it was.
pub proof fn lemma_update_in_place(g: Grid, pos: Vect, id: usize, from: Cell)
    requires
        g.wf(),
        g.spec_cell_of(pos) == from,
    ensures
        g.moved(from, g.spec_cell_of(pos), id) == g.contents(),
        forall|k: int|
            0 <= k < g.contents().len() ==> #[trigger] g.moved(from, g.spec_cell_of(pos), id)[k]
                == g.contents()[k],
{
}

/// Moving one identifier leaves every other identifier in its cell.
pub proof fn lemma_moved_keeps(g: Grid, from: Cell, at: Cell, id: usize, c: Cell, j: usize)
    requires
        g.wf(),
        g.holds(from, id),
        g.valid(at),
        g.holds(c, j),
        j != id,
    ensures
        g.moved(from, at, id)[g.slot(c)].contains(j),
{
    lemma_slot_in_range(at.col as int, at.row as int, g.cols as int, g.rows as int);
    lemma_slot_in_range(from.col as int, from.row as int, g.cols as int, g.rows as int);
    lemma_slot_in_range(c.col as int, c.row as int, g.cols as int, g.rows as int);
    if from != at {
        let cells = g.contents();
        let a = g.slot(from);
        let b = g.slot(at);
        let k = g.slot(c);
        let w = choose|w: int| 0 <= w < cells[k].len() && cells[k][w] == j;
        let mid = unfiled(cells, a, id);
        if k == a {
            lemma_find_from(cells[a], id, 0);
            let at_id = find_from(cells[a], id, 0);
            if w < at_id {
                assert(mid[k][w] == j);
            } else {
                assert(mid[k][w - 1] == j);
            }
        } else {
            assert(mid[k][w] == j);
        }
        let v = choose|v: int| 0 <= v < mid[k].len() && mid[k][v] == j;
        let last = filed(mid, b, id);
        assert(last[k][v] == j);
    }
}

/// A row-major index names one cell.
pub proof fn lemma_slot_injective(cols: int, a: Cell, b: Cell)
    requires
        a.col < cols,
        b.col < cols,
        slot_at(cols, a) == slot_at(cols, b),
    ensures
        a == b,
{
    let (ar, br) = (a.row as int, b.row as int);
    let (ac, bc) = (a.col as int, b.col as int);
    assert(ar == br) by (nonlinear_arith)
        requires
            ar * cols + ac == br * cols + bc,
            0 <= ac < cols,
            0 <= bc < cols,
    ;
}

/// Taking one element out of a sequence without duplicates leaves no
/// duplicates, and the element is gone.
pub proof fn lemma_remove_single(s: Seq<usize>, at: int)
    requires
        s.no_duplicates(),
        0 <= at < s.len(),
    ensures
        s.remove(at).no_duplicates(),
        !s.remove(at).contains(s[at]),
        forall|x: usize| s.remove(at).contains(x) ==> s.contains(x),
{
    let r = s.remove(at);
    assert forall|i: int, j: int| 0 <= i < r.len() && 0 <= j < r.len() && i != j implies r[i]
        != r[j] by {
        let i2 = if i < at { i } else { i + 1 };
        let j2 = if j < at { j } else { j + 1 };
        assert(r[i] == s[i2] && r[j] == s[j2]);
    }
    if r.contains(s[at]) {
        let w = choose|w: int| 0 <= w < r.len() && r[w] == s[at];
        let w2 = if w < at { w } else { w + 1 };
        assert(r[w] == s[w2]);
    }
    assert forall|x: usize| r.contains(x) implies s.contains(x) by {
        let w = choose|w: int| 0 <= w < r.len() && r[w] == x;
        let w2 = if w < at { w } else { w + 1 };
        assert(s[w2] == x);
    }
}

/// Appending an element that a sequence without duplicates lacks leaves no
/// duplicates.
pub proof fn lemma_push_single(s: Seq<usize>, id: usize)
    requires
        s.no_duplicates(),
        !s.contains(id),
    ensures
        s.push(id).no_duplicates(),
        forall|x: usize| s.push(id).contains(x) ==> x == id || s.contains(x),
{
    let r = s.push(id);
    assert forall|i: int, j: int| 0 <= i < r.len() && 0 <= j < r.len() && i != j implies r[i]
        != r[j] by {
        if i < s.len() && r[i] == id {
            assert(s[i] == id);
        }
        if j < s.len() && r[j] == id {
            assert(s[j] == id);
        }
    }
    assert forall|x: usize| r.contains(x) implies x == id || s.contains(x) by {
        let w = choose|w: int| 0 <= w < r.len() && r[w] == x;
        if w < s.len() {
            assert(s[w] == x);
        }
    }
}

/// No cell holds an identifier twice.
pub open spec fn single(cells: Seq<Seq<usize>>) -> bool {
    forall|k: int| 0 <= k < cells.len() ==> (#[trigger] cells[k]).no_duplicates()
}

/// Where no cell holds an identifier twice and the new cell lacks the moved
/// identifier, a move keeps it so, and afterwards a cell holds only what it
/// held before, the moved identifier at its new cell alone among the two.
pub proof fn lemma_moved_only(g: Grid, from: Cell, at: Cell, id: usize)
    requires
        g.wf(),
        g.holds(from, id),
        g.valid(at),
        single(g.contents()),
        from != at ==> !g.holds(at, id),
    ensures
        single(g.moved(from, at, id)),
        forall|c: Cell, j: usize|
            g.valid(c) && #[trigger] g.moved(from, at, id)[g.slot(c)].contains(j) ==> (j == id
                && c == at) || (g.holds(c, j) && !(j == id && c == from && from != at)),
{
    let cells = g.contents();
    let cols = g.cols as int;
    let after = g.moved(from, at, id);
    lemma_slot_in_range(at.col as int, at.row as int, cols, g.rows as int);
    lemma_slot_in_range(from.col as int, from.row as int, cols, g.rows as int);
    if from != at {
        let a = g.slot(from);
        let b = g.slot(at);
        if a == b {
            lemma_slot_injective(cols, from, at);
        }
        lemma_find_from(cells[a], id, 0);
        let idx = find_from(cells[a], id, 0);
        lemma_remove_single(cells[a], idx);
        lemma_push_single(cells[b], id);
        let mid = unfiled(cells, a, id);
        assert(mid[b] == cells[b]);
        assert(after[b] == cells[b].push(id));
        assert(after[a] == cells[a].remove(idx));
        assert forall|k: int| 0 <= k < after.len() implies (#[trigger] after[k]).no_duplicates() by {
            if k != a && k != b {
                assert(after[k] == cells[k]);
            }
        }
        assert forall|c: Cell, j: usize| g.valid(c) && #[trigger] after[g.slot(c)].contains(j) implies (
        j == id && c == at) || (g.holds(c, j) && !(j == id && c == from && from != at)) by {
            let k = g.slot(c);
            lemma_slot_in_range(c.col as int, c.row as int, cols, g.rows as int);
            if k == b {
                lemma_slot_injective(cols, c, at);
            } else if k == a {
                lemma_slot_injective(cols, c, from);
            } else {
                assert(after[k] == cells[k]);
                if c == from {
                    assert(k == a);
                }
            }
        }
    }
}

/// Filing a new identifier in a grid whose cells hold nothing twice keeps
/// it so, and afterwards a cell holds only what it held before or the new
/// identifier at its cell.
pub proof fn lemma_filed_only(g: Grid, at: Cell, id: usize)
    requires
        g.wf(),
        g.valid(at),
        single(g.contents()),
        !g.holds(at, id),
    ensures
        single(filed(g.contents(), g.slot(at), id)),
        forall|c: Cell, j: usize|
            g.valid(c) && #[trigger] filed(g.contents(), g.slot(at), id)[g.slot(c)].contains(j) ==> (
            j == id && c == at) || g.holds(c, j),
{
    let cells = g.contents();
    let cols = g.cols as int;
    let b = g.slot(at);
    let after = filed(cells, b, id);
    lemma_slot_in_range(at.col as int, at.row as int, cols, g.rows as int);
    lemma_push_single(cells[b], id);
    assert forall|k: int| 0 <= k < after.len() implies (#[trigger] after[k]).no_duplicates() by {
        if k != b {
            assert(after[k] == cells[k]);
        }
    }
    assert forall|c: Cell, j: usize| g.valid(c) && #[trigger] after[g.slot(c)].contains(j) implies (j
        == id && c == at) || g.holds(c, j) by {
        let k = g.slot(c);
        lemma_slot_in_range(c.col as int, c.row as int, cols, g.rows as int);
        if k == b {
            lemma_slot_injective(cols, c, at);
        } else {
            assert(after[k] == cells[k]);
        }
    }
}

/// Every row-major index inside the grid is the slot of a cell of the grid.
pub proof fn lemma_cell_of_slot(cols: int, rows: int, k: int) -> (c: Cell)
    requires
        0 < cols <= usize::MAX,
        0 < rows <= usize::MAX,
        0 <= k < cols * rows,
    ensures
        c.col < cols,
        c.row < rows,
        slot_at(cols, c) == k,
{
    vstd::arithmetic::div_mod::lemma_fundamental_div_mod(k, cols);
    vstd::arithmetic::div_mod::lemma_mod_bound(k, cols);
    lemma_div_pos_is_pos(k, cols);
    let q = k / cols;
    let r = k % cols;
    assert(q < rows && q * cols == cols * q) by (nonlinear_arith)
        requires
            k == cols * q + r,
            0 <= r,
            k < cols * rows,
            0 < cols,
    ;
    Cell { col: r as usize, row: q as usize }
}

/// Where no cell holds an identifier twice and `home` names the one cell
/// that holds each identifier, the columns `c0..c1` of a row hold no
/// identifier twice, and only identifiers whose home is among them.
pub proof fn lemma_row_single(
    cells: Seq<Seq<usize>>,
    cols: int,
    row: int,
    c0: int,
    c1: int,
    home: spec_fn(usize) -> int,
)
    requires
        0 <= c0,
        c1 <= cols,
        0 <= row,
        row * cols + cols <= cells.len(),
        single(cells),
        forall|k: int, id: usize|
            0 <= k < cells.len() && #[trigger] cells[k].contains(id) ==> home(id) == k,
    ensures
        row_ids(cells, cols, row, c0, c1).no_duplicates(),
        forall|id: usize| #[trigger]
            row_ids(cells, cols, row, c0, c1).contains(id) ==> row * cols + c0 <= home(id) < row
                * cols + c1,
    decreases c1 - c0,
{
    if c1 > c0 {
        lemma_row_single(cells, cols, row, c0, c1 - 1, home);
        let head = row_ids(cells, cols, row, c0, c1 - 1);
        let k = row * cols + c1 - 1;
        assert(0 <= row * cols) by (nonlinear_arith)
            requires
                0 <= row,
                0 <= cols,
        ;
        let last = cells[k];
        assert(last.no_duplicates());
        assert forall|i: int, j: int| 0 <= i < head.len() && 0 <= j < last.len() implies head[i]
            != last[j] by {
            assert(head.contains(head[i]));
            assert(cells[k].contains(last[j]));
        }
        vstd::seq_lib::lemma_no_dup_in_concat(head, last);
        assert forall|id: usize| #[trigger] (head + last).contains(id) implies row * cols + c0
            <= home(id) < row * cols + c1 by {
            let w = choose|w: int| 0 <= w < (head + last).len() && (head + last)[w] == id;
            if w < head.len() {
                assert(head[w] == id);
                assert(head.contains(id));
            } else {
                assert(last[w - head.len()] == id);
                assert(cells[k].contains(id));
            }
        }
    }
}

/// The same for the rows `r0..r1`.
pub proof fn lemma_block_single(
    cells: Seq<Seq<usize>>,
    cols: int,
    r0: int,
    r1: int,
    c0: int,
    c1: int,
    home: spec_fn(usize) -> int,
)
    requires
        0 <= c0,
        c1 <= cols,
        0 < cols,
        0 <= r0,
        r1 * cols <= cells.len(),
        single(cells),
        forall|k: int, id: usize|
            0 <= k < cells.len() && #[trigger] cells[k].contains(id) ==> home(id) == k,
    ensures
        block_ids(cells, cols, r0, r1, c0, c1).no_duplicates(),
        forall|id: usize| #[trigger]
            block_ids(cells, cols, r0, r1, c0, c1).contains(id) ==> r0 * cols <= home(id) < r1
                * cols,
    decreases r1 - r0,
{
    if r1 > r0 {
        assert((r1 - 1) * cols + cols == r1 * cols && r0 * cols <= (r1 - 1) * cols) by (nonlinear_arith)
            requires
                r0 <= r1 - 1,
                0 < cols,
        ;
        lemma_block_single(cells, cols, r0, r1 - 1, c0, c1, home);
        lemma_row_single(cells, cols, r1 - 1, c0, c1, home);
        let head = block_ids(cells, cols, r0, r1 - 1, c0, c1);
        let last = row_ids(cells, cols, r1 - 1, c0, c1);
        assert forall|i: int, j: int| 0 <= i < head.len() && 0 <= j < last.len() implies head[i]
            != last[j] by {
            assert(head.contains(head[i]));
            assert(last.contains(last[j]));
        }
        vstd::seq_lib::lemma_no_dup_in_concat(head, last);
        assert forall|id: usize| #[trigger] (head + last).contains(id) implies r0 * cols <= home(id)
            < r1 * cols by {
            let w = choose|w: int| 0 <= w < (head + last).len() && (head + last)[w] == id;
            if w < head.len() {
                assert(head[w] == id);
                assert(head.contains(id));
            } else {
                assert(last[w - head.len()] == id);
                assert(last.contains(id));
            }
        }
    }
}

} // verus!
