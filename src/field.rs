use crate::cell::{transition, Cell};
use vstd::prelude::*;

verus! {

/// A coordinate that lies outside the field.
#[derive(Debug, Clone, Copy, PartialEq, Eq)]
pub struct OutOfBounds {
    pub row: usize,
    pub column: usize,
}

/// Whether `(r, c)` is a live cell of `g`; anything off the grid counts as dead.
pub open spec fn alive_in(g: Seq<Seq<bool>>, r: int, c: int) -> bool {
    0 <= r < g.len() && 0 <= c < g[r].len() && g[r][c]
}

pub open spec fn count_if(b: bool) -> int {
    if b {
        1
    } else {
        0
    }
}

/// The number of live cells among the eight cells of the Moore neighbourhood
/// of `(r, c)`.
pub open spec fn neighbors(g: Seq<Seq<bool>>, r: int, c: int) -> int {
    count_if(alive_in(g, r - 1, c - 1)) + count_if(alive_in(g, r - 1, c)) + count_if(
        alive_in(g, r - 1, c + 1),
    ) + count_if(alive_in(g, r, c - 1)) + count_if(alive_in(g, r, c + 1)) + count_if(
        alive_in(g, r + 1, c - 1),
    ) + count_if(alive_in(g, r + 1, c)) + count_if(alive_in(g, r + 1, c + 1))
}

/// Whether `(r, c)` is strictly inside a field of side `n`, off its border.
pub open spec fn interior(n: int, r: int, c: int) -> bool {
    1 <= r < n - 1 && 1 <= c < n - 1
}

/// The neighbour count that a step gives the cell `(r, c)`: border cells are
/// not counted and keep zero.
pub open spec fn step_count(g: Seq<Seq<bool>>, r: int, c: int) -> int {
    if interior(g.len() as int, r, c) {
        neighbors(g, r, c)
    } else {
        0
    }
}

/// The next generation of the square grid `g`, every cell computed from `g`.
pub open spec fn next_generation(g: Seq<Seq<bool>>) -> Seq<Seq<bool>> {
    Seq::new(
        g.len(),
        |r: int| Seq::new(g.len(), |c: int| transition(g[r][c], step_count(g, r, c))),
    )
}

/// The grid of side `n` whose live cells are exactly those listed in `seeds`.
pub open spec fn seeded(n: nat, seeds: Seq<(usize, usize)>) -> Seq<Seq<bool>> {
    Seq::new(n, |r: int| Seq::new(n, |c: int| seeds.contains((r as usize, c as usize))))
}

pub open spec fn in_bounds(n: int, p: (usize, usize)) -> bool {
    p.0 < n && p.1 < n
}

/// The live cells of row `r` of `g` among its first `j` columns, left to right.
pub open spec fn row_list(g: Seq<Seq<bool>>, r: int, j: int) -> Seq<(usize, usize)>
    decreases j,
{
    if j <= 0 {
        seq![]
    } else {
        row_list(g, r, j - 1) + if g[r][j - 1] {
            seq![(r as usize, (j - 1) as usize)]
        } else {
            seq![]
        }
    }
}

/// The live cells of the first `i` rows of `g`, in row-major order.
pub open spec fn rows_list(g: Seq<Seq<bool>>, i: int) -> Seq<(usize, usize)>
    decreases i,
{
    if i <= 0 {
        seq![]
    } else {
        rows_list(g, i - 1) + row_list(g, i - 1, g[i - 1].len() as int)
    }
}

/// The coordinates of all live cells of `g`, in row-major order.
pub open spec fn alive_list(g: Seq<Seq<bool>>) -> Seq<(usize, usize)> {
    rows_list(g, g.len() as int)
}

/// Strict row-major order on coordinates.
pub open spec fn precedes(a: (usize, usize), b: (usize, usize)) -> bool {
    a.0 < b.0 || (a.0 == b.0 && a.1 < b.1)
}

/// `s` is strictly increasing in row-major order (so without repeats).
pub open spec fn strictly_sorted(s: Seq<(usize, usize)>) -> bool {
    forall|i: int, j: int| 0 <= i < j < s.len() ==> precedes(#[trigger] s[i], #[trigger] s[j])
}

/// `g` is a square grid of side `g.len()` whose coordinates fit in `usize`.
pub open spec fn square(g: Seq<Seq<bool>>) -> bool {
    &&& g.len() <= usize::MAX
    &&& forall|r: int| 0 <= r < g.len() ==> #[trigger] g[r].len() == g.len()
}

proof fn lemma_row_list(g: Seq<Seq<bool>>, r: int, j: int)
    requires
        square(g),
        0 <= r < g.len(),
        0 <= j <= g.len(),
    ensures
        strictly_sorted(row_list(g, r, j)),
        forall|k: int| 0 <= k < row_list(g, r, j).len() ==> (#[trigger] row_list(g, r, j)[k]).0 == r
            && row_list(g, r, j)[k].1 < j,
        forall|p: (usize, usize)| #[trigger] row_list(g, r, j).contains(p) <==> (p.0 == r && p.1 < j && g[r][p.1 as int]),
    decreases j,
{
    if j > 0 {
        lemma_row_list(g, r, j - 1);
        let a = row_list(g, r, j - 1);
        let l = row_list(g, r, j);
        let q = (r as usize, (j - 1) as usize);
        if g[r][j - 1] {
            assert(l == a + seq![q]);
            assert(l =~= a.push(q));
            assert forall|p: (usize, usize)| #[trigger] l.contains(p) <==> (p.0 == r && p.1 < j && g[r][p.1 as int]) by {
                if l.contains(p) {
                    let k = choose|k: int| 0 <= k < l.len() && l[k] == p;
                    if k < a.len() {
                        assert(a[k] == p);
                        assert(a.contains(p));
                    } else {
                        assert(l[k] == q);
                        assert(q.0 as int == r && q.1 as int == j - 1);
                    }
                }
                if p.0 == r && p.1 < j && g[r][p.1 as int] {
                    if p.1 < j - 1 {
                        assert(a.contains(p));
                        let k = choose|k: int| 0 <= k < a.len() && a[k] == p;
                        assert(l[k] == p);
                    } else {
                        assert(l[a.len() as int] == p);
                    }
                }
            }
        } else {
            assert(l =~= a);
            assert forall|p: (usize, usize)| #[trigger] l.contains(p) <==> (p.0 == r && p.1 < j && g[r][p.1 as int]) by {
                if p.0 == r && p.1 < j && g[r][p.1 as int] {
                    assert(p.1 != j - 1);
                    assert(a.contains(p));
                }
            }
        }
    }
}

proof fn lemma_rows_list(g: Seq<Seq<bool>>, i: int)
    requires
        square(g),
        0 <= i <= g.len(),
    ensures
        strictly_sorted(rows_list(g, i)),
        forall|k: int| 0 <= k < rows_list(g, i).len() ==> (#[trigger] rows_list(g, i)[k]).0 < i,
        forall|p: (usize, usize)| #[trigger] rows_list(g, i).contains(p) <==> (p.0 < i && p.1 < g.len() && g[p.0 as int][p.1 as int]),
    decreases i,
{
    if i > 0 {
        lemma_rows_list(g, i - 1);
        lemma_row_list(g, i - 1, g.len() as int);
        let a = rows_list(g, i - 1);
        let b = row_list(g, i - 1, g.len() as int);
        let l = rows_list(g, i);
        assert(g[i - 1].len() == g.len());
        assert(l == a + b);
        assert forall|x: int, y: int| 0 <= x < y < l.len() implies precedes(#[trigger] l[x], #[trigger] l[y]) by {
            if y < a.len() {
                assert(l[x] == a[x] && l[y] == a[y]);
            } else if x >= a.len() {
                assert(l[x] == b[x - a.len()] && l[y] == b[y - a.len()]);
            } else {
                assert(l[x] == a[x] && l[y] == b[y - a.len()]);
            }
        }
        assert forall|k: int| 0 <= k < l.len() implies (#[trigger] l[k]).0 < i by {
            if k < a.len() {
                assert(l[k] == a[k]);
            } else {
                assert(l[k] == b[k - a.len()]);
            }
        }
        assert forall|p: (usize, usize)| #[trigger] l.contains(p) <==> (p.0 < i && p.1 < g.len() && g[p.0 as int][p.1 as int]) by {
            if l.contains(p) {
                let k = choose|k: int| 0 <= k < l.len() && l[k] == p;
                if k < a.len() {
                    assert(a[k] == p);
                    assert(a.contains(p));
                } else {
                    assert(b[k - a.len()] == p);
                    assert(b.contains(p));
                }
            }
            if p.0 < i && p.1 < g.len() && g[p.0 as int][p.1 as int] {
                if p.0 < i - 1 {
                    assert(a.contains(p));
                    let k = choose|k: int| 0 <= k < a.len() && a[k] == p;
                    assert(l[k] == p);
                } else {
                    assert(b.contains(p));
                    let k = choose|k: int| 0 <= k < b.len() && b[k] == p;
                    assert(l[k + a.len()] == p);
                }
            }
        }
    }
}

/// Two strictly sorted sequences with the same elements are equal.
proof fn lemma_sorted_unique(s: Seq<(usize, usize)>, t: Seq<(usize, usize)>)
    requires
        strictly_sorted(s),
        strictly_sorted(t),
        forall|p: (usize, usize)| #[trigger] s.contains(p) <==> t.contains(p),
    ensures
        s == t,
    decreases s.len(),
{
    if s.len() == 0 {
        if t.len() > 0 {
            assert(t.contains(t[0]));
            assert(s.contains(t[0]));
        }
        assert(s =~= t);
    } else {
        assert(s.contains(s[0]));
        assert(t.len() > 0);
        assert(t.contains(t[0]));
        assert(s.contains(t[0]));
        let k = choose|k: int| 0 <= k < t.len() && t[k] == s[0];
        let m = choose|m: int| 0 <= m < s.len() && s[m] == t[0];
        if k > 0 {
            assert(precedes(t[0], t[k]));
            if m > 0 {
                assert(precedes(s[0], s[m]));
            }
            assert(false);
        }
        let s1 = s.subrange(1, s.len() as int);
        let t1 = t.subrange(1, t.len() as int);
        assert forall|x: int, y: int| 0 <= x < y < s1.len() implies precedes(#[trigger] s1[x], #[trigger] s1[y]) by {
            assert(s1[x] == s[x + 1] && s1[y] == s[y + 1]);
        }
        assert forall|x: int, y: int| 0 <= x < y < t1.len() implies precedes(#[trigger] t1[x], #[trigger] t1[y]) by {
            assert(t1[x] == t[x + 1] && t1[y] == t[y + 1]);
        }
        assert forall|p: (usize, usize)| #[trigger] s1.contains(p) <==> t1.contains(p) by {
            if s1.contains(p) {
                let a = choose|a: int| 0 <= a < s1.len() && s1[a] == p;
                assert(s[a + 1] == p);
                assert(precedes(s[0], s[a + 1]));
                assert(s.contains(p));
                assert(t.contains(p));
                let b = choose|b: int| 0 <= b < t.len() && t[b] == p;
                assert(b != 0);
                assert(t1[b - 1] == p);
            }
            if t1.contains(p) {
                let a = choose|a: int| 0 <= a < t1.len() && t1[a] == p;
                assert(t[a + 1] == p);
                assert(precedes(t[0], t[a + 1]));
                assert(t.contains(p));
                assert(s.contains(p));
                let b = choose|b: int| 0 <= b < s.len() && s[b] == p;
                assert(b != 0);
                assert(s1[b - 1] == p);
            }
        }
        lemma_sorted_unique(s1, t1);
        assert(s =~= seq![s[0]] + s1);
        assert(t =~= seq![t[0]] + t1);
    }
}

/// The listing of live cells of a square grid is in strict row-major order
/// and holds exactly the coordinates of its live cells.
pub proof fn lemma_alive_list(g: Seq<Seq<bool>>)
    requires
        square(g),
    ensures
        strictly_sorted(alive_list(g)),
        forall|p: (usize, usize)| #[trigger] alive_list(g).contains(p) <==> (in_bounds(g.len() as int, p) && g[p.0 as int][p.1 as int]),
{
    lemma_rows_list(g, g.len() as int);
}

/// Right after seeding, the listing of live cells is the list of seeds sorted
/// in row-major order with repeats removed: it is the one strictly sorted
/// sequence that holds exactly the seeds.
pub proof fn lemma_seeded_listing(n: nat, seeds: Seq<(usize, usize)>, sorted_seeds: Seq<(usize, usize)>)
    requires
        n <= usize::MAX,
        forall|k: int| 0 <= k < seeds.len() ==> in_bounds(n as int, #[trigger] seeds[k]),
        strictly_sorted(sorted_seeds),
        forall|p: (usize, usize)| #[trigger] sorted_seeds.contains(p) <==> seeds.contains(p),
    ensures
        alive_list(seeded(n, seeds)) == sorted_seeds,
{
    let g = seeded(n, seeds);
    assert(square(g));
    lemma_alive_list(g);
    assert forall|p: (usize, usize)| #[trigger] alive_list(g).contains(p) <==> sorted_seeds.contains(p) by {
        if seeds.contains(p) {
            let k = choose|k: int| 0 <= k < seeds.len() && seeds[k] == p;
            assert(in_bounds(n as int, seeds[k]));
            assert(g[p.0 as int][p.1 as int] == seeds.contains((p.0 as int as usize, p.1 as int as usize)));
        }
        if alive_list(g).contains(p) {
            assert(g[p.0 as int][p.1 as int] == seeds.contains((p.0 as int as usize, p.1 as int as usize)));
        }
    }
    lemma_sorted_unique(alive_list(g), sorted_seeds);
}

/// After a step every border cell is dead, whatever the grid held before.
pub proof fn lemma_border_dies(g: Seq<Seq<bool>>, r: int, c: int)
    requires
        square(g),
        0 <= r < g.len(),
        0 <= c < g.len(),
        r == 0 || c == 0 || r == g.len() - 1 || c == g.len() - 1,
    ensures
        !next_generation(g)[r][c],
{
}

/// A square field of cells, indexed by row then column.
pub struct Field {
    cells: Vec<Vec<Cell>>,
}

impl View for Field {
    type V = Seq<Seq<bool>>;

    closed spec fn view(&self) -> Seq<Seq<bool>> {
        self.cells@.map_values(|row: Vec<Cell>| row@.map_values(|c: Cell| c.alive()))
    }
}

impl Field {
    pub closed spec fn side(&self) -> int {
        self.cells@.len() as int
    }

    /// The field is square and not empty.
    pub closed spec fn wf(&self) -> bool {
        &&& self.cells@.len() >= 1
        &&& forall|r: int| 0 <= r < self.cells@.len() ==> #[trigger] self.cells@[r]@.len() == self.cells@.len()
    }

    pub closed spec fn cell(&self, r: int, c: int) -> Cell {
        self.cells@[r]@[c]
    }

    /// A field of side `size` with every cell dead and no neighbours counted.
    fn dead(size: usize) -> (f: Field)
        requires
            size >= 1,
        ensures
            f.wf(),
            f.side() == size,
            forall|r: int, c: int| 0 <= r < size && 0 <= c < size ==> !(#[trigger] f.cell(r, c)).alive()
                && f.cell(r, c).num_neighbors == 0,
    {
        let mut cells: Vec<Vec<Cell>> = Vec::new();
        let mut i: usize = 0;
        while i < size
            invariant
                i <= size,
                cells@.len() == i,
                forall|r: int| 0 <= r < i ==> #[trigger] cells@[r]@.len() == size,
                forall|r: int, c: int| 0 <= r < i && 0 <= c < size ==> !(#[trigger] cells@[r]@[c]).alive()
                    && cells@[r]@[c].num_neighbors == 0,
            decreases size - i,
        {
            let mut row: Vec<Cell> = Vec::new();
            let mut j: usize = 0;
            while j < size
                invariant
                    j <= size,
                    row@.len() == j,
                    forall|c: int| 0 <= c < j ==> !(#[trigger] row@[c]).alive() && row@[c].num_neighbors == 0,
                decreases size - j,
            {
                row.push(Cell::default());
                j += 1;
            }
            cells.push(row);
            i += 1;
        }
        Field { cells }
    }

    /// Replaces the cell at `(r, c)`.
    fn set_cell(&mut self, r: usize, c: usize, cell: Cell)
        requires
            old(self).wf(),
            r < old(self).side(),
            c < old(self).side(),
        ensures
            final(self).wf(),
            final(self).side() == old(self).side(),
            forall|i: int, j: int| #![trigger final(self).cell(i, j)]
                0 <= i < old(self).side() && 0 <= j < old(self).side() ==> final(self).cell(i, j) == if i == r && j == c {
                    cell
                } else {
                    old(self).cell(i, j)
                },
    {
        let mut row: Vec<Cell> = Vec::new();
        std::mem::swap(&mut row, &mut self.cells[r]);
        row.set(c, cell);
        std::mem::swap(&mut row, &mut self.cells[r]);
    }

    /// The view of a well-formed field is a square grid of the cells' states.
    proof fn lemma_view(&self)
        requires
            self.wf(),
        ensures
            self@.len() == self.side(),
            forall|r: int| 0 <= r < self.side() ==> #[trigger] self@[r].len() == self.side(),
            forall|r: int, c: int| 0 <= r < self.side() && 0 <= c < self.side() ==> #[trigger] self@[r][c] == self.cell(r, c).alive(),
    {
    }

    /// A field of side `size` whose live cells are those listed in
    /// `coord_alive_cells`; listing a cell twice is harmless. Fails with the
    /// first listed coordinate that lies outside the field.
    pub fn new(size: usize, coord_alive_cells: &[(usize, usize)]) -> (r: Result<Field, OutOfBounds>)
        requires
            size >= 1,
        ensures
            r is Ok <==> forall|k: int| 0 <= k < coord_alive_cells@.len() ==> in_bounds(size as int, #[trigger] coord_alive_cells@[k]),
            r matches Ok(f) ==> f.wf() && f.side() == size && f@ == seeded(size as nat, coord_alive_cells@),
            r matches Err(e) ==> exists|k: int| 0 <= k < coord_alive_cells@.len() && #[trigger] coord_alive_cells@[k] == (e.row, e.column)
                && !in_bounds(size as int, coord_alive_cells@[k])
                && forall|m: int| 0 <= m < k ==> in_bounds(size as int, #[trigger] coord_alive_cells@[m]),
    {
        let mut f = Field::dead(size);
        let mut i: usize = 0;
        while i < coord_alive_cells.len()
            invariant
                i <= coord_alive_cells@.len(),
                f.wf(),
                f.side() == size,
                forall|m: int| 0 <= m < i ==> in_bounds(size as int, #[trigger] coord_alive_cells@[m]),
                forall|r: int, c: int| 0 <= r < size && 0 <= c < size ==> (#[trigger] f.cell(r, c)).alive()
                    == coord_alive_cells@.subrange(0, i as int).contains((r as usize, c as usize)),
            decreases coord_alive_cells@.len() - i,
        {
            let (row, column) = coord_alive_cells[i];
            if row >= size || column >= size {
                return Err(OutOfBounds { row, column });
            }
            let mut cell = f.cells[row][column];
            cell.bring_to_life();
            f.set_cell(row, column, cell);
            proof {
                let prev = coord_alive_cells@.subrange(0, i as int);
                let next = coord_alive_cells@.subrange(0, i + 1);
                assert(next =~= prev.push(coord_alive_cells@[i as int]));
                assert forall|r: int, c: int| 0 <= r < size && 0 <= c < size implies (#[trigger] f.cell(r, c)).alive()
                    == next.contains((r as usize, c as usize)) by {
                    if r == row && c == column {
                        assert(next[i as int] == (r as usize, c as usize));
                    } else if next.contains((r as usize, c as usize)) {
                        let k = choose|k: int| 0 <= k < next.len() && next[k] == (r as usize, c as usize);
                        assert(k < i);
                        assert(prev[k] == next[k]);
                    } else {
                        if prev.contains((r as usize, c as usize)) {
                            let k = choose|k: int| 0 <= k < prev.len() && prev[k] == (r as usize, c as usize);
                            assert(next[k] == prev[k]);
                        }
                    }
                }
            }
            i += 1;
        }
        proof {
            f.lemma_view();
            assert(coord_alive_cells@.subrange(0, i as int) =~= coord_alive_cells@);
            let g = seeded(size as nat, coord_alive_cells@);
            assert forall|r: int| 0 <= r < size implies #[trigger] f@[r] =~= g[r] by {
                assert forall|c: int| 0 <= c < size implies f@[r][c] == g[r][c] by {
                    assert(f@[r][c] == f.cell(r, c).alive());
                }
            }
            assert(f@ =~= g);
        }
        Ok(f)
    }

    /// Sets every cell's neighbour count for the next generation, reading the
    /// states of the current one: interior cells get the number of their live
    /// neighbours, border cells get zero. No cell changes state.
    pub fn update_num_neighbors(&mut self)
        requires
            old(self).wf(),
        ensures
            final(self).wf(),
            final(self).side() == old(self).side(),
            final(self)@ == old(self)@,
            forall|r: int, c: int| 0 <= r < old(self).side() && 0 <= c < old(self).side()
                ==> (#[trigger] final(self).cell(r, c)).num_neighbors == step_count(old(self)@, r, c),
    {
        let size = self.cells.len();
        proof {
            self.lemma_view();
        }
        let mut next: Vec<Vec<Cell>> = Vec::new();
        let mut i: usize = 0;
        while i < size
            invariant
                self.wf(),
                size == self.side(),
                i <= size,
                next@.len() == i,
                forall|r: int| 0 <= r < i ==> #[trigger] next@[r]@.len() == size,
                forall|r: int, c: int| 0 <= r < i && 0 <= c < size ==> (#[trigger] next@[r]@[c]).alive() == self.cell(r, c).alive()
                    && next@[r]@[c].num_neighbors == step_count(self@, r, c),
            decreases size - i,
        {
            let mut row: Vec<Cell> = Vec::new();
            let mut j: usize = 0;
            while j < size
                invariant
                    self.wf(),
                    size == self.side(),
                    i < size,
                    j <= size,
                    row@.len() == j,
                    forall|c: int| 0 <= c < j ==> (#[trigger] row@[c]).alive() == self.cell(i as int, c).alive()
                        && row@[c].num_neighbors == step_count(self@, i as int, c),
                decreases size - j,
            {
                proof {
                    self.lemma_view();
                }
                let mut cell = self.cells[i][j];
                cell.num_neighbors = 0;
                if 1 <= i && i + 1 < size && 1 <= j && j + 1 < size {
                    cell.consider_neighbor(&self.cells[i - 1][j - 1]);
                    cell.consider_neighbor(&self.cells[i - 1][j]);
                    cell.consider_neighbor(&self.cells[i - 1][j + 1]);

                    cell.consider_neighbor(&self.cells[i][j - 1]);
                    cell.consider_neighbor(&self.cells[i][j + 1]);

                    cell.consider_neighbor(&self.cells[i + 1][j - 1]);
                    cell.consider_neighbor(&self.cells[i + 1][j]);
                    cell.consider_neighbor(&self.cells[i + 1][j + 1]);
                }
                row.push(cell);
                j += 1;
            }
            next.push(row);
            i += 1;
        }
        let ghost before = *self;
        self.cells = next;
        proof {
            before.lemma_view();
            self.lemma_view();
            assert forall|r: int| 0 <= r < size implies #[trigger] self@[r] =~= before@[r] by {
                assert forall|c: int| 0 <= c < size implies self@[r][c] == before@[r][c] by {
                    assert(self@[r][c] == self.cell(r, c).alive());
                    assert(before@[r][c] == before.cell(r, c).alive());
                }
            }
            assert(self@ =~= before@);
        }
    }

    /// Advances the field by one generation. Every cell's next state is
    /// computed from the current generation as a whole; border cells die.
    pub fn update(&mut self)
        requires
            old(self).wf(),
        ensures
            final(self).wf(),
            final(self).side() == old(self).side(),
            final(self)@ == next_generation(old(self)@),
    {
        let ghost g = self@;
        self.update_num_neighbors();
        let size = self.cells.len();
        let mut next: Vec<Vec<Cell>> = Vec::new();
        let mut i: usize = 0;
        while i < size
            invariant
                self.wf(),
                size == self.side(),
                i <= size,
                next@.len() == i,
                forall|r: int| 0 <= r < i ==> #[trigger] next@[r]@.len() == size,
                forall|r: int, c: int| 0 <= r < i && 0 <= c < size ==> (#[trigger] next@[r]@[c]).alive() == transition(
                    self.cell(r, c).alive(),
                    self.cell(r, c).num_neighbors as int,
                ),
            decreases size - i,
        {
            let mut row: Vec<Cell> = Vec::new();
            let mut j: usize = 0;
            while j < size
                invariant
                    self.wf(),
                    size == self.side(),
                    i < size,
                    j <= size,
                    row@.len() == j,
                    forall|c: int| 0 <= c < j ==> (#[trigger] row@[c]).alive() == transition(
                        self.cell(i as int, c).alive(),
                        self.cell(i as int, c).num_neighbors as int,
                    ),
                decreases size - j,
            {
                let mut cell = self.cells[i][j];
                cell.update_state();
                row.push(cell);
                j += 1;
            }
            next.push(row);
            i += 1;
        }
        proof {
            self.lemma_view();
        }
        let ghost counted = *self;
        self.cells = next;
        proof {
            let n = next_generation(g);
            assert forall|r: int| 0 <= r < size implies #[trigger] self@[r] =~= n[r] by {
                assert forall|c: int| 0 <= c < size implies self@[r][c] == n[r][c] by {
                    assert(counted@[r][c] == counted.cell(r, c).alive());
                }
            }
            assert(self@ =~= n);
        }
    }

    /// The coordinates of the live cells, in row-major order.
    pub fn coord_alive_cells(&self) -> (r: Vec<(usize, usize)>)
        requires
            self.wf(),
        ensures
            r@ == alive_list(self@),
    {
        let size = self.cells.len();
        proof {
            self.lemma_view();
        }
        let mut out: Vec<(usize, usize)> = Vec::new();
        let mut i: usize = 0;
        while i < size
            invariant
                self.wf(),
                size == self.side(),
                i <= size,
                out@ == rows_list(self@, i as int),
            decreases size - i,
        {
            let mut j: usize = 0;
            while j < size
                invariant
                    self.wf(),
                    size == self.side(),
                    i < size,
                    j <= size,
                    out@ == rows_list(self@, i as int) + row_list(self@, i as int, j as int),
                decreases size - j,
            {
                proof {
                    self.lemma_view();
                }
                if self.cells[i][j].is_alive() {
                    out.push((i, j));
                }
                proof {
                    let a = rows_list(self@, i as int);
                    let b = row_list(self@, i as int, j as int);
                    let b2 = row_list(self@, i as int, j + 1);
                    if self@[i as int][j as int] {
                        assert(b2 == b + seq![(i, j)]);
                        assert(out@ =~= a + b2);
                    } else {
                        assert(b2 =~= b);
                    }
                }
                j += 1;
            }
            proof {
                self.lemma_view();
                assert(rows_list(self@, i + 1) == rows_list(self@, i as int) + row_list(self@, i as int, size as int));
            }
            i += 1;
        }
        out
    }

    /// The side length of the field.
    pub fn size(&self) -> (r: usize)
        requires
            self.wf(),
        ensures
            r == self.side(),
            r == self@.len(),
    {
        proof {
            self.lemma_view();
        }
        self.cells.len()
    }

    /// Whether the cell at `(row, column)` is alive.
    pub fn is_alive_at(&self, row: usize, column: usize) -> (r: Result<bool, OutOfBounds>)
        requires
            self.wf(),
        ensures
            in_bounds(self.side(), (row, column)) ==> r == Ok::<bool, OutOfBounds>(self@[row as int][column as int]),
            !in_bounds(self.side(), (row, column)) ==> r == Err::<bool, OutOfBounds>(OutOfBounds { row, column }),
    {
        proof {
            self.lemma_view();
        }
        if row >= self.cells.len() || column >= self.cells.len() {
            return Err(OutOfBounds { row, column });
        }
        Ok(self.cells[row][column].is_alive())
    }

    /// The cell at `(row, column)`, with its state and its last neighbour count.
    pub fn cell_at(&self, row: usize, column: usize) -> (r: Result<Cell, OutOfBounds>)
        requires
            self.wf(),
        ensures
            in_bounds(self.side(), (row, column)) ==> r == Ok::<Cell, OutOfBounds>(self.cell(row as int, column as int)),
            !in_bounds(self.side(), (row, column)) ==> r == Err::<Cell, OutOfBounds>(OutOfBounds { row, column }),
    {
        if row >= self.cells.len() || column >= self.cells.len() {
            return Err(OutOfBounds { row, column });
        }
        Ok(self.cells[row][column])
    }

    /// Brings the cell at `(row, column)` to life; every other cell is left
    /// as it was.
    pub fn bring_to_life_at(&mut self, row: usize, column: usize) -> (r: Result<(), OutOfBounds>)
        requires
            old(self).wf(),
        ensures
            final(self).wf(),
            final(self).side() == old(self).side(),
            in_bounds(old(self).side(), (row, column)) ==> r is Ok && final(self)@ == old(self)@.update(
                row as int,
                old(self)@[row as int].update(column as int, true),
            ),
            !in_bounds(old(self).side(), (row, column)) ==> r == Err::<(), OutOfBounds>(OutOfBounds { row, column })
                && final(self)@ == old(self)@,
    {
        if row >= self.cells.len() || column >= self.cells.len() {
            return Err(OutOfBounds { row, column });
        }
        let ghost before = *self;
        let mut cell = self.cells[row][column];
        cell.bring_to_life();
        self.set_cell(row, column, cell);
        proof {
            before.lemma_view();
            self.lemma_view();
            let u = before@.update(row as int, before@[row as int].update(column as int, true));
            assert forall|i: int| 0 <= i < self.side() implies #[trigger] self@[i] =~= u[i] by {
                assert forall|j: int| 0 <= j < self.side() implies self@[i][j] == u[i][j] by {
                    assert(self@[i][j] == self.cell(i, j).alive());
                    assert(before@[i][j] == before.cell(i, j).alive());
                }
            }
            assert(self@ =~= u);
        }
        Ok(())
    }
}

} // verus!
