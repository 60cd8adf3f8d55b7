use crate::field::{alive_list, in_bounds, next_generation, seeded, Field, OutOfBounds};
use crate::pattern::{lines, parse_pattern, pattern_cells};
use vstd::prelude::*;

verus! {

/// How many generations a new game is set to run for.
pub const DEFAULT_NUM_ITERATIONS: u32 = 20;

/// Why a pattern text does not describe a game.
#[derive(Debug, Clone, Copy, PartialEq, Eq)]
pub enum PatternError {
    /// The text has no line, so the field would have no cell.
    Empty,
    /// A live cell lies outside the square field that the lines span.
    OutOfBounds(OutOfBounds),
}

/// A game of life: a field and the number of generations to run it for.
pub struct Game {
    field: Field,
    max_num_iterations: u32,
}

impl View for Game {
    type V = Seq<Seq<bool>>;

    closed spec fn view(&self) -> Seq<Seq<bool>> {
        self.field@
    }
}

impl Game {
    pub closed spec fn wf(&self) -> bool {
        self.field.wf()
    }

    pub closed spec fn side(&self) -> int {
        self.field.side()
    }

    pub closed spec fn iterations(&self) -> u32 {
        self.max_num_iterations
    }

    /// A game on a field of side `size` whose live cells are those listed in
    /// `coord_alive_cells`, set to run for the default number of generations.
    /// Fails with the first listed coordinate that lies outside the field.
    pub fn new(size: usize, coord_alive_cells: &[(usize, usize)]) -> (r: Result<Game, OutOfBounds>)
        requires
            size >= 1,
        ensures
            r is Ok <==> forall|k: int| 0 <= k < coord_alive_cells@.len() ==> in_bounds(size as int, #[trigger] coord_alive_cells@[k]),
            r matches Ok(g) ==> g.wf() && g.side() == size && g@ == seeded(size as nat, coord_alive_cells@)
                && g.iterations() == DEFAULT_NUM_ITERATIONS,
            r matches Err(e) ==> exists|k: int| 0 <= k < coord_alive_cells@.len() && #[trigger] coord_alive_cells@[k] == (e.row, e.column)
                && !in_bounds(size as int, coord_alive_cells@[k])
                && forall|m: int| 0 <= m < k ==> in_bounds(size as int, #[trigger] coord_alive_cells@[m]),
    {
        match Field::new(size, coord_alive_cells) {
            Ok(field) => Ok(Game { field, max_num_iterations: DEFAULT_NUM_ITERATIONS }),
            Err(e) => Err(e),
        }
    }

    /// A game read from a pattern text: the field's side is the number of
    /// lines, and each `x` token marks a live cell (see `pattern_cells`).
    pub fn from_pattern(text: &[u8]) -> (r: Result<Game, PatternError>)
        ensures
            lines(text@).len() == 0 ==> r == Err::<Game, PatternError>(PatternError::Empty),
            lines(text@).len() > 0 ==> {
                let size = lines(text@).len() as int;
                let cells = pattern_cells(text@);
                &&& r is Ok <==> forall|k: int| 0 <= k < cells.len() ==> in_bounds(size, #[trigger] cells[k])
                &&& r matches Ok(g) ==> g.wf() && g.side() == size && g@ == seeded(size as nat, cells)
                    && g.iterations() == DEFAULT_NUM_ITERATIONS
                &&& r matches Err(e) ==> exists|k: int| 0 <= k < cells.len() && #[trigger] cells[k] == (e->OutOfBounds_0.row, e->OutOfBounds_0.column)
                    && !in_bounds(size, cells[k])
                    && forall|m: int| 0 <= m < k ==> in_bounds(size, #[trigger] cells[m])
            },
    {
        let (size, cells) = parse_pattern(text);
        if size == 0 {
            return Err(PatternError::Empty);
        }
        match Game::new(size, cells.as_slice()) {
            Ok(g) => Ok(g),
            Err(e) => Err(PatternError::OutOfBounds(e)),
        }
    }

    /// Advances the game by one generation.
    pub fn next(&mut self)
        requires
            old(self).wf(),
        ensures
            final(self).wf(),
            final(self).side() == old(self).side(),
            final(self)@ == next_generation(old(self)@),
            final(self).iterations() == old(self).iterations(),
    {
        self.field.update();
    }

    /// The coordinates of the live cells, in row-major order.
    pub fn coord_alive_cells(&self) -> (r: Vec<(usize, usize)>)
        requires
            self.wf(),
        ensures
            r@ == alive_list(self@),
    {
        self.field.coord_alive_cells()
    }

    pub fn set_max_num_iterations(&mut self, max_num_iterations: u32)
        ensures
            final(self).iterations() == max_num_iterations,
            final(self)@ == old(self)@,
            final(self).wf() == old(self).wf(),
            final(self).side() == old(self).side(),
    {
        self.max_num_iterations = max_num_iterations;
    }

    /// How many generations the game is set to run for.
    pub fn max_num_iterations(&self) -> (r: u32)
        ensures
            r == self.iterations(),
    {
        self.max_num_iterations
    }

    /// The field the game is played on.
    pub fn field(&self) -> (r: &Field)
        ensures
            r@ == self@,
            r.wf() == self.wf(),
            r.side() == self.side(),
    {
        &self.field
    }
}

} // verus!
