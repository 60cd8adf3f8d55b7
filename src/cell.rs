use vstd::prelude::*;

verus! {

/// Whether a cell is alive in the next generation, given whether it is alive
/// now and how many of its neighbours are alive now: birth on exactly three,
/// survival on two or three, death otherwise.
pub open spec fn transition(alive: bool, neighbors: int) -> bool {
    neighbors == 3 || (neighbors == 2 && alive)
}

/// The transition rule written out as a table over every count a Moore
/// neighbourhood can produce.
pub proof fn lemma_transition_table(alive: bool, neighbors: int)
    requires
        0 <= neighbors <= 8,
    ensures
        neighbors <= 1 ==> !transition(alive, neighbors),
        neighbors == 2 ==> transition(alive, neighbors) == alive,
        neighbors == 3 ==> transition(alive, neighbors),
        neighbors >= 4 ==> !transition(alive, neighbors),
{
}

/// Whether a cell is alive or dead.
#[derive(Clone, Copy, PartialEq, Eq, Structural)]
pub enum State {
    Alive,
    Dead,
}

/// One cell of the field: its state and the number of live neighbours counted
/// for the generation being computed.
#[derive(Clone, Copy)]
pub struct Cell {
    pub state: State,
    pub num_neighbors: i8,
}

impl Cell {
    pub open spec fn alive(self) -> bool {
        self.state is Alive
    }

    pub fn new() -> (r: Cell)
        ensures
            !r.alive(),
            r.num_neighbors == 0,
    {
        Cell { state: State::Dead, num_neighbors: 0 }
    }

    /// Applies the transition rule to the current state and neighbour count.
    pub fn update_state(&mut self)
        ensures
            final(self).alive() == transition(old(self).alive(), old(self).num_neighbors as int),
            final(self).num_neighbors == old(self).num_neighbors,
    {
        if self.num_neighbors == 3 || (self.num_neighbors == 2 && self.is_alive()) {
            self.state = State::Alive;
        } else {
            self.state = State::Dead;
        }
    }

    pub fn is_alive(&self) -> (r: bool)
        ensures
            r == self.alive(),
    {
        match self.state {
            State::Alive => true,
            State::Dead => false,
        }
    }

    pub fn bring_to_life(&mut self)
        ensures
            final(self).alive(),
            final(self).num_neighbors == old(self).num_neighbors,
    {
        self.state = State::Alive;
    }

    pub fn kill(&mut self)
        ensures
            !final(self).alive(),
            final(self).num_neighbors == old(self).num_neighbors,
    {
        self.state = State::Dead;
    }

    /// Counts `neighbor` if it is alive; the neighbour itself is not touched.
    pub fn consider_neighbor(&mut self, neighbor: &Cell)
        requires
            old(self).num_neighbors < i8::MAX,
        ensures
            final(self).alive() == old(self).alive(),
            final(self).num_neighbors == old(self).num_neighbors + if neighbor.alive() {
                1int
            } else {
                0int
            },
    {
        if neighbor.is_alive() {
            self.num_neighbors += 1;
        }
    }
}

impl Default for Cell {
    fn default() -> (r: Cell)
        ensures
            !r.alive(),
            r.num_neighbors == 0,
    {
        Cell::new()
    }
}

} // verus!
