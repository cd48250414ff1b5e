use vstd::prelude::*;
use crate::square::Square;
use crate::grid::{Grid, Position};
use crate::search::{next_step_toward_nearest_destination, reaches_goal, good_step};
use crate::walk::{random_step, walk_ok};

verus! {

/// How every agent picks its next cell.
#[derive(Copy, Clone, Debug, PartialEq, Eq, Structural)]
pub enum Strategy {
    RandomWalk,
    ShortestPath,
}

/// A grid and the agents that move on it, in a fixed order.
pub struct Simulation {
    pub grid: Grid,
    pub agents: Vec<Position>,
    pub strategy: Strategy,
}

/// A cell an agent may stand on: inside the grid and not a Wall.
pub open spec fn standable(g: &Grid, p: Position) -> bool {
    g.contains(p) && g.square(p) != Square::Wall
}

/// What one tick may do to an agent at `p`, given the strategy.
pub open spec fn tick_ok(g: &Grid, s: Strategy, p: Position, n: Position) -> bool {
    match s {
        Strategy::RandomWalk => walk_ok(g, p, n),
        Strategy::ShortestPath => if reaches_goal(g, p) {
            good_step(g, p, n)
        } else {
            n == p
        },
    }
}

impl Simulation {
    pub open spec fn wf(&self) -> bool {
        &&& self.grid.wf()
        &&& forall|i: int| 0 <= i < self.agents@.len() ==> standable(&self.grid, #[trigger] self.agents@[i])
    }

    /// A simulation with the given agents; `None` when one of them stands
    /// outside the grid or on a Wall.
    pub fn new(grid: Grid, agents: Vec<Position>, strategy: Strategy) -> (r: Option<Simulation>)
        requires
            grid.wf(),
        ensures
            r is Some <==> forall|i: int| 0 <= i < agents@.len() ==> standable(&grid, #[trigger] agents@[i]),
            r matches Some(s) ==> s.wf() && s.grid@ == grid@ && s.grid.spec_width() == grid.spec_width()
                && s.agents@ == agents@ && s.strategy == strategy,
    {
        let mut i: usize = 0;
        while i < agents.len()
            invariant
                grid.wf(),
                i <= agents@.len(),
                forall|j: int| 0 <= j < i ==> standable(&grid, #[trigger] agents@[j]),
            decreases agents@.len() - i,
        {
            let p = agents[i];
            match grid.terrain_at(p) {
                Ok(sq) => {
                    if sq == Square::Wall {
                        return None;
                    }
                },
                Err(_) => {
                    return None;
                },
            }
            i = i + 1;
        }
        Some(Simulation { grid, agents, strategy })
    }

    /// One agent's next cell under the configured strategy. Under the
    /// shortest-path strategy an agent that can reach no Destination stays
    /// where it is for this tick.
    pub fn step_agent(&self, p: Position) -> (r: Position)
        requires
            self.grid.wf(),
            standable(&self.grid, p),
        ensures
            tick_ok(&self.grid, self.strategy, p, r),
            standable(&self.grid, r),
    {
        match self.strategy {
            Strategy::RandomWalk => random_step(&self.grid, p),
            Strategy::ShortestPath => match next_step_toward_nearest_destination(&self.grid, p) {
                Ok(n) => n,
                Err(_) => p,
            },
        }
    }

    /// Moves every agent once, in order, each on its own.
    pub fn advance(&mut self)
        requires
            old(self).wf(),
        ensures
            final(self).wf(),
            final(self).grid == old(self).grid,
            final(self).strategy == old(self).strategy,
            final(self).agents@.len() == old(self).agents@.len(),
            forall|i: int| 0 <= i < old(self).agents@.len() ==>
                tick_ok(&old(self).grid, old(self).strategy, old(self).agents@[i], #[trigger] final(self).agents@[i]),
    {
        let ghost start = self.agents@;
        let mut i: usize = 0;
        while i < self.agents.len()
            invariant
                self.grid == old(self).grid,
                self.strategy == old(self).strategy,
                self.grid.wf(),
                start == old(self).agents@,
                self.agents@.len() == start.len(),
                i <= start.len(),
                forall|j: int| 0 <= j < start.len() ==> standable(&self.grid, #[trigger] self.agents@[j]),
                forall|j: int| 0 <= j < start.len() ==> standable(&self.grid, #[trigger] start[j]),
                forall|j: int| i <= j < start.len() ==> #[trigger] self.agents@[j] == start[j],
                forall|j: int| 0 <= j < i ==> tick_ok(&self.grid, self.strategy, start[j], #[trigger] self.agents@[j]),
            decreases start.len() - i,
        {
            let n = self.step_agent(self.agents[i]);
            self.agents.set(i, n);
            i = i + 1;
        }
    }

    pub fn agents(&self) -> (r: &Vec<Position>)
        ensures
            r@ == self.agents@,
    {
        &self.agents
    }

    pub fn grid(&self) -> (r: &Grid)
        ensures
            r == &self.grid,
    {
        &self.grid
    }
}

} // verus!
