//! A puzzle definition, built block by block, and the entry point of the search.
use vstd::prelude::*;
use crate::board::{arrow_at, small_goal, tiles, Arrow, Block, Direction, Tile};
use crate::search::{astar, budget_of, is_goal, outcome, reach, run, within};

verus! {

/// A cell of the grid, as `[x, y]`.
pub type Position2D = [i32; 2];

/// The name of a block.
pub type Color = String;

/// What a puzzle holds, as mathematical values.
pub struct GameModel {
    pub colors: Seq<Seq<char>>,
    pub blocks: Seq<Tile>,
    pub goals: Seq<Option<(i64, i64)>>,
    pub arrows: Seq<Arrow>,
}

/// A puzzle: named blocks with their start and optional goal, and the arrows on the grid.
#[derive(Debug)]
pub struct Game {
    goals: Vec<Option<(i64, i64)>>,
    arrows: Vec<Arrow>,
    colors: Vec<Color>,
    initial_state: Vec<Block>,
}

pub open spec fn names(colors: Seq<String>) -> Seq<Seq<char>> {
    colors.map_values(|c: String| c@)
}

pub open spec fn start_tile(direction: Direction, p: Position2D) -> Tile {
    Tile { x: p@[0] as int, y: p@[1] as int, dir: direction }
}

pub open spec fn goal_of(p: Option<Position2D>) -> Option<(i64, i64)> {
    match p {
        Some(q) => Some((q@[0] as i64, q@[1] as i64)),
        None => None,
    }
}

/// The names of the blocks of `moves`, in order.
pub open spec fn moved_colors(colors: Seq<Seq<char>>, moves: Seq<usize>) -> Seq<Seq<char>> {
    moves.map_values(|m: usize| colors[m as int])
}

impl View for Game {
    type V = GameModel;

    closed spec fn view(&self) -> GameModel {
        GameModel {
            colors: names(self.colors@),
            blocks: tiles(self.initial_state@),
            goals: self.goals@,
            arrows: self.arrows@,
        }
    }
}

impl Game {
    /// Block names are distinct, every block has a goal slot, and all cells fit in `i32`.
    pub closed spec fn wf(&self) -> bool {
        &&& self.colors.len() == self.initial_state.len()
        &&& self.colors.len() == self.goals.len()
        &&& forall|i: int, j: int|
            0 <= i < j < self.colors.len() ==> self.colors@[i]@ != self.colors@[j]@
        &&& within(self.initial_state@, reach(0))
        &&& forall|i: int| 0 <= i < self.goals.len() ==> small_goal(#[trigger] self.goals@[i])
        &&& forall|i: int|
            0 <= i < self.initial_state.len() ==> i32::MIN <= (#[trigger] self.initial_state@[i]).x
                <= i32::MAX && i32::MIN <= self.initial_state@[i].y <= i32::MAX
        &&& forall|i: int|
            0 <= i < self.goals.len() && (#[trigger] self.goals@[i]) is Some ==> i32::MIN
                <= self.goals@[i]->Some_0.0 <= i32::MAX && i32::MIN <= self.goals@[i]->Some_0.1
                <= i32::MAX
    }

    /// An empty puzzle.
    pub fn new() -> (r: Self)
        ensures
            r.wf(),
            r@.colors.len() == 0,
            r@.blocks.len() == 0,
            r@.goals.len() == 0,
            r@.arrows.len() == 0,
    {
        let r = Game {
            goals: Vec::new(),
            arrows: Vec::new(),
            colors: Vec::new(),
            initial_state: Vec::new(),
        };
        assert(names(r.colors@) =~= Seq::<Seq<char>>::empty());
        assert(tiles(r.initial_state@) =~= Seq::<Tile>::empty());
        r
    }

    fn index_of(&self, color: &Color) -> (r: Option<usize>)
        ensures
            match r {
                Some(i) => i < self.colors.len() && self.colors@[i as int]@ == color@,
                None => forall|i: int| 0 <= i < self.colors.len() ==> self.colors@[i]@ != color@,
            },
    {
        let mut i: usize = 0;
        while i < self.colors.len()
            invariant
                i <= self.colors.len(),
                forall|j: int| 0 <= j < i ==> self.colors@[j]@ != color@,
            decreases self.colors.len() - i,
        {
            if self.colors[i] == *color {
                return Some(i);
            }
            i = i + 1;
        }
        None
    }

    /// Adds a block, or, where a block of that name exists, replaces its start and goal.
    pub fn add_block(
        &mut self,
        color: Color,
        direction: Direction,
        starting_position: Position2D,
        goal_position: Option<Position2D>,
    )
        requires
            old(self).wf(),
        ensures
            final(self).wf(),
            final(self)@.arrows == old(self)@.arrows,
            forall|i: int|
                0 <= i < old(self)@.colors.len() && old(self)@.colors[i] == color@ ==> {
                    &&& final(self)@.colors == old(self)@.colors
                    &&& final(self)@.blocks == old(self)@.blocks.update(
                        i,
                        start_tile(direction, starting_position),
                    )
                    &&& final(self)@.goals == old(self)@.goals.update(i, goal_of(goal_position))
                },
            (forall|i: int| 0 <= i < old(self)@.colors.len() ==> old(self)@.colors[i] != color@)
                ==> {
                &&& final(self)@.colors == old(self)@.colors.push(color@)
                &&& final(self)@.blocks == old(self)@.blocks.push(
                    start_tile(direction, starting_position),
                )
                &&& final(self)@.goals == old(self)@.goals.push(goal_of(goal_position))
            },
    {
        let block = Block {
            x: starting_position[0] as i64,
            y: starting_position[1] as i64,
            direction,
        };
        let goal = match goal_position {
            Some(g) => Some((g[0] as i64, g[1] as i64)),
            None => None,
        };
        let ghost before = *self;
        match self.index_of(&color) {
            None => {
                self.colors.push(color);
                self.initial_state.push(block);
                self.goals.push(goal);
                assert(names(self.colors@) =~= names(before.colors@).push(color@));
                assert(tiles(self.initial_state@) =~= tiles(before.initial_state@).push(block@));
                assert forall|i: int|
                    0 <= i < self.initial_state.len() implies i32::MIN <= (
                    #[trigger] self.initial_state@[i]).x <= i32::MAX && i32::MIN
                    <= self.initial_state@[i].y <= i32::MAX by {
                    if i < before.initial_state.len() {
                        assert(self.initial_state@[i] == before.initial_state@[i]);
                    }
                }
            },
            Some(i) => {
                assert(names(before.colors@)[i as int] == color@);
                self.initial_state.set(i, block);
                self.goals.set(i, goal);
                assert(tiles(self.initial_state@) =~= tiles(before.initial_state@).update(
                    i as int,
                    block@,
                ));
                assert forall|j: int|
                    0 <= j < before.colors.len() && names(before.colors@)[j] == color@ implies j
                    == i by {
                    if j != i {
                        assert(before.colors@[j]@ == before.colors@[i as int]@);
                    }
                }
            },
        }
    }

    /// Paints an arrow on a cell, replacing any arrow already there.
    pub fn add_arrow(&mut self, direction: Direction, position: Position2D)
        requires
            old(self).wf(),
        ensures
            final(self).wf(),
            final(self)@.colors == old(self)@.colors,
            final(self)@.blocks == old(self)@.blocks,
            final(self)@.goals == old(self)@.goals,
            forall|x: int, y: int|
                arrow_at(final(self)@.arrows, x, y) == if x == position@[0] && y == position@[1] {
                    Some(direction)
                } else {
                    arrow_at(old(self)@.arrows, x, y)
                },
    {
        let ghost before = self.arrows@;
        self.arrows.push(Arrow { x: position[0] as i64, y: position[1] as i64, direction });
        assert(self.arrows@.drop_last() =~= before);
    }

    /// Searches for the blocks to move, in order, to bring every block with a goal onto it
    /// within `max_moves` moves; `None` when the search runs out of configurations.
    /// A configuration generated a second time is dropped even where it was reached more
    /// cheaply, so a shorter solution than the one returned may exist, and one within the
    /// budget may exist where `None` comes back.
    pub fn solve(&self, max_moves: i32) -> (r: Option<Vec<Color>>)
        requires
            self.wf(),
        ensures
            is_goal(self@.blocks, self@.goals) ==> (r matches Some(p) && p@.len() == 0),
            r matches Some(p) ==> exists|moves: Seq<usize>|
                {
                    &&& forall|i: int| 0 <= i < moves.len() ==> moves[i] < self@.colors.len()
                    &&& names(p@) == moved_colors(self@.colors, moves)
                    &&& is_goal(run(self@.arrows, self@.blocks, moves), self@.goals)
                    &&& moves.len() <= budget_of(max_moves)
                },
            match r {
                Some(p) => outcome(self@.arrows, self@.goals, self@.blocks, max_moves) matches Some(
                    moves,
                ) && names(p@) == moved_colors(self@.colors, moves),
                None => outcome(self@.arrows, self@.goals, self@.blocks, max_moves) is None,
            },
    {
        let start = self.initial_state.clone();
        assert(start@ =~= self.initial_state@);
        match astar(start, &self.arrows, &self.goals, max_moves) {
            Some(moves) => {
                let mut out: Vec<Color> = Vec::new();
                let mut i: usize = 0;
                while i < moves.len()
                    invariant
                        i <= moves.len(),
                        out.len() == i,
                        forall|j: int| 0 <= j < moves.len() ==> moves@[j] < self.colors.len(),
                        forall|j: int|
                            0 <= j < i ==> out@[j]@ == self.colors@[moves@[j] as int]@,
                    decreases moves.len() - i,
                {
                    out.push(self.colors[moves[i]].clone());
                    i = i + 1;
                }
                assert(names(out@) =~= moved_colors(self@.colors, moves@));
                Some(out)
            },
            None => None,
        }
    }
}

} // verus!
