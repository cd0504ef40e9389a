//! Two ways to play on the board: pick two cells to exchange, or push the
//! tile next to the blank with a single click.

use crate::grid::{
    adjacent, blank_of, exchanged, flat, leading_tiles, lemma_board_has_one_blank, manhattan,
    on_board, selectable, swappable, GameMap, Position,
};
use crate::permutation::inversion_count;
use vstd::prelude::*;

verus! {

/// What a click on a cell did to a game played by picking two cells.
#[derive(Debug, Clone, Copy, PartialEq, Eq)]
pub enum Click {
    /// Nothing changed.
    Ignored,
    /// The cell is now the picked one.
    Selected(Position),
    /// The cell was the picked one and is no longer.
    Deselected(Position),
    /// The picked cell, named first, and the clicked one exchanged their contents.
    Swapped(Position, Position),
}

/// The cells, the picked cell and the outcome after a click on `pos`.
pub open spec fn step(cells: Seq<Option<i32>>, selected: Option<Position>, pos: Position) -> (
    Seq<Option<i32>>,
    Option<Position>,
    Click,
) {
    match selected {
        None => if selectable(cells, pos) {
            (cells, Some(pos), Click::Selected(pos))
        } else {
            (cells, None, Click::Ignored)
        },
        Some(first) => if first == pos {
            (cells, None, Click::Deselected(first))
        } else if swappable(cells, first, pos) {
            (exchanged(cells, flat(first), flat(pos)), None, Click::Swapped(first, pos))
        } else {
            (cells, selected, Click::Ignored)
        },
    }
}

/// Picking a cell and clicking it again at once leaves the cells as they
/// were, with no cell picked.
pub proof fn lemma_select_then_deselect(cells: Seq<Option<i32>>, pos: Position)
    requires
        selectable(cells, pos),
    ensures
        step(cells, None, pos) == (cells, Some(pos), Click::Selected(pos)),
        step(step(cells, None, pos).0, step(cells, None, pos).1, pos) == (
            cells,
            None::<Position>,
            Click::Deselected(pos),
        ),
{
}

/// A game played by picking two cells: the board and the cell picked first, if any.
#[derive(Debug)]
pub struct GameModel {
    pub gamemap: GameMap,
    pub select_1: Option<Position>,
}

impl GameModel {
    /// Whether the board is valid and the picked cell, if any, lies on it.
    pub open spec fn wf(&self) -> bool {
        &&& self.gamemap.wf()
        &&& self.select_1 matches Some(first) ==> on_board(first)
    }

    /// A new game on a freshly shuffled board that can be solved, with no cell picked.
    pub fn new() -> (model: GameModel)
        ensures
            model.wf(),
            model.select_1 is None,
            model.gamemap@[8] is None,
            inversion_count(leading_tiles(model.gamemap@)) % 2 == 0,
    {
        let gamemap = GameMap::new();
        GameModel { gamemap, select_1: None }
    }

    /// Handles a click on `pos` and says what changed.
    ///
    /// With no cell picked, a click picks the blank or a cell next to it and
    /// is ignored elsewhere. With a cell picked, a click on it lets it go, a
    /// click on a cell that it may legally be exchanged with exchanges the two
    /// and lets it go, and any other click is ignored.
    pub fn click(&mut self, pos: Position) -> (outcome: Click)
        requires
            old(self).wf(),
            on_board(pos),
        ensures
            final(self).wf(),
            (final(self).gamemap@, final(self).select_1, outcome) == step(
                old(self).gamemap@,
                old(self).select_1,
                pos,
            ),
    {
        match self.select_1 {
            None => {
                if self.gamemap.is_valid_selection(pos) {
                    self.select_1 = Some(pos);
                    Click::Selected(pos)
                } else {
                    Click::Ignored
                }
            },
            Some(first) => {
                if first.0 == pos.0 && first.1 == pos.1 {
                    self.select_1 = None;
                    Click::Deselected(first)
                } else if self.gamemap.is_valid_action(first, pos) {
                    self.gamemap.swap_pos(first, pos);
                    self.select_1 = None;
                    Click::Swapped(first, pos)
                } else {
                    Click::Ignored
                }
            },
        }
    }
}

/// A game played with single clicks: the board and where its blank is.
#[derive(Debug)]
pub struct SlideModel {
    pub gamemap: GameMap,
    pub empty_pos: Position,
}

impl SlideModel {
    /// Whether the board is valid and `empty_pos` is where its blank is.
    pub open spec fn wf(&self) -> bool {
        &&& self.gamemap.wf()
        &&& on_board(self.empty_pos)
        &&& self.gamemap@[flat(self.empty_pos)] is None
    }

    /// In a valid game `empty_pos` is the position of the board's one blank.
    pub proof fn lemma_empty_pos_is_blank(&self)
        requires
            self.wf(),
        ensures
            self.empty_pos == blank_of(self.gamemap@),
            forall|pos: Position|
                on_board(pos) && pos != self.empty_pos ==> (#[trigger] self.gamemap@[flat(pos)]) is Some,
    {
        lemma_board_has_one_blank(self.gamemap@);
    }

    /// A new game on a freshly shuffled board that can be solved.
    pub fn new() -> (model: SlideModel)
        ensures
            model.wf(),
            model.empty_pos == (2usize, 2usize),
            inversion_count(leading_tiles(model.gamemap@)) % 2 == 0,
    {
        let gamemap = GameMap::new();
        SlideModel { gamemap, empty_pos: (2, 2) }
    }

    /// Whether a click on `pos` moves a tile: `pos` is one step from the blank.
    pub fn is_valid_action(&self, pos: Position) -> (valid: bool)
        ensures
            valid == (manhattan(pos, self.empty_pos) == 1),
            self.wf() ==> valid == (manhattan(pos, blank_of(self.gamemap@)) == 1),
    {
        proof {
            if self.wf() {
                self.lemma_empty_pos_is_blank();
            }
        }
        adjacent(pos, self.empty_pos)
    }

    /// Handles a click on `pos`: where it is one step from the blank, the tile
    /// there moves into the blank and its number is returned; else nothing changes.
    pub fn slide(&mut self, pos: Position) -> (moved: Option<i32>)
        requires
            old(self).wf(),
            on_board(pos),
        ensures
            final(self).wf(),
            manhattan(pos, old(self).empty_pos) == 1 ==> {
                &&& moved is Some
                &&& moved == old(self).gamemap@[flat(pos)]
                &&& final(self).empty_pos == pos
                &&& final(self).gamemap@ == exchanged(
                    old(self).gamemap@,
                    flat(old(self).empty_pos),
                    flat(pos),
                )
                &&& final(self).gamemap@[flat(old(self).empty_pos)] == moved
                &&& final(self).gamemap@[flat(pos)] is None
            },
            manhattan(pos, old(self).empty_pos) != 1 ==> {
                &&& moved is None
                &&& final(self).empty_pos == old(self).empty_pos
                &&& final(self).gamemap@ == old(self).gamemap@
            },
    {
        if self.is_valid_action(pos) {
            proof {
                self.lemma_empty_pos_is_blank();
            }
            let empty_pos = self.empty_pos;
            let tile = self.gamemap.map[pos.0][pos.1];
            self.empty_pos = pos;
            self.gamemap.swap_pos(empty_pos, pos);
            tile
        } else {
            None
        }
    }
}

} // verus!
