//! The board: nine cells in three rows, eight of them holding a tile.

use crate::permutation::{
    generate_shuffled_list, greater, inversion_count, is_arrangement,
    lemma_inversion_count_by_order, lemma_swap_keeps_arrangement, make_even,
};
use vstd::prelude::*;

verus! {

/// A position on the board: row, then column.
pub type Position = (usize, usize);

/// The board, row by row. A cell holds a tile's number, or `None` where it is blank.
#[derive(Debug)]
pub struct GameMap {
    pub map: Vec<Vec<Option<i32>>>,
}

/// Whether both coordinates of `pos` lie on the board.
pub open spec fn on_board(pos: Position) -> bool {
    pos.0 < 3 && pos.1 < 3
}

/// The place of `pos` among the nine cells, counted row by row.
pub open spec fn flat(pos: Position) -> int {
    3 * pos.0 + pos.1
}

/// The Manhattan distance of two positions.
pub open spec fn manhattan(a: Position, b: Position) -> int {
    (if a.0 >= b.0 { a.0 - b.0 } else { b.0 - a.0 })
        + (if a.1 >= b.1 { a.1 - b.1 } else { b.1 - a.1 })
}

/// The solved board: the tiles in ascending order, the blank last.
pub open spec fn goal() -> Seq<Option<i32>> {
    Seq::new(9, |k: int| if k == 8 { None } else { Some((k + 1) as i32) })
}

/// Whether nine cells hold one blank and each of the tiles 1 to 8 once.
pub open spec fn is_board(cells: Seq<Option<i32>>) -> bool {
    &&& cells.len() == 9
    &&& cells.no_duplicates()
    &&& cells.contains(None)
    &&& forall|v: i32| 1 <= v <= 8 ==> cells.contains(Some(v))
}

/// `cells` with the contents of places `p` and `q` exchanged.
pub open spec fn exchanged(cells: Seq<Option<i32>>, p: int, q: int) -> Seq<Option<i32>> {
    cells.update(p, cells[q]).update(q, cells[p])
}

/// Exchanging two cells of a board leaves a board.
pub proof fn lemma_exchange_keeps_board(cells: Seq<Option<i32>>, p: int, q: int)
    requires
        is_board(cells),
        0 <= p < 9,
        0 <= q < 9,
    ensures
        is_board(exchanged(cells, p, q)),
{
    let after = exchanged(cells, p, q);
    assert forall|c: Option<i32>| cells.contains(c) implies after.contains(c) by {
        let k = choose|k: int| 0 <= k < cells.len() && cells[k] == c;
        let moved = if k == p { q } else if k == q { p } else { k };
        assert(after[moved] == c);
    }
    assert forall|v: i32| 1 <= v <= 8 implies after.contains(Some(v)) by {
        assert(cells.contains(Some(v)));
    }
}

/// A cell is never exchanged with itself, and two cells that both hold a tile
/// are never exchanged, however close they are.
pub proof fn lemma_never_swappable(cells: Seq<Option<i32>>, p: Position, q: Position)
    ensures
        !swappable(cells, p, p),
        cells[flat(p)] is Some && cells[flat(q)] is Some ==> !swappable(cells, p, q),
        swappable(cells, p, q) == swappable(cells, q, p),
{
}

/// Whether two positions are one step apart, along a row or a column.
pub fn adjacent(a: Position, b: Position) -> (near: bool)
    ensures
        near == (manhattan(a, b) == 1),
{
    let rows: usize = if a.0 >= b.0 { a.0 - b.0 } else { b.0 - a.0 };
    let columns: usize = if a.1 >= b.1 { a.1 - b.1 } else { b.1 - a.1 };
    (rows == 1 && columns == 0) || (rows == 0 && columns == 1)
}

/// The place of the last blank among the first `bound` cells, 0 where none of
/// them is blank. On a board this is the place of its one blank.
pub open spec fn last_blank(cells: Seq<Option<i32>>, bound: int) -> int
    decreases bound,
{
    if bound <= 0 {
        0
    } else if cells[bound - 1] is None {
        bound - 1
    } else {
        last_blank(cells, bound - 1)
    }
}

/// The blank's position: that of the last blank cell, counted row by row, and
/// the first cell where none is blank.
pub open spec fn blank_of(cells: Seq<Option<i32>>) -> Position {
    let k = last_blank(cells, 9);
    ((k / 3) as usize, (k % 3) as usize)
}

/// Whether a cell may be picked first: it is the blank or one step from it.
pub open spec fn selectable(cells: Seq<Option<i32>>, pos: Position) -> bool {
    pos == blank_of(cells) || manhattan(pos, blank_of(cells)) == 1
}

/// Whether exchanging two cells is a legal move: they are distinct, one step
/// apart, and one of them is blank.
pub open spec fn swappable(cells: Seq<Option<i32>>, p: Position, q: Position) -> bool {
    &&& p != q
    &&& (cells[flat(p)] is None || cells[flat(q)] is None)
    &&& manhattan(p, q) == 1
}

/// The numbers in the first eight cells, in order.
pub open spec fn leading_tiles(cells: Seq<Option<i32>>) -> Seq<i32> {
    Seq::new(8, |k: int| cells[k].unwrap())
}

/// The cells that a list of eight tiles fills row by row, the blank last.
pub open spec fn laid_out(tiles: Seq<u32>) -> Seq<Option<i32>> {
    Seq::new(9, |k: int| if k == 8 { None } else { Some(tiles[k] as i32) })
}

/// `last_blank` names a cell below `bound`, and a blank one where there is any.
pub proof fn lemma_last_blank(cells: Seq<Option<i32>>, bound: int)
    requires
        0 <= bound <= cells.len(),
    ensures
        0 <= last_blank(cells, bound),
        bound > 0 ==> last_blank(cells, bound) < bound,
        forall|k: int|
            0 <= k < bound && (#[trigger] cells[k]) is None ==> cells[last_blank(cells, bound)] is None,
        forall|k: int| last_blank(cells, bound) < k < bound ==> (#[trigger] cells[k]) is Some,
    decreases bound,
{
    if bound > 0 {
        lemma_last_blank(cells, bound - 1);
    }
}

/// On a board, `last_blank` is the place of the blank and no other cell is blank.
pub proof fn lemma_board_has_one_blank(cells: Seq<Option<i32>>)
    requires
        is_board(cells),
    ensures
        0 <= last_blank(cells, 9) < 9,
        forall|k: int| 0 <= k < 9 ==> ((#[trigger] cells[k]) is None <==> k == last_blank(cells, 9)),
{
    lemma_last_blank(cells, 9);
    let b = choose|b: int| 0 <= b < cells.len() && cells[b] == None::<i32>;
    assert(cells[b] is None);
    let found = last_blank(cells, 9);
    assert(cells[found] is None);
    assert forall|k: int| 0 <= k < 9 && cells[k] is None implies k == found by {
        assert(cells[k] == cells[found]);
    }
}

/// Eight tiles that are an arrangement of 1 to 8, laid out with the blank last, make a board.
pub proof fn lemma_laid_out_is_board(tiles: Seq<u32>)
    requires
        is_arrangement(tiles, 8),
    ensures
        is_board(laid_out(tiles)),
{
    let cells = laid_out(tiles);
    assert(cells[8] == None::<i32>);
    assert forall|v: i32| 1 <= v <= 8 implies cells.contains(Some(v)) by {
        let u = v as u32;
        assert(tiles.contains(u));
        let k = choose|k: int| 0 <= k < tiles.len() && tiles[k] == u;
        assert(cells[k] == Some(v));
    }
    assert forall|a: int, b: int| 0 <= a < 9 && 0 <= b < 9 && a != b implies cells[a] != cells[b] by {
        if a < 8 && b < 8 {
            assert(tiles[a] != tiles[b]);
            assert(1 <= tiles[a] <= 8 && 1 <= tiles[b] <= 8);
        }
    }
}

impl View for GameMap {
    type V = Seq<Option<i32>>;

    /// The nine cells, row by row.
    open spec fn view(&self) -> Seq<Option<i32>> {
        Seq::new(9, |k: int| self.map@[k / 3]@[k % 3])
    }
}

impl GameMap {
    /// Whether the board has three rows of three cells.
    pub open spec fn well_shaped(&self) -> bool {
        &&& self.map@.len() == 3
        &&& forall|i: int| 0 <= i < 3 ==> (#[trigger] self.map@[i])@.len() == 3
    }

    /// Whether the board is well shaped and holds one blank and each tile once.
    pub open spec fn wf(&self) -> bool {
        self.well_shaped() && is_board(self@)
    }

    /// Exchanges the contents of two cells, whatever they hold.
    pub fn swap_pos(&mut self, pos1: Position, pos2: Position)
        requires
            old(self).well_shaped(),
            on_board(pos1),
            on_board(pos2),
        ensures
            final(self).well_shaped(),
            final(self)@ == exchanged(old(self)@, flat(pos1), flat(pos2)),
            old(self).wf() ==> final(self).wf(),
    {
        let temp = self.map[pos1.0][pos1.1];
        self.map[pos1.0][pos1.1] = self.map[pos2.0][pos2.1];
        self.map[pos2.0][pos2.1] = temp;
        proof {
            assert(final(self)@ =~= exchanged(old(self)@, flat(pos1), flat(pos2)));
            if old(self).wf() {
                lemma_exchange_keeps_board(old(self)@, flat(pos1), flat(pos2));
            }
        }
    }

    /// A freshly shuffled board that can be solved: the blank stands in the
    /// last cell and the tiles before it have an even number of inversions.
    pub fn new() -> (board: GameMap)
        ensures
            board.wf(),
            board@[8] is None,
            inversion_count(leading_tiles(board@)) % 2 == 0,
    {
        let mut s = generate_shuffled_list(8);
        let ghost drawn = s@;
        make_even(&mut s);
        let board = GameMap::from_tiles(&s);
        proof {
            assert(drawn[0] != drawn[1]);
            if s@ != drawn {
                lemma_swap_keeps_arrangement(drawn, 8);
            }
            let tiles = leading_tiles(board@);
            assert forall|a: int, b: int| 0 <= a < 8 && 0 <= b < 8 implies greater(s@[a], s@[b])
                == greater(#[trigger] tiles[a], #[trigger] tiles[b]) by {
                assert(1 <= s@[a] <= 8 && 1 <= s@[b] <= 8);
            }
            lemma_inversion_count_by_order(s@, tiles);
        }
        board
    }

    /// Whether exchanging the two cells is a legal move.
    pub fn is_valid_action(&self, pos1: Position, pos2: Position) -> (valid: bool)
        requires
            self.well_shaped(),
            pos1 == pos2 || (on_board(pos1) && on_board(pos2)),
        ensures
            valid == swappable(self@, pos1, pos2),
    {
        if pos1.0 == pos2.0 && pos1.1 == pos2.1 {
            return false;
        } else if self.map[pos1.0][pos1.1].is_none() || self.map[pos2.0][pos2.1].is_none() {
            return adjacent(pos1, pos2);
        }
        return false;
    }

    /// Whether a cell may be picked first.
    pub fn is_valid_selection(&self, pos: Position) -> (valid: bool)
        requires
            self.well_shaped(),
        ensures
            valid == selectable(self@, pos),
    {
        let mut none_pos: Position = (0, 0);
        let mut i: usize = 0;
        while i < 3
            invariant
                i <= 3,
                self.well_shaped(),
                on_board(none_pos),
                flat(none_pos) == last_blank(self@, 3 * i),
            decreases 3 - i,
        {
            let mut j: usize = 0;
            while j < 3
                invariant
                    j <= 3,
                    i < 3,
                    self.well_shaped(),
                    on_board(none_pos),
                    flat(none_pos) == last_blank(self@, 3 * i + j),
                decreases 3 - j,
            {
                if self.map[i][j].is_none() {
                    none_pos.0 = i;
                    none_pos.1 = j;
                }
                j += 1;
            }
            i += 1;
        }
        (pos.0 == none_pos.0 && pos.1 == none_pos.1) || adjacent(pos, none_pos)
    }

    /// Whether the board is solved: the tiles in ascending order, the blank last.
    pub fn is_completed(&self) -> (done: bool)
        requires
            self.well_shaped(),
        ensures
            done == (self@ == goal()),
    {
        let mut i: usize = 0;
        while i < 3
            invariant
                i <= 3,
                self.well_shaped(),
                forall|k: int| 0 <= k < 3 * i ==> self@[k] == goal()[k],
            decreases 3 - i,
        {
            let mut j: usize = 0;
            while j < 3
                invariant
                    j <= 3,
                    i < 3,
                    self.well_shaped(),
                    forall|k: int| 0 <= k < 3 * i + j ==> self@[k] == goal()[k],
                decreases 3 - j,
            {
                if i == 2 && j == 2 {
                    if self.map[i][j].is_some() {
                        assert(self@[8] != goal()[8]);
                        return false;
                    }
                } else {
                    let expected: i32 = (3 * i + j + 1) as i32;
                    match self.map[i][j] {
                        Some(v) if v == expected => {},
                        _ => {
                            assert(self@[3 * i + j] != goal()[3 * i + j]);
                            return false;
                        },
                    }
                }
                j += 1;
            }
            i += 1;
        }
        assert(self@ =~= goal());
        true
    }

    /// Lays eight tiles out row by row and puts the blank in the last cell.
    pub fn from_tiles(tiles: &Vec<u32>) -> (board: GameMap)
        requires
            tiles@.len() >= 8,
        ensures
            board.well_shaped(),
            board@ == laid_out(tiles@),
            is_arrangement(tiles@, 8) ==> board.wf(),
    {
        let mut map: Vec<Vec<Option<i32>>> = Vec::new();
        let mut i: usize = 0;
        while i < 3
            invariant
                i <= 3,
                tiles@.len() >= 8,
                map@.len() == i,
                forall|r: int| 0 <= r < i ==> (#[trigger] map@[r])@.len() == 3,
                forall|r: int, c: int|
                    0 <= r < i && 0 <= c < 3 ==> #[trigger] map@[r]@[c] == laid_out(tiles@)[3 * r + c],
            decreases 3 - i,
        {
            let mut row: Vec<Option<i32>> = Vec::new();
            let mut j: usize = 0;
            while j < 3
                invariant
                    j <= 3,
                    i < 3,
                    tiles@.len() >= 8,
                    row@.len() == j,
                    forall|c: int| 0 <= c < j ==> #[trigger] row@[c] == laid_out(tiles@)[3 * i + c],
                decreases 3 - j,
            {
                if i == 2 && j == 2 {
                    row.push(None)
                } else {
                    row.push(Some(tiles[i * 3 + j] as i32));
                }
                j += 1;
            }
            map.push(row);
            i += 1;
        }
        let board = GameMap { map };
        proof {
            assert(board@ =~= laid_out(tiles@));
            if is_arrangement(tiles@, 8) {
                lemma_laid_out_is_board(tiles@);
            }
        }
        board
    }
}

} // verus!
