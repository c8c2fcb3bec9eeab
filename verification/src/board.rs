//! The 10 x 10 grid of cell classifications kept for each side.

use crate::position::Position;
use vstd::prelude::*;

verus! {

/// Classification of one grid square. A ship board uses `Empty`, `Ship`,
/// `DamagedShip` and `DestroyedShip`; an attack board (the record of one
/// side's own shots) uses `Empty`, `FailedAttack` and `SuccessfulAttack`.
#[derive(Clone, Copy, Debug, PartialEq, Eq, Structural)]
pub enum BoardCell {
    Empty,
    Ship,
    DamagedShip,
    DestroyedShip,
    FailedAttack,
    SuccessfulAttack,
}

/// True of the classifications a ship board may hold.
pub open spec fn is_ship_board_cell(c: BoardCell) -> bool {
    ||| c is Empty
    ||| c is Ship
    ||| c is DamagedShip
    ||| c is DestroyedShip
}

/// True of the classifications an attack board may hold.
pub open spec fn is_attack_board_cell(c: BoardCell) -> bool {
    ||| c is Empty
    ||| c is FailedAttack
    ||| c is SuccessfulAttack
}

/// True of a ship-board cell that records a hit.
pub open spec fn is_damaged_cell(c: BoardCell) -> bool {
    c is DamagedShip || c is DestroyedShip
}

/// Index of an in-bounds position in the board's cell sequence.
pub open spec fn cell_index(p: Position) -> int {
    p.x * 10 + p.y
}

/// The in-bounds position stored at index `k` of the cell sequence.
pub open spec fn position_of(k: int) -> Position {
    Position { x: (k / 10) as u8, y: (k % 10) as u8 }
}

/// `cell_index` maps the grid one-to-one onto `0..100`.
pub proof fn lemma_index_of_position(p: Position)
    requires
        p.in_bounds(),
    ensures
        0 <= cell_index(p) < 100,
        position_of(cell_index(p)) == p,
{
    assert((p.x * 10 + p.y) / 10 == p.x as int && (p.x * 10 + p.y) % 10 == p.y as int)
        by (nonlinear_arith)
        requires p.x < 10 && p.y < 10;
}

/// Every index of the cell sequence stands for an in-bounds position.
pub proof fn lemma_position_of_index(k: int)
    requires
        0 <= k < 100,
    ensures
        position_of(k).in_bounds(),
        cell_index(position_of(k)) == k,
{
    assert(0 <= k / 10 < 10 && 0 <= k % 10 < 10 && (k / 10) * 10 + k % 10 == k)
        by (nonlinear_arith)
        requires 0 <= k < 100;
}

/// Distinct in-bounds positions occupy distinct indices.
pub proof fn lemma_index_injective(p: Position, q: Position)
    requires
        p.in_bounds(),
        q.in_bounds(),
        p != q,
    ensures
        cell_index(p) != cell_index(q),
{
    lemma_index_of_position(p);
    lemma_index_of_position(q);
}

/// How many of the first `k` squares of `b` hold the classification `c`.
pub open spec fn count_cells_before(b: Seq<BoardCell>, c: BoardCell, k: int) -> nat
    decreases k,
{
    if k <= 0 {
        0
    } else {
        count_cells_before(b, c, k - 1) + if b[k - 1] == c {
            1nat
        } else {
            0nat
        }
    }
}

/// How many squares of `b` hold the classification `c`.
pub open spec fn count_cells(b: Seq<BoardCell>, c: BoardCell) -> nat {
    count_cells_before(b, c, b.len() as int)
}

/// Whether some in-bounds square of `b` holds the classification `c`.
pub open spec fn some_cell_is(b: Seq<BoardCell>, c: BoardCell) -> bool {
    exists|p: Position| p.in_bounds() && b[cell_index(p)] == c
}

/// A prefix count is zero exactly when no square of the prefix holds `c`.
proof fn lemma_count_prefix_zero(b: Seq<BoardCell>, c: BoardCell, k: int)
    ensures
        count_cells_before(b, c, k) == 0 <==> forall|j: int| 0 <= j < k ==> b[j] != c,
    decreases k,
{
    if k > 0 {
        lemma_count_prefix_zero(b, c, k - 1);
    }
}

/// A full board holds no square classified `c` exactly when the count is
/// zero.
pub proof fn lemma_count_zero_iff_none(b: Seq<BoardCell>, c: BoardCell)
    requires
        b.len() == 100,
    ensures
        count_cells(b, c) == 0 <==> !some_cell_is(b, c),
{
    lemma_count_prefix_zero(b, c, 100);
    if count_cells(b, c) == 0 {
        assert forall|p: Position| p.in_bounds() implies b[cell_index(p)] != c by {
            lemma_index_of_position(p);
        }
    } else {
        let j = choose|j: int| 0 <= j < 100 && b[j] == c;
        lemma_position_of_index(j);
        assert(position_of(j).in_bounds() && b[cell_index(position_of(j))] == c);
    }
}

/// Overwriting one square that held `c` with something else lowers the
/// prefix counts of `c` by one from that square on.
proof fn lemma_count_prefix_update(b: Seq<BoardCell>, c: BoardCell, k0: int, v: BoardCell, k: int)
    requires
        0 <= k0 < b.len(),
        b[k0] == c,
        v != c,
        k <= b.len(),
    ensures
        k <= k0 ==> count_cells_before(b.update(k0, v), c, k) == count_cells_before(b, c, k),
        k > k0 ==> count_cells_before(b.update(k0, v), c, k) + 1 == count_cells_before(b, c, k),
    decreases k,
{
    if k > 0 {
        lemma_count_prefix_update(b, c, k0, v, k - 1);
    }
}

/// Overwriting one square that held `c` with something else lowers the count
/// of `c` by exactly one.
pub proof fn lemma_count_cells_update(b: Seq<BoardCell>, c: BoardCell, k0: int, v: BoardCell)
    requires
        0 <= k0 < b.len(),
        b[k0] == c,
        v != c,
    ensures
        count_cells(b, c) >= 1,
        count_cells(b.update(k0, v), c) == count_cells(b, c) - 1,
{
    lemma_count_prefix_update(b, c, k0, v, b.len() as int);
}

/// The glyph standing for each cell classification in the textual rendering.
pub open spec fn glyph_of(c: BoardCell) -> char {
    match c {
        BoardCell::Empty => '.',
        BoardCell::Ship => 'S',
        BoardCell::DamagedShip => 'x',
        BoardCell::DestroyedShip => 'X',
        BoardCell::FailedAttack => 'o',
        BoardCell::SuccessfulAttack => '*',
    }
}

/// Maps a cell classification to its fixed glyph.
pub fn cell_glyph(c: BoardCell) -> (g: char)
    ensures
        g == glyph_of(c),
{
    match c {
        BoardCell::Empty => '.',
        BoardCell::Ship => 'S',
        BoardCell::DamagedShip => 'x',
        BoardCell::DestroyedShip => 'X',
        BoardCell::FailedAttack => 'o',
        BoardCell::SuccessfulAttack => '*',
    }
}

/// The digit labelling column `d` of the rendering's header row.
pub open spec fn column_digit(d: int) -> char {
    if d == 0 {
        '0'
    } else if d == 1 {
        '1'
    } else if d == 2 {
        '2'
    } else if d == 3 {
        '3'
    } else if d == 4 {
        '4'
    } else if d == 5 {
        '5'
    } else if d == 6 {
        '6'
    } else if d == 7 {
        '7'
    } else if d == 8 {
        '8'
    } else {
        '9'
    }
}

/// The letter labelling row `r` of the rendering.
pub open spec fn row_letter(r: int) -> char {
    if r == 0 {
        'A'
    } else if r == 1 {
        'B'
    } else if r == 2 {
        'C'
    } else if r == 3 {
        'D'
    } else if r == 4 {
        'E'
    } else if r == 5 {
        'F'
    } else if r == 6 {
        'G'
    } else if r == 7 {
        'H'
    } else if r == 8 {
        'I'
    } else {
        'J'
    }
}

/// Character `i` of the textual rendering of the board `b`: a header row of
/// column digits, then one line per row, each prefixed by its row letter,
/// with one glyph per square. Every line is 12 characters, newline included.
pub open spec fn text_char(b: Seq<BoardCell>, i: int) -> char {
    let line = i / 12;
    let col = i % 12;
    if col == 11 {
        '\n'
    } else if line == 0 {
        if col == 0 {
            ' '
        } else {
            column_digit(col - 1)
        }
    } else if col == 0 {
        row_letter(line - 1)
    } else {
        glyph_of(b[(line - 1) * 10 + (col - 1)])
    }
}

/// The full textual rendering of the board `b`: 11 lines of 12 characters.
pub open spec fn board_text(b: Seq<BoardCell>) -> Seq<char> {
    Seq::new(132, |i: int| text_char(b, i))
}

/// A fixed 10 x 10 mapping from positions to cell classifications, default
/// `Empty`, stored row by row.
#[derive(Debug)]
pub struct Board {
    cells: Vec<BoardCell>,
}

impl View for Board {
    type V = Seq<BoardCell>;

    closed spec fn view(&self) -> Seq<BoardCell> {
        self.cells@
    }
}

impl Board {
    /// A board holds one classification per grid square.
    pub open spec fn wf(self) -> bool {
        self@.len() == 100
    }

    /// The classification at an in-bounds position.
    pub open spec fn cell(self, p: Position) -> BoardCell
        recommends
            self.wf(),
            p.in_bounds(),
    {
        self@[cell_index(p)]
    }

    /// A fresh board, every square `Empty`.
    pub fn new() -> (b: Board)
        ensures
            b.wf(),
            forall|k: int| 0 <= k < 100 ==> b@[k] == BoardCell::Empty,
            forall|p: Position| p.in_bounds() ==> b.cell(p) == BoardCell::Empty,
    {
        let mut cells: Vec<BoardCell> = Vec::new();
        let mut i: usize = 0;
        while i < 100
            invariant
                i <= 100,
                cells@.len() == i,
                forall|k: int| 0 <= k < i ==> cells@[k] == BoardCell::Empty,
            decreases 100 - i,
        {
            cells.push(BoardCell::Empty);
            i = i + 1;
        }
        Board { cells }
    }

    /// Writes one square; every other square keeps its classification.
    pub fn set_cell(&mut self, pos: Position, value: BoardCell)
        requires
            old(self).wf(),
            pos.in_bounds(),
        ensures
            final(self).wf(),
            final(self)@ == old(self)@.update(cell_index(pos), value),
            final(self).cell(pos) == value,
            forall|q: Position|
                q.in_bounds() && q != pos ==> final(self).cell(q) == old(self).cell(q),
    {
        proof {
            lemma_index_of_position(pos);
        }
        let idx: usize = (pos.x as usize) * 10 + (pos.y as usize);
        self.cells.set(idx, value);
        proof {
            assert forall|q: Position| q.in_bounds() && q != pos implies final(self).cell(q)
                == old(self).cell(q) by {
                lemma_index_injective(pos, q);
                lemma_index_of_position(q);
            }
        }
    }

    /// Reads one square.
    pub fn get_cell_value(&self, pos: Position) -> (c: BoardCell)
        requires
            self.wf(),
            pos.in_bounds(),
        ensures
            c == self.cell(pos),
    {
        proof {
            lemma_index_of_position(pos);
        }
        let idx: usize = (pos.x as usize) * 10 + (pos.y as usize);
        self.cells[idx]
    }

    /// Writes `value` onto every listed square; every other square keeps its
    /// classification.
    pub fn set_cells(&mut self, cells: &Vec<Position>, value: BoardCell)
        requires
            old(self).wf(),
            forall|i: int| 0 <= i < cells@.len() ==> (#[trigger] cells@[i]).in_bounds(),
        ensures
            final(self).wf(),
            forall|q: Position|
                q.in_bounds() ==> final(self).cell(q) == (if cells@.contains(q) {
                    value
                } else {
                    old(self).cell(q)
                }),
            forall|k: int|
                0 <= k < 100 ==> final(self)@[k] == (if cells@.contains(position_of(k)) {
                    value
                } else {
                    old(self)@[k]
                }),
    {
        let mut i: usize = 0;
        while i < cells.len()
            invariant
                i <= cells@.len(),
                forall|j: int| 0 <= j < cells@.len() ==> (#[trigger] cells@[j]).in_bounds(),
                self.wf(),
                forall|q: Position|
                    q.in_bounds() ==> self.cell(q) == (if cells@.take(i as int).contains(q) {
                        value
                    } else {
                        old(self).cell(q)
                    }),
            decreases cells@.len() - i,
        {
            self.set_cell(cells[i], value);
            proof {
                assert forall|q: Position| q.in_bounds() implies self.cell(q) == (if cells@.take(
                    i + 1,
                ).contains(q) {
                    value
                } else {
                    old(self).cell(q)
                }) by {
                    if q == cells@[i as int] {
                        assert(cells@.take(i + 1)[i as int] == q);
                        assert(cells@.take(i + 1).contains(q));
                    } else {
                        if cells@.take(i + 1).contains(q) {
                            let k = choose|k: int|
                                0 <= k < i + 1 && #[trigger] cells@.take(i + 1)[k] == q;
                            assert(cells@.take(i as int)[k] == q);
                            assert(cells@.take(i as int).contains(q));
                        } else {
                            if cells@.take(i as int).contains(q) {
                                let k = choose|k: int|
                                    0 <= k < i && #[trigger] cells@.take(i as int)[k] == q;
                                assert(cells@.take(i + 1)[k] == q);
                            }
                        }
                    }
                }
            }
            i = i + 1;
        }
        proof {
            assert(cells@.take(cells@.len() as int) =~= cells@);
            assert forall|k: int| 0 <= k < 100 implies self@[k] == (if cells@.contains(
                position_of(k),
            ) {
                value
            } else {
                old(self)@[k]
            }) by {
                lemma_position_of_index(k);
            }
        }
    }

    /// Counts the squares holding the classification `c`.
    pub fn count_cells_equal(&self, c: BoardCell) -> (n: usize)
        requires
            self.wf(),
        ensures
            n == count_cells(self@, c),
    {
        let mut n: usize = 0;
        let mut i: usize = 0;
        while i < self.cells.len()
            invariant
                self.wf(),
                i <= 100,
                n == count_cells_before(self@, c, i as int),
                n <= i,
            decreases 100 - i,
        {
            if self.cells[i] == c {
                n = n + 1;
            }
            i = i + 1;
        }
        n
    }

    /// Renders the board as text: a column-digit header row, then one line
    /// per row, prefixed by its row letter, one glyph per square.
    pub fn render_text(&self) -> (r: Vec<char>)
        requires
            self.wf(),
        ensures
            r@ == board_text(self@),
    {
        let mut out: Vec<char> = Vec::new();
        let mut i: usize = 0;
        while i < 132
            invariant
                self.wf(),
                i <= 132,
                out@.len() == i,
                forall|k: int| 0 <= k < i ==> out@[k] == text_char(self@, k),
            decreases 132 - i,
        {
            let line: usize = i / 12;
            let col: usize = i % 12;
            let c: char = if col == 11 {
                '\n'
            } else if line == 0 {
                if col == 0 {
                    ' '
                } else {
                    match col - 1 {
                        0 => '0',
                        1 => '1',
                        2 => '2',
                        3 => '3',
                        4 => '4',
                        5 => '5',
                        6 => '6',
                        7 => '7',
                        8 => '8',
                        _ => '9',
                    }
                }
            } else if col == 0 {
                match line - 1 {
                    0 => 'A',
                    1 => 'B',
                    2 => 'C',
                    3 => 'D',
                    4 => 'E',
                    5 => 'F',
                    6 => 'G',
                    7 => 'H',
                    8 => 'I',
                    _ => 'J',
                }
            } else {
                proof {
                    assert(0 <= i / 12 < 11 && 0 <= i % 12 < 12) by (nonlinear_arith)
                        requires 0 <= i < 132;
                    assert((i / 12 - 1) * 10 + (i % 12 - 1) < 100) by (nonlinear_arith)
                        requires 1 <= i / 12 < 11 && 1 <= i % 12 < 11;
                }
                let cell = self.cells[(line - 1) * 10 + (col - 1)];
                cell_glyph(cell)
            };
            out.push(c);
            i = i + 1;
        }
        proof {
            assert(out@ =~= board_text(self@));
        }
        out
    }

    /// The first square still `Empty`, if any square is.
    pub fn find_empty_cell(&self) -> (r: Option<Position>)
        requires
            self.wf(),
        ensures
            r matches Some(p) ==> p.in_bounds() && self.cell(p) == BoardCell::Empty,
            r is None ==> !some_cell_is(self@, BoardCell::Empty),
    {
        let mut i: usize = 0;
        while i < self.cells.len()
            invariant
                self.wf(),
                i <= 100,
                forall|j: int| 0 <= j < i ==> self@[j] != BoardCell::Empty,
            decreases 100 - i,
        {
            if self.cells[i] == BoardCell::Empty {
                proof {
                    lemma_position_of_index(i as int);
                }
                let x: u8 = (i / 10) as u8;
                let y: u8 = (i % 10) as u8;
                return Some(Position { x, y });
            }
            i = i + 1;
        }
        proof {
            assert forall|p: Position| p.in_bounds() implies self@[cell_index(p)]
                != BoardCell::Empty by {
                lemma_index_of_position(p);
            }
        }
        None
    }
}

} // verus!
