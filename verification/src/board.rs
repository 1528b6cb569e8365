//! The board of a battleship game: a square grid of cells on which boats are
//! laid out as straight lines that may not overlap.

use vstd::prelude::*;
use vstd::string::StringExecFns;

verus! {

/// The number of rows, and of columns, of a board.
pub const BSIZE: usize = 20;

/// A board, with the stock of boats that its player may place.
pub struct Board {
    boats: [u8; 4],
    data: [[u8; BSIZE]; BSIZE],
}

/// A boat, given by its direction and length.
pub enum Boat {
    /// A boat that runs down a column, over this many rows.
    Vertical(usize),
    /// A boat that runs along a row, over this many columns.
    Horizontal(usize),
}

/// A cell of the board: `x` is the row, `y` the column.
pub struct Pos {
    pub x: usize,
    pub y: usize,
}

/// Why a boat could not be placed.
#[derive(Debug, PartialEq, Eq, Structural, Clone, Copy)]
pub enum Error {
    /// The boat would cover a cell that is taken.
    Overlap,
    /// The boat would run off the board.
    OutOfBounds,
    /// The stock of boats is used up.
    BoatCount,
}

/// Whether the cell in row `x` and column `y` lies on the board.
pub open spec fn on_board(x: int, y: int) -> bool {
    0 <= x < BSIZE && 0 <= y < BSIZE
}

/// The cells that `boat` covers when its first cell is `pos`.
pub open spec fn footprint(boat: Boat, pos: Pos) -> Set<(int, int)> {
    match boat {
        Boat::Vertical(length) => Set::new(
            |cell: (int, int)| pos.x <= cell.0 < pos.x + length && cell.1 == pos.y,
        ),
        Boat::Horizontal(length) => Set::new(
            |cell: (int, int)| cell.0 == pos.x && pos.y <= cell.1 < pos.y + length,
        ),
    }
}

/// Whether `boat` lies on the board when its first cell is `pos`. A boat of
/// length 0 covers nothing, but still may not start further out than one
/// place behind the last cell of its line.
pub open spec fn fits(boat: Boat, pos: Pos) -> bool {
    match boat {
        Boat::Vertical(length) => pos.x + length <= BSIZE && (length > 0 ==> pos.y < BSIZE),
        Boat::Horizontal(length) => pos.y + length <= BSIZE && (length > 0 ==> pos.x < BSIZE),
    }
}

/// The line of `text` in which its character number `k` stands, counted
/// from 0: the number of line feeds before it.
pub open spec fn line_of(text: Seq<char>, k: int) -> int
    decreases k,
{
    if k <= 0 {
        0
    } else {
        line_of(text, k - 1) + (if text[k - 1] == '\n' {
            1int
        } else {
            0int
        })
    }
}

/// The place of character number `k` of `text` within its line, counted
/// from 0.
pub open spec fn column_of(text: Seq<char>, k: int) -> int
    decreases k,
{
    if k <= 0 {
        0
    } else if text[k - 1] == '\n' {
        0
    } else {
        column_of(text, k - 1) + 1
    }
}

/// Whether `text` marks the cell in row `x` and column `y`: a `1` stands in
/// line `x` at place `y`.
pub open spec fn marked(text: Seq<char>, x: int, y: int) -> bool {
    exists|k: int|
        0 <= k < text.len() && text[k] == '1' && line_of(text, k) == x && #[trigger] column_of(
            text,
            k,
        ) == y
}

/// The character that stands at place `k` of the picture of a board with the
/// taken cells `cells`: the rows one after the other, each as one character
/// per cell and a line feed.
pub open spec fn picture_char(cells: Set<(int, int)>, k: int) -> char {
    if k % (BSIZE + 1) == BSIZE as int {
        '\n'
    } else if cells.contains((k / (BSIZE + 1), k % (BSIZE + 1))) {
        '1'
    } else {
        '0'
    }
}

/// The picture of a board with the taken cells `cells`.
pub open spec fn picture(cells: Set<(int, int)>) -> Seq<char> {
    Seq::new((BSIZE * (BSIZE + 1)) as nat, |k: int| picture_char(cells, k))
}

impl Board {
    #[verifier::type_invariant]
    spec fn inv(self) -> bool {
        forall|x: int, y: int| on_board(x, y) ==> #[trigger] self.data@[x]@[y] <= 1
    }

    /// The cells that are taken.
    pub closed spec fn cells(self) -> Set<(int, int)> {
        Set::new(|cell: (int, int)| on_board(cell.0, cell.1) && self.data@[cell.0]@[cell.1] != 0)
    }

    /// The stock of boats.
    pub closed spec fn boats(self) -> Seq<u8> {
        self.boats@
    }

    /// Makes an empty board. The stock holds the first four numbers of
    /// `boats`, and 0 where `boats` has fewer.
    pub fn new(boats: &[u8]) -> (board: Board)
        ensures
            board.cells() == Set::<(int, int)>::empty(),
            board.boats().len() == 4,
            forall|i: int|
                0 <= i < 4 ==> board.boats()[i] == (if i < boats@.len() {
                    boats@[i]
                } else {
                    0u8
                }),
    {
        let mut stock: [u8; 4] = [0; 4];
        let mut i: usize = 0;
        while i < 4 && i < boats.len()
            invariant
                i <= 4,
                i <= boats@.len(),
                forall|k: int| 0 <= k < i ==> #[trigger] stock@[k] == boats@[k],
                forall|k: int| i <= k < 4 ==> #[trigger] stock@[k] == 0,
            decreases 4 - i,
        {
            stock[i] = boats[i];
            i = i + 1;
        }
        let board = Board { boats: stock, data: [[0; BSIZE]; BSIZE] };
        assert(board.cells() =~= Set::<(int, int)>::empty());
        board
    }

    /// Places `boat` with its first cell at `pos`, unless it would run off
    /// the board or cover a taken cell; a boat that is refused leaves the
    /// board as it was.
    pub fn add_boat(&mut self, boat: Boat, pos: Pos) -> (done: Result<(), Error>)
        ensures
            final(self).boats() == old(self).boats(),
            !fits(boat, pos) ==> done == Err::<(), Error>(Error::OutOfBounds),
            fits(boat, pos) && !footprint(boat, pos).disjoint(old(self).cells()) ==> done == Err::<
                (),
                Error,
            >(Error::Overlap),
            fits(boat, pos) && footprint(boat, pos).disjoint(old(self).cells()) ==> done == Ok::<
                (),
                Error,
            >(()),
            done is Ok ==> final(self).cells() == old(self).cells().union(footprint(boat, pos)),
            done is Err ==> final(self).cells() == old(self).cells(),
    {
        match boat {
            Boat::Vertical(length) => self.add_vertical_boat(length, pos),
            Boat::Horizontal(length) => self.add_horizontal_boat(length, pos),
        }
    }

    /// Whether the cell at `pos` is taken.
    pub fn is_occupied(&self, pos: Pos) -> (taken: bool)
        requires
            on_board(pos.x as int, pos.y as int),
        ensures
            taken == self.cells().contains((pos.x as int, pos.y as int)),
    {
        self.data[pos.x][pos.y] != 0
    }

    /// Takes the cell at `pos`.
    pub fn place_boat(&mut self, pos: Pos)
        requires
            on_board(pos.x as int, pos.y as int),
        ensures
            final(self).boats() == old(self).boats(),
            final(self).cells() == old(self).cells().insert((pos.x as int, pos.y as int)),
    {
        proof {
            use_type_invariant(&*self);
        }
        self.data[pos.x][pos.y] = 1;
        assert(self.cells() =~= old(self).cells().insert((pos.x as int, pos.y as int)));
    }

    /// Places a boat of `length` cells down the column of `pos`, from `pos`
    /// on.
    pub fn add_vertical_boat(&mut self, length: usize, pos: Pos) -> (done: Result<(), Error>)
        ensures
            final(self).boats() == old(self).boats(),
            !fits(Boat::Vertical(length), pos) ==> done == Err::<(), Error>(Error::OutOfBounds),
            fits(Boat::Vertical(length), pos) && !footprint(Boat::Vertical(length), pos).disjoint(
                old(self).cells(),
            ) ==> done == Err::<(), Error>(Error::Overlap),
            fits(Boat::Vertical(length), pos) && footprint(Boat::Vertical(length), pos).disjoint(
                old(self).cells(),
            ) ==> done == Ok::<(), Error>(()),
            done is Ok ==> final(self).cells() == old(self).cells().union(
                footprint(Boat::Vertical(length), pos),
            ),
            done is Err ==> final(self).cells() == old(self).cells(),
    {
        let ghost cover = footprint(Boat::Vertical(length), pos);
        if length > BSIZE || pos.x > BSIZE - length || (length > 0 && pos.y >= BSIZE) {
            return Err(Error::OutOfBounds);
        }
        let mut i: usize = 0;
        while i < length
            invariant
                i <= length,
                pos.x + length <= BSIZE,
                length > 0 ==> pos.y < BSIZE,
                cover == footprint(Boat::Vertical(length), pos),
                forall|k: int| pos.x <= k < pos.x + i ==> !self.cells().contains((k, pos.y as int)),
            decreases length - i,
        {
            if self.is_occupied(Pos { x: pos.x + i, y: pos.y }) {
                assert(cover.contains((pos.x + i, pos.y as int)));
                return Err(Error::Overlap);
            }
            i = i + 1;
        }
        assert(cover.disjoint(self.cells())) by {
            assert forall|cell: (int, int)| cover.contains(cell) implies !self.cells().contains(
                cell,
            ) by {}
        }
        let mut i: usize = 0;
        while i < length
            invariant
                i <= length,
                pos.x + length <= BSIZE,
                length > 0 ==> pos.y < BSIZE,
                self.boats() == old(self).boats(),
                self.cells() == old(self).cells().union(
                    Set::new(|cell: (int, int)| pos.x <= cell.0 < pos.x + i && cell.1 == pos.y),
                ),
            decreases length - i,
        {
            self.place_boat(Pos { x: pos.x + i, y: pos.y });
            i = i + 1;
            assert(self.cells() =~= old(self).cells().union(
                Set::new(|cell: (int, int)| pos.x <= cell.0 < pos.x + i && cell.1 == pos.y),
            ));
        }
        assert(self.cells() =~= old(self).cells().union(cover));
        Ok(())
    }

    /// Places a boat of `length` cells along the row of `pos`, from `pos` on.
    pub fn add_horizontal_boat(&mut self, length: usize, pos: Pos) -> (done: Result<(), Error>)
        ensures
            final(self).boats() == old(self).boats(),
            !fits(Boat::Horizontal(length), pos) ==> done == Err::<(), Error>(Error::OutOfBounds),
            fits(Boat::Horizontal(length), pos) && !footprint(
                Boat::Horizontal(length),
                pos,
            ).disjoint(old(self).cells()) ==> done == Err::<(), Error>(Error::Overlap),
            fits(Boat::Horizontal(length), pos) && footprint(Boat::Horizontal(length), pos).disjoint(
                old(self).cells(),
            ) ==> done == Ok::<(), Error>(()),
            done is Ok ==> final(self).cells() == old(self).cells().union(
                footprint(Boat::Horizontal(length), pos),
            ),
            done is Err ==> final(self).cells() == old(self).cells(),
    {
        let ghost cover = footprint(Boat::Horizontal(length), pos);
        if length > BSIZE || pos.y > BSIZE - length || (length > 0 && pos.x >= BSIZE) {
            return Err(Error::OutOfBounds);
        }
        let mut i: usize = 0;
        while i < length
            invariant
                i <= length,
                pos.y + length <= BSIZE,
                length > 0 ==> pos.x < BSIZE,
                cover == footprint(Boat::Horizontal(length), pos),
                forall|k: int| pos.y <= k < pos.y + i ==> !self.cells().contains((pos.x as int, k)),
            decreases length - i,
        {
            if self.is_occupied(Pos { x: pos.x, y: pos.y + i }) {
                assert(cover.contains((pos.x as int, pos.y + i)));
                return Err(Error::Overlap);
            }
            i = i + 1;
        }
        assert(cover.disjoint(self.cells())) by {
            assert forall|cell: (int, int)| cover.contains(cell) implies !self.cells().contains(
                cell,
            ) by {}
        }
        let mut i: usize = 0;
        while i < length
            invariant
                i <= length,
                pos.y + length <= BSIZE,
                length > 0 ==> pos.x < BSIZE,
                self.boats() == old(self).boats(),
                self.cells() == old(self).cells().union(
                    Set::new(|cell: (int, int)| cell.0 == pos.x && pos.y <= cell.1 < pos.y + i),
                ),
            decreases length - i,
        {
            self.place_boat(Pos { x: pos.x, y: pos.y + i });
            i = i + 1;
            assert(self.cells() =~= old(self).cells().union(
                Set::new(|cell: (int, int)| cell.0 == pos.x && pos.y <= cell.1 < pos.y + i),
            ));
        }
        assert(self.cells() =~= old(self).cells().union(cover));
        Ok(())
    }

    /// Reads a board from its picture: the cell in row `x` and column `y` is
    /// taken where line `x` of `s` has a `1` at place `y`. Every other
    /// character stands for a free cell, marks beyond the last row or column
    /// are passed over, and the stock of boats is empty.
    pub fn from(s: String) -> (board: Board)
        ensures
            board.boats() == Seq::new(4, |i: int| 0u8),
            board.cells() == Set::new(
                |cell: (int, int)| on_board(cell.0, cell.1) && marked(s@, cell.0, cell.1),
            ),
    {
        let mut board = Board::new(&[]);
        assert(board.boats() =~= Seq::new(4, |i: int| 0u8));
        let text = s.as_str();
        let count = text.unicode_len();
        let mut row: usize = 0;
        let mut column: usize = 0;
        let mut k: usize = 0;
        while k < count
            invariant
                k <= count,
                count == text@.len(),
                text@ == s@,
                board.boats() == Seq::new(4, |i: int| 0u8),
                row <= k,
                column <= k,
                row == line_of(text@, k as int),
                column == column_of(text@, k as int),
                board.cells() == Set::new(
                    |cell: (int, int)|
                        on_board(cell.0, cell.1) && exists|j: int|
                            0 <= j < k && text@[j] == '1' && line_of(text@, j) == cell.0
                                && #[trigger] column_of(text@, j) == cell.1,
                ),
            decreases count - k,
        {
            let c = text.get_char(k);
            let ghost before = board.cells();
            if c == '1' && row < BSIZE && column < BSIZE {
                board.place_boat(Pos { x: row, y: column });
            }
            assert(line_of(text@, k + 1) == row + (if c == '\n' {
                1int
            } else {
                0int
            }));
            assert(column_of(text@, k + 1) == (if c == '\n' {
                0
            } else {
                column + 1
            }));
            assert(board.cells() =~= Set::new(
                |cell: (int, int)|
                    on_board(cell.0, cell.1) && exists|j: int|
                        0 <= j < k + 1 && text@[j] == '1' && line_of(text@, j) == cell.0
                            && #[trigger] column_of(text@, j) == cell.1,
            )) by {
                assert forall|cell: (int, int)| #[trigger]
                    board.cells().contains(cell) implies on_board(cell.0, cell.1) && exists|j: int|
                    0 <= j < k + 1 && text@[j] == '1' && line_of(text@, j) == cell.0
                        && #[trigger] column_of(text@, j) == cell.1 by {
                    if before.contains(cell) {
                        let j = choose|j: int|
                            0 <= j < k && text@[j] == '1' && line_of(text@, j) == cell.0
                                && #[trigger] column_of(text@, j) == cell.1;
                        assert(0 <= j < k + 1);
                    } else {
                        assert(column_of(text@, k as int) == cell.1);
                    }
                }
                assert forall|cell: (int, int)|
                    on_board(cell.0, cell.1) && (exists|j: int|
                        0 <= j < k + 1 && text@[j] == '1' && line_of(text@, j) == cell.0
                            && #[trigger] column_of(text@, j) == cell.1) implies #[trigger]
                    board.cells().contains(cell) by {
                    let j = choose|j: int|
                        0 <= j < k + 1 && text@[j] == '1' && line_of(text@, j) == cell.0
                            && #[trigger] column_of(text@, j) == cell.1;
                    if j < k {
                        assert(before.contains(cell));
                    }
                }
            }
            if c == '\n' {
                row = row + 1;
                column = 0;
            } else {
                column = column + 1;
            }
            k = k + 1;
        }
        assert(board.cells() =~= Set::new(
            |cell: (int, int)| on_board(cell.0, cell.1) && marked(s@, cell.0, cell.1),
        ));
        board
    }

    /// Draws the board: its rows one after the other, each as one character
    /// per cell, `1` for a taken cell and `0` for a free one, and a line
    /// feed.
    pub fn to_string(&self) -> (text: String)
        ensures
            text@ == picture(self.cells()),
            forall|cell: (int, int)| #[trigger]
                self.cells().contains(cell) ==> on_board(cell.0, cell.1),
    {
        proof {
            use_type_invariant(self);
            reveal_strlit("0");
            reveal_strlit("1");
            reveal_strlit("\n");
        }
        let mut text = String::new();
        let mut x: usize = 0;
        while x < BSIZE
            invariant
                x <= BSIZE,
                "0"@ == seq!['0'],
                "1"@ == seq!['1'],
                "\n"@ == seq!['\n'],
                forall|a: int, b: int| on_board(a, b) ==> #[trigger] self.data@[a]@[b] <= 1,
                text@ == Seq::new(
                    (x * (BSIZE + 1)) as nat,
                    |k: int| picture_char(self.cells(), k),
                ),
            decreases BSIZE - x,
        {
            let mut y: usize = 0;
            while y < BSIZE
                invariant
                    y <= BSIZE,
                    x < BSIZE,
                    "0"@ == seq!['0'],
                    "1"@ == seq!['1'],
                    forall|a: int, b: int| on_board(a, b) ==> #[trigger] self.data@[a]@[b] <= 1,
                    text@ == Seq::new(
                        (x * (BSIZE + 1) + y) as nat,
                        |k: int| picture_char(self.cells(), k),
                    ),
                decreases BSIZE - y,
            {
                let ghost k = x * (BSIZE + 1) + y;
                assert(k / 21 == x && k % 21 == y) by (nonlinear_arith)
                    requires
                        k == x * 21 + y,
                        0 <= y < 20,
                        0 <= x,
                ;
                if self.data[x][y] == 0 {
                    text.append("0");
                } else {
                    text.append("1");
                }
                y = y + 1;
                assert(text@ =~= Seq::new(
                    (x * (BSIZE + 1) + y) as nat,
                    |k: int| picture_char(self.cells(), k),
                ));
            }
            let ghost k = x * (BSIZE + 1) + BSIZE;
            assert(k % 21 == 20) by (nonlinear_arith)
                requires
                    k == x * 21 + 20,
                    0 <= x,
            ;
            text.append("\n");
            x = x + 1;
            assert(text@ =~= Seq::new(
                (x * (BSIZE + 1)) as nat,
                |k: int| picture_char(self.cells(), k),
            ));
        }
        text
    }
}

/// Where the characters of a picture stand: number `k` in line `k / 21` at
/// place `k % 21`.
proof fn lemma_picture_places(cells: Set<(int, int)>, k: int)
    requires
        0 <= k <= BSIZE * (BSIZE + 1),
    ensures
        line_of(picture(cells), k) == k / (BSIZE + 1),
        column_of(picture(cells), k) == k % (BSIZE + 1),
    decreases k,
{
    assert(BSIZE + 1 == 21);
    if k > 0 {
        lemma_picture_places(cells, k - 1);
        assert(picture(cells)[k - 1] == picture_char(cells, k - 1));
        if (k - 1) % 21 == 20 {
            assert(picture(cells)[k - 1] == '\n');
            assert(k / 21 == (k - 1) / 21 + 1 && k % 21 == 0);
        } else {
            assert(picture(cells)[k - 1] != '\n');
            assert(k / 21 == (k - 1) / 21 && k % 21 == (k - 1) % 21 + 1);
        }
    }
}

/// Reading a board back from its picture gives the board: the cells that
/// the picture of `cells` marks are `cells` themselves, as long as these lie
/// on the board.
pub proof fn lemma_picture_read_back(cells: Set<(int, int)>)
    requires
        forall|cell: (int, int)| #[trigger] cells.contains(cell) ==> on_board(cell.0, cell.1),
    ensures
        Set::new(
            |cell: (int, int)| on_board(cell.0, cell.1) && marked(picture(cells), cell.0, cell.1),
        ) == cells,
{
    let text = picture(cells);
    let read = Set::new(|cell: (int, int)| on_board(cell.0, cell.1) && marked(text, cell.0, cell.1));
    assert forall|cell: (int, int)| cells.contains(cell) implies read.contains(cell) by {
        let k = cell.0 * (BSIZE + 1) + cell.1;
        lemma_picture_places(cells, k);
        assert(text[k] == picture_char(cells, k));
        assert(column_of(text, k) == cell.1);
    }
    assert forall|cell: (int, int)| read.contains(cell) implies cells.contains(cell) by {
        let k = choose|k: int|
            0 <= k < text.len() && text[k] == '1' && line_of(text, k) == cell.0
                && #[trigger] column_of(text, k) == cell.1;
        lemma_picture_places(cells, k);
        assert(text[k] == picture_char(cells, k));
    }
    assert(read =~= cells);
}

} // verus!
