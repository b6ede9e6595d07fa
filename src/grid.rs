//! The 5×5 grid of labelled cells.
use vstd::prelude::*;
use vstd::std_specs::iter::IteratorSpec;

verus! {

broadcast use vstd::string::axiom_spec_iter, vstd::string::next_postcondition;

/// The side of the square grid.
pub const SIZE: usize = 5;

/// One cell of the grid: its character and its coordinates.
#[derive(Clone, Copy, Debug, PartialEq, Eq)]
pub struct Letter {
    pub letter: char,
    pub row: usize,
    pub col: usize,
}

impl Letter {
    /// The identity of the cell: its row and column.
    pub fn get_id(&self) -> (r: (usize, usize))
        ensures
            r == (self.row, self.col),
    {
        (self.row, self.col)
    }

    /// The character that the cell holds.
    pub fn get_letter(&self) -> (r: char)
        ensures
            r == self.letter,
    {
        self.letter
    }
}

/// Why a grid could not be built.
#[derive(Clone, Copy, Debug, PartialEq, Eq)]
pub enum GridError {
    /// The input did not hold exactly `SIZE * SIZE` characters.
    InvalidGridInput,
}

/// The cell at `(row, col)` of a grid.
pub open spec fn cell_at(g: Seq<Vec<Letter>>, row: int, col: int) -> Letter {
    g[row]@[col]
}

/// `g` is a `SIZE × SIZE` grid whose cell at `(r, c)` carries the
/// coordinates `(r, c)`.
pub open spec fn grid_wf(g: Seq<Vec<Letter>>) -> bool {
    &&& g.len() == SIZE
    &&& forall|r: int| 0 <= r < SIZE ==> (#[trigger] g[r])@.len() == SIZE
    &&& forall|r: int, c: int|
        0 <= r < SIZE && 0 <= c < SIZE ==> (#[trigger] cell_at(g, r, c)).row == r
            && cell_at(g, r, c).col == c
}

/// `l` is `c` with an ASCII capital turned to its small letter, where `c`
/// is ASCII.
pub open spec fn ascii_lowered(c: char, l: char) -> bool {
    &&& 0x41 <= c as u32 <= 0x5A ==> l as u32 == c as u32 + 0x20
    &&& c as u32 <= 0x7F && !(0x41 <= c as u32 <= 0x5A) ==> l == c
}

/// The lowercase form of a character: the first character of its lowercase
/// mapping.
pub uninterp spec fn lower_char(c: char) -> char;

/// Relies on `char::to_lowercase`, which yields the lowercase mapping of a
/// character as one or more characters; the first of them is kept. An ASCII
/// capital maps to its small letter, and any other ASCII character to itself.
#[verifier::external_body]
fn lowercase_char(c: char) -> (r: char)
    ensures
        r == lower_char(c),
        0x41 <= c as u32 <= 0x5A ==> r as u32 == c as u32 + 0x20,
        c as u32 <= 0x7F && !(0x41 <= c as u32 <= 0x5A) ==> r == c,
{
    c.to_lowercase().next().unwrap_or(c)
}

/// The characters of `s`, in order.
fn chars_of(s: &String) -> (r: Vec<char>)
    ensures
        r@ == s@,
{
    let mut it = s.as_str().chars();
    let mut out: Vec<char> = Vec::new();
    loop
        invariant
            out@ + it.remaining() == s@,
            it.decrease() is Some,
        ensures
            out@ == s@,
        decreases it.decrease()->0,
    {
        match it.next() {
            Some(c) => {
                out.push(c);
            },
            None => {
                break ;
            },
        }
    }
    out
}

/// Builds the grid from `SIZE * SIZE` characters laid out row by row, each
/// turned to lowercase.
pub fn generate_grid(combo: &String) -> (r: Result<Vec<Vec<Letter>>, GridError>)
    ensures
        combo@.len() != SIZE * SIZE <==> r == Err::<Vec<Vec<Letter>>, GridError>(
            GridError::InvalidGridInput,
        ),
        r matches Ok(g) ==> grid_wf(g@) && forall|row: int, col: int|
            0 <= row < SIZE && 0 <= col < SIZE ==> (#[trigger] cell_at(g@, row, col)).letter
                == lower_char(combo@[row * SIZE + col]) && ascii_lowered(
                combo@[row * SIZE + col],
                cell_at(g@, row, col).letter,
            ),
{
    let chars = chars_of(combo);
    if chars.len() != SIZE * SIZE {
        return Err(GridError::InvalidGridInput);
    }
    let mut grid: Vec<Vec<Letter>> = Vec::new();
    let mut row: usize = 0;
    while row < SIZE
        invariant
            0 <= row <= SIZE,
            chars@ == combo@,
            chars@.len() == SIZE * SIZE,
            grid@.len() == row,
            forall|r: int| 0 <= r < row ==> (#[trigger] grid@[r])@.len() == SIZE,
            forall|r: int, c: int|
                0 <= r < row && 0 <= c < SIZE ==> (#[trigger] cell_at(grid@, r, c)) == (Letter {
                    letter: lower_char(combo@[r * SIZE + c]),
                    row: r as usize,
                    col: c as usize,
                }) && ascii_lowered(combo@[r * SIZE + c], cell_at(grid@, r, c).letter),
        decreases SIZE - row,
    {
        let mut line: Vec<Letter> = Vec::new();
        let mut col: usize = 0;
        while col < SIZE
            invariant
                0 <= row < SIZE,
                0 <= col <= SIZE,
                chars@ == combo@,
                chars@.len() == SIZE * SIZE,
                line@.len() == col,
                forall|c: int|
                    0 <= c < col ==> (#[trigger] line@[c]) == (Letter {
                        letter: lower_char(combo@[row * SIZE + c]),
                        row: row,
                        col: c as usize,
                    }) && ascii_lowered(combo@[row * SIZE + c], line@[c].letter),
            decreases SIZE - col,
        {
            let letter = lowercase_char(chars[row * SIZE + col]);
            line.push(Letter { letter, row, col });
            col += 1;
        }
        let ghost before = grid@;
        grid.push(line);
        assert forall|r: int, c: int| 0 <= r <= row && 0 <= c < SIZE implies #[trigger] cell_at(
            grid@,
            r,
            c,
        ) == (Letter { letter: lower_char(combo@[r * SIZE + c]), row: r as usize, col: c as usize })
            && ascii_lowered(combo@[r * SIZE + c], cell_at(grid@, r, c).letter) by {
            if r < row {
                assert(grid@[r] == before[r]);
                assert(cell_at(before, r, c) == cell_at(grid@, r, c));
            }
        }
        row += 1;
    }
    Ok(grid)
}

} // verus!
