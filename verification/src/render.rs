//! A text drawing of the board with box characters, marking a cursor, a
//! selected square and target squares.
use vstd::prelude::*;
use crate::bits::bit;
use crate::board::{Board, BoardView};
use crate::items::{Piece, piece_char};
use crate::text::push_char;

verus! {

/// The cells of a border line: `first` then `mid` before every three
/// horizontal strokes, over `n` files.
pub open spec fn border_cells(first: char, mid: char, n: int) -> Seq<char>
    decreases n,
{
    if n <= 0 {
        Seq::empty()
    } else {
        border_cells(first, mid, n - 1) + seq![if n - 1 == 0 { first } else { mid }, '─', '─', '─']
    }
}

/// A border line with the given corner and joint characters.
pub open spec fn border(first: char, mid: char, last: char) -> Seq<char> {
    seq![' ', ' ', ' '] + border_cells(first, mid, 8) + seq![last]
}

/// One cell: the piece letter (or a blank) framed by `[ ]` at the cursor,
/// `( )` on the selected square, followed by `*` on a target square; an
/// empty selected square shows `(*)` and an empty target ` * `.
pub open spec fn cell(v: BoardView, sq: int, cursor: u64, selected: u64, moves: u64) -> Seq<char> {
    let p = v.pieces[sq];
    if p != 0 {
        let g = piece_char(p);
        if bit(cursor, sq) {
            seq!['│', '[', g, ']']
        } else if bit(selected, sq) {
            seq!['│', '(', g, ')']
        } else if bit(moves, sq) {
            seq!['│', ' ', g, '*']
        } else {
            seq!['│', ' ', g, ' ']
        }
    } else if bit(cursor, sq) {
        seq!['│', '[', ' ', ']']
    } else if bit(selected, sq) {
        seq!['│', '(', '*', ')']
    } else if bit(moves, sq) {
        seq!['│', ' ', '*', ' ']
    } else {
        seq!['│', ' ', ' ', ' ']
    }
}

/// The cells of the first `n` files of `rank`.
pub open spec fn row_cells(v: BoardView, rank: int, cursor: u64, selected: u64, moves: u64, n: int) -> Seq<char>
    decreases n,
{
    if n <= 0 {
        Seq::empty()
    } else {
        row_cells(v, rank, cursor, selected, moves, n - 1) + cell(v, rank * 8 + n - 1, cursor, selected, moves)
    }
}

/// The line of `rank`: its number, two spaces, its eight cells, a bar.
pub open spec fn row(v: BoardView, rank: int, cursor: u64, selected: u64, moves: u64) -> Seq<char> {
    seq![(49 + rank) as char, ' ', ' '] + row_cells(v, rank, cursor, selected, moves, 8) + seq!['│']
}

/// The lines of the top `n` ranks, each but the first rank followed by a
/// separator line.
pub open spec fn body(v: BoardView, cursor: u64, selected: u64, moves: u64, n: int) -> Seq<Seq<char>>
    decreases n,
{
    if n <= 0 {
        Seq::empty()
    } else {
        let rank = 8 - n;
        body(v, cursor, selected, moves, n - 1) + seq![row(v, rank, cursor, selected, moves)] + (if rank > 0 {
            seq![border('├', '┼', '┤')]
        } else {
            Seq::empty()
        })
    }
}

/// Three spaces and a file letter for each of the first `n` files.
pub open spec fn label_cells(n: int) -> Seq<char>
    decreases n,
{
    if n <= 0 {
        Seq::empty()
    } else {
        label_cells(n - 1) + seq![' ', ' ', ' ', (97 + n - 1) as char]
    }
}

/// The file letters under the board, each under its column.
pub open spec fn file_labels() -> Seq<char> {
    seq![' ', ' '] + label_cells(8)
}

/// The whole drawing, line by line.
pub open spec fn render_spec(v: BoardView, cursor: u64, selected: u64, moves: u64) -> Seq<Seq<char>> {
    seq![border('┌', '┬', '┐')] + body(v, cursor, selected, moves, 8) + seq![border('└', '┴', '┘'), file_labels()]
}

fn push_border(first: char, mid: char, last: char) -> (r: String)
    ensures
        r@ == border(first, mid, last),
{
    let mut s = String::new();
    push_char(&mut s, ' ');
    push_char(&mut s, ' ');
    push_char(&mut s, ' ');
    let mut file: usize = 0;
    while file < 8
        invariant
            file <= 8,
            s@ == seq![' ', ' ', ' '] + border_cells(first, mid, file as int),
        decreases 8 - file,
    {
        push_char(&mut s, if file == 0 { first } else { mid });
        push_char(&mut s, '─');
        push_char(&mut s, '─');
        push_char(&mut s, '─');
        file += 1;
    }
    push_char(&mut s, last);
    s
}

fn bit_of(b: u64, sq: usize) -> (r: bool)
    requires
        sq < 64,
    ensures
        r == bit(b, sq as int),
{
    (b >> (sq as u64)) & 1 == 1
}

fn push_cell(s: &mut String, board: &Board, sq: usize, cursor: u64, selected: u64, moves: u64)
    requires
        sq < 64,
    ensures
        final(s)@ == old(s)@ + cell(board@, sq as int, cursor, selected, moves),
{
    let is_cursor = bit_of(cursor, sq);
    let is_selected = bit_of(selected, sq);
    let is_move = bit_of(moves, sq);
    let p = board.piece_on(sq);
    push_char(s, '│');
    if p != 0 {
        let g = Piece::to_char(p);
        if is_cursor {
            push_char(s, '[');
            push_char(s, g);
            push_char(s, ']');
        } else if is_selected {
            push_char(s, '(');
            push_char(s, g);
            push_char(s, ')');
        } else if is_move {
            push_char(s, ' ');
            push_char(s, g);
            push_char(s, '*');
        } else {
            push_char(s, ' ');
            push_char(s, g);
            push_char(s, ' ');
        }
    } else if is_cursor {
        push_char(s, '[');
        push_char(s, ' ');
        push_char(s, ']');
    } else if is_selected {
        push_char(s, '(');
        push_char(s, '*');
        push_char(s, ')');
    } else if is_move {
        push_char(s, ' ');
        push_char(s, '*');
        push_char(s, ' ');
    } else {
        push_char(s, ' ');
        push_char(s, ' ');
        push_char(s, ' ');
    }
    assert(s@ =~= old(s)@ + cell(board@, sq as int, cursor, selected, moves));
}

impl Board {
    /// Draws the board (`render_spec`): rank 8 at the top, the cursor
    /// square framed `[ ]`, the selected one `( )`, target squares marked
    /// `*`.
    pub fn render_board_debug(&self, cursor: u64, selected: u64, moves: u64) -> (r: Vec<String>)
        ensures
            r@.len() == render_spec(self@, cursor, selected, moves).len(),
            forall|i: int| 0 <= i < r@.len() ==> #[trigger] r@[i]@ == render_spec(self@, cursor, selected, moves)[i],
    {
        let ghost v = self@;
        let mut lines: Vec<String> = Vec::new();
        lines.push(push_border('┌', '┬', '┐'));
        let mut n: usize = 0;
        while n < 8
            invariant
                n <= 8,
                v == self@,
                lines@.len() == 1 + body(v, cursor, selected, moves, n as int).len(),
                lines@[0]@ == border('┌', '┬', '┐'),
                forall|i: int| 1 <= i < lines@.len() ==> #[trigger] lines@[i]@ == body(v, cursor, selected, moves, n as int)[i - 1],
            decreases 8 - n,
        {
            let rank = 7 - n;
            let mut s = String::new();
            push_char(&mut s, (49u8 + rank as u8) as char);
            push_char(&mut s, ' ');
            push_char(&mut s, ' ');
            let mut file: usize = 0;
            while file < 8
                invariant
                    file <= 8,
                    rank < 8,
                    v == self@,
                    s@ == seq![(49 + rank) as char, ' ', ' '] + row_cells(v, rank as int, cursor, selected, moves, file as int),
                decreases 8 - file,
            {
                push_cell(&mut s, self, rank * 8 + file, cursor, selected, moves);
                file += 1;
            }
            push_char(&mut s, '│');
            let ghost before = lines@;
            let ghost b0 = body(v, cursor, selected, moves, n as int);
            assert(s@ == row(v, rank as int, cursor, selected, moves));
            lines.push(s);
            if rank > 0 {
                lines.push(push_border('├', '┼', '┤'));
            }
            proof {
                let b1 = body(v, cursor, selected, moves, n + 1);
                assert(b1 == b0 + seq![row(v, rank as int, cursor, selected, moves)] + (if rank > 0 {
                    seq![border('├', '┼', '┤')]
                } else {
                    Seq::<Seq<char>>::empty()
                }));
                assert forall|i: int| 1 <= i < lines@.len() implies #[trigger] lines@[i]@ == b1[i - 1] by {
                    if i < before.len() {
                        assert(lines@[i] == before[i]);
                    }
                }
            }
            n += 1;
        }
        lines.push(push_border('└', '┴', '┘'));
        let mut labels = String::new();
        push_char(&mut labels, ' ');
        push_char(&mut labels, ' ');
        let mut k: usize = 0;
        while k < 8
            invariant
                k <= 8,
                labels@ == seq![' ', ' '] + label_cells(k as int),
            decreases 8 - k,
        {
            push_char(&mut labels, ' ');
            push_char(&mut labels, ' ');
            push_char(&mut labels, ' ');
            push_char(&mut labels, (97u8 + k as u8) as char);
            k += 1;
        }
        lines.push(labels);
        lines
    }
}

} // verus!
