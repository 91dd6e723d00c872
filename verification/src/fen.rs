//! The board-notation decoder: six whitespace-separated fields become
//! a validated snapshot of the board. The placement field is run-length
//! expanded (each digit 1–8 stands for that many empty squares) and
//! scanned row by row into pieces; the remaining fields give the side
//! to move, the castling rights, and the two move counters.

use vstd::prelude::*;

use crate::pieces::{
    get_piece_type, is_piece_char, is_piece_letter, spec_piece_color, spec_piece_kind, Color,
    Piece,
};
use crate::text::{
    chars_of, contains_char, dec_val, is_dec_numeral, parse_decimal, split_chars, split_on,
};

verus! {

/// A decoded board snapshot: the pieces in row-major scan order, the
/// side to move, the four castling rights (White kingside, White
/// queenside, Black kingside, Black queenside), the en-passant target
/// (never recorded by this decoder), and the two move counters.
#[derive(Debug, PartialEq, Eq)]
pub struct Fen {
    pub pieces: Vec<Piece>,
    pub active_color: Color,
    pub castling_rights: (bool, bool, bool, bool),
    pub en_passant: Option<(i32, i32)>,
    pub halfmove_clock: i32,
    pub fullmove_number: i32,
}

/// Which numeric field of the notation was rejected.
#[derive(Debug, PartialEq, Eq, Structural, Clone, Copy)]
pub enum NumericField {
    Halfmove,
    Fullmove,
}

/// Why a notation string was rejected: it did not have exactly six
/// fields, its placement field held an unrecognized character (carried
/// along), or a move counter was not a decimal number in range.
#[derive(Debug, PartialEq, Eq, Structural, Clone, Copy)]
pub enum FenError {
    Format,
    Classification(char),
    Numeric(NumericField),
}

/// A run-length digit: that many consecutive empty squares.
pub open spec fn is_run_digit(c: char) -> bool {
    '1' <= c && c <= '8'
}

/// How many empty squares a run-length digit stands for.
pub open spec fn run_len(c: char) -> int {
    c as int - '0' as int
}

/// A character the placement field may hold: a piece letter, a
/// run-length digit, or the row separator.
pub open spec fn is_placement_char(c: char) -> bool {
    is_piece_char(c) || is_run_digit(c) || c == '/'
}

pub open spec fn placement_ok(s: Seq<char>) -> bool {
    forall|i: int| 0 <= i < s.len() ==> is_placement_char(#[trigger] s[i])
}

/// The first character of `s` that is not a placement character
/// (meaningful only when such a character exists).
pub open spec fn first_invalid(s: Seq<char>) -> char
    decreases s.len(),
{
    if s.len() == 0 {
        ' '
    } else if !is_placement_char(s[0]) {
        s[0]
    } else {
        first_invalid(s.skip(1))
    }
}

proof fn lemma_first_invalid(s: Seq<char>, k: int)
    requires
        0 <= k < s.len(),
        !is_placement_char(s[k]),
        forall|j: int| 0 <= j < k ==> is_placement_char(#[trigger] s[j]),
    ensures
        first_invalid(s) == s[k],
    decreases k,
{
    if k > 0 {
        lemma_first_invalid(s.skip(1), k - 1);
    }
}

/// A run of `n` blank squares.
pub open spec fn blanks(n: nat) -> Seq<char> {
    Seq::new(n, |i: int| ' ')
}

/// Run-length expansion of a row: each digit 1–8 becomes that many
/// blank squares; every other character is kept as it is.
pub open spec fn expand(row: Seq<char>) -> Seq<char>
    decreases row.len(),
{
    if row.len() == 0 {
        Seq::<char>::empty()
    } else if is_run_digit(row[0]) {
        blanks(run_len(row[0]) as nat) + expand(row.skip(1))
    } else {
        seq![row[0]] + expand(row.skip(1))
    }
}

proof fn lemma_expand_push(row: Seq<char>, c: char)
    ensures
        expand(row.push(c)) == expand(row) + (if is_run_digit(c) {
            blanks(run_len(c) as nat)
        } else {
            seq![c]
        }),
    decreases row.len(),
{
    let tail = if is_run_digit(c) {
        blanks(run_len(c) as nat)
    } else {
        seq![c]
    };
    if row.len() == 0 {
        assert(row.push(c)[0] == c);
        assert(row.push(c).skip(1) =~= Seq::<char>::empty());
        assert(expand(Seq::<char>::empty()) == Seq::<char>::empty());
        assert(expand(row.push(c)) =~= expand(row) + tail);
    } else {
        assert(row.push(c)[0] == row[0]);
        assert(row.push(c).skip(1) =~= row.skip(1).push(c));
        lemma_expand_push(row.skip(1), c);
        assert(expand(row.push(c)) =~= expand(row) + tail);
    }
}

/// The number of squares one placement character stands for.
pub open spec fn char_width(c: char) -> int {
    if is_run_digit(c) {
        run_len(c)
    } else {
        1
    }
}

/// The number of squares a row describes: the sum of its digit
/// run-lengths and letter counts.
pub open spec fn row_width(row: Seq<char>) -> int
    decreases row.len(),
{
    if row.len() == 0 {
        0int
    } else {
        char_width(row[0]) + row_width(row.skip(1))
    }
}

/// Run-length expansion is consistent: an expanded row has exactly as
/// many cells as the sum of its digit run-lengths and letter counts.
pub proof fn lemma_expand_len(row: Seq<char>)
    ensures
        expand(row).len() == row_width(row),
        row_width(row) >= 0,
    decreases row.len(),
{
    if row.len() > 0 {
        lemma_expand_len(row.skip(1));
    }
}

proof fn lemma_row_width_bound(row: Seq<char>)
    ensures
        row_width(row) <= 8 * row.len(),
    decreases row.len(),
{
    if row.len() > 0 {
        lemma_row_width_bound(row.skip(1));
    }
}

/// The piece an occupied cell yields at row `r`, column `c`.
pub open spec fn piece_at(ch: char, r: int, c: int) -> Piece {
    Piece {
        position: (r as i32, c as i32),
        color: spec_piece_color(ch),
        kind: spec_piece_kind(ch),
        alive: true,
        moved: false,
    }
}

/// The pieces of one expanded row at row index `r`, scanned left to
/// right starting at column `c`: one piece per non-blank cell.
pub open spec fn row_pieces(cells: Seq<char>, r: int, c: int) -> Seq<Piece>
    decreases cells.len(),
{
    if cells.len() == 0 {
        Seq::<Piece>::empty()
    } else if cells[0] == ' ' {
        row_pieces(cells.skip(1), r, c + 1)
    } else {
        seq![piece_at(cells[0], r, c)] + row_pieces(cells.skip(1), r, c + 1)
    }
}

proof fn lemma_row_pieces_push(cells: Seq<char>, ch: char, r: int, c: int)
    ensures
        row_pieces(cells.push(ch), r, c) == row_pieces(cells, r, c) + (if ch == ' ' {
            Seq::<Piece>::empty()
        } else {
            seq![piece_at(ch, r, c + cells.len())]
        }),
    decreases cells.len(),
{
    let tail = if ch == ' ' {
        Seq::<Piece>::empty()
    } else {
        seq![piece_at(ch, r, c + cells.len())]
    };
    if cells.len() == 0 {
        assert(cells.push(ch)[0] == ch);
        assert(cells.push(ch).skip(1) =~= Seq::<char>::empty());
        assert(row_pieces(Seq::<char>::empty(), r, c + 1) == Seq::<Piece>::empty());
        assert(row_pieces(cells.push(ch), r, c) =~= row_pieces(cells, r, c) + tail);
    } else {
        assert(cells.push(ch)[0] == cells[0]);
        assert(cells.push(ch).skip(1) =~= cells.skip(1).push(ch));
        lemma_row_pieces_push(cells.skip(1), ch, r, c + 1);
        assert(row_pieces(cells.push(ch), r, c) =~= row_pieces(cells, r, c) + tail);
    }
}

/// How many cells of an expanded row are occupied.
pub open spec fn occupied(cells: Seq<char>) -> int
    decreases cells.len(),
{
    if cells.len() == 0 {
        0int
    } else {
        (if cells[0] == ' ' {
            0int
        } else {
            1int
        }) + occupied(cells.skip(1))
    }
}

proof fn lemma_row_pieces_len(cells: Seq<char>, r: int, c: int)
    ensures
        row_pieces(cells, r, c).len() == occupied(cells),
        occupied(cells) >= 0,
    decreases cells.len(),
{
    if cells.len() > 0 {
        lemma_row_pieces_len(cells.skip(1), r, c + 1);
    }
}

/// The pieces of a list of rows, the first row having index `r`.
pub open spec fn rows_pieces(rows: Seq<Seq<char>>, r: int) -> Seq<Piece>
    decreases rows.len(),
{
    if rows.len() == 0 {
        Seq::<Piece>::empty()
    } else {
        row_pieces(expand(rows[0]), r, 0) + rows_pieces(rows.skip(1), r + 1)
    }
}

proof fn lemma_rows_pieces_push(rows: Seq<Seq<char>>, row: Seq<char>, r: int)
    ensures
        rows_pieces(rows.push(row), r) == rows_pieces(rows, r) + row_pieces(
            expand(row),
            r + rows.len(),
            0,
        ),
    decreases rows.len(),
{
    if rows.len() == 0 {
        assert(rows.push(row)[0] == row);
        assert(rows.push(row).skip(1) =~= Seq::<Seq<char>>::empty());
        assert(rows_pieces(Seq::<Seq<char>>::empty(), r + 1) == Seq::<Piece>::empty());
        assert(rows_pieces(rows.push(row), r) =~= rows_pieces(rows, r) + row_pieces(
            expand(row),
            r + rows.len(),
            0,
        ));
    } else {
        assert(rows.push(row)[0] == rows[0]);
        assert(rows.push(row).skip(1) =~= rows.skip(1).push(row));
        lemma_rows_pieces_push(rows.skip(1), row, r + 1);
        assert(rows_pieces(rows.push(row), r) =~= rows_pieces(rows, r) + row_pieces(
            expand(row),
            r + rows.len(),
            0,
        ));
    }
}

/// All pieces a placement field describes, in row-major scan order.
pub open spec fn board_pieces(placement: Seq<char>) -> Seq<Piece> {
    rows_pieces(split_on(placement, '/'), 0)
}

/// The occupied cells of a list of rows, after expansion.
pub open spec fn total_occupied(rows: Seq<Seq<char>>) -> int
    decreases rows.len(),
{
    if rows.len() == 0 {
        0int
    } else {
        occupied(expand(rows[0])) + total_occupied(rows.skip(1))
    }
}

proof fn lemma_rows_pieces_len(rows: Seq<Seq<char>>, r: int)
    ensures
        rows_pieces(rows, r).len() == total_occupied(rows),
        total_occupied(rows) >= 0,
    decreases rows.len(),
{
    if rows.len() > 0 {
        lemma_row_pieces_len(expand(rows[0]), r, 0);
        lemma_rows_pieces_len(rows.skip(1), r + 1);
    }
}

/// A decoded placement yields exactly one piece per occupied cell of
/// its expanded rows.
pub proof fn lemma_piece_count(placement: Seq<char>)
    ensures
        board_pieces(placement).len() == total_occupied(split_on(placement, '/')),
{
    lemma_rows_pieces_len(split_on(placement, '/'), 0);
}

/// A row cut out of a valid placement field: piece letters and
/// run-length digits only.
pub open spec fn row_ok(row: Seq<char>) -> bool {
    forall|i: int| 0 <= i < row.len() ==> is_piece_char(#[trigger] row[i]) || is_run_digit(row[i])
}

proof fn lemma_split_rows_ok(s: Seq<char>)
    requires
        placement_ok(s),
    ensures
        forall|k: int|
            0 <= k < split_on(s, '/').len() ==> row_ok(#[trigger] split_on(s, '/')[k]),
    decreases s.len(),
{
    let rows = split_on(s, '/');
    if s.len() == 0 {
        assert(rows[0].len() == 0);
    } else {
        let t = s.skip(1);
        assert(placement_ok(t)) by {
            assert(forall|i: int| 0 <= i < t.len() ==> t[i] == s[i + 1]);
        }
        lemma_split_rows_ok(t);
        crate::text::lemma_split_on_len(t, '/');
        let rt = split_on(t, '/');
        if s[0] == '/' {
            assert(rows == seq![Seq::<char>::empty()] + rt);
            assert(forall|k: int| 1 <= k < rows.len() ==> rows[k] == rt[k - 1]);
            assert(rows[0].len() == 0);
        } else {
            assert(rows == seq![seq![s[0]] + rt[0]] + rt.skip(1));
            assert(is_piece_char(s[0]) || is_run_digit(s[0]));
            assert(row_ok(rows[0])) by {
                assert(rows[0][0] == s[0]);
                assert(forall|i: int| 1 <= i < rows[0].len() ==> rows[0][i] == rt[0][i - 1]);
            }
            assert(forall|k: int| 1 <= k < rows.len() ==> rows[k] == rt[k]);
        }
    }
}

/// An expanded cell of a letters-and-digits row: a blank or a piece
/// letter.
pub open spec fn cells_ok(cells: Seq<char>) -> bool {
    forall|i: int| 0 <= i < cells.len() ==> cells[i] == ' ' || is_piece_char(#[trigger] cells[i])
}

proof fn lemma_expand_cells_ok(row: Seq<char>)
    requires
        row_ok(row),
    ensures
        cells_ok(expand(row)),
    decreases row.len(),
{
    if row.len() > 0 {
        let t = row.skip(1);
        assert(row_ok(t)) by {
            assert(forall|i: int| 0 <= i < t.len() ==> t[i] == row[i + 1]);
        }
        lemma_expand_cells_ok(t);
        if is_run_digit(row[0]) {
            let b = blanks(run_len(row[0]) as nat);
            assert(forall|i: int| 0 <= i < b.len() ==> b[i] == ' ');
            assert(forall|i: int|
                0 <= i < expand(row).len() ==> expand(row)[i] == if i < b.len() {
                    b[i]
                } else {
                    expand(t)[i - b.len()]
                });
        } else {
            assert(expand(row)[0] == row[0]);
            assert(forall|i: int| 1 <= i < expand(row).len() ==> expand(row)[i] == expand(t)[i - 1]);
        }
    }
}

proof fn lemma_split_on_part_len(s: Seq<char>, sep: char)
    ensures
        split_on(s, sep).len() <= s.len() + 1,
        forall|k: int|
            0 <= k < split_on(s, sep).len() ==> (#[trigger] split_on(s, sep)[k]).len() <= s.len(),
    decreases s.len(),
{
    let rows = split_on(s, sep);
    if s.len() == 0 {
        assert(rows[0].len() == 0);
    } else {
        let t = s.skip(1);
        lemma_split_on_part_len(t, sep);
        crate::text::lemma_split_on_len(t, sep);
        let rt = split_on(t, sep);
        if s[0] == sep {
            assert(rows == seq![Seq::<char>::empty()] + rt);
            assert(forall|k: int| 1 <= k < rows.len() ==> rows[k] == rt[k - 1]);
            assert(rows[0].len() == 0);
        } else {
            assert(rows == seq![seq![s[0]] + rt[0]] + rt.skip(1));
            assert(rows[0].len() == 1 + rt[0].len());
            assert(forall|k: int| 1 <= k < rows.len() ==> rows[k] == rt[k]);
        }
    }
}

/// Run-length-expand one row of the placement field into its cells.
pub fn expand_row(row: &Vec<char>) -> (cells: Vec<char>)
    ensures
        cells@ == expand(row@),
{
    let mut cells: Vec<char> = Vec::new();
    let mut i: usize = 0;
    proof {
        assert(row@.take(0) =~= Seq::<char>::empty());
        assert(cells@ =~= expand(row@.take(0)));
    }
    while i < row.len()
        invariant
            i <= row@.len(),
            cells@ == expand(row@.take(i as int)),
        decreases row@.len() - i,
    {
        let c = row[i];
        proof {
            assert(row@.take(i + 1) =~= row@.take(i as int).push(c));
            lemma_expand_push(row@.take(i as int), c);
        }
        if '1' <= c && c <= '8' {
            let d = (c as u32 - '0' as u32) as usize;
            let ghost base = cells@;
            let mut k: usize = 0;
            while k < d
                invariant
                    k <= d,
                    d == run_len(c),
                    cells@ == base + blanks(k as nat),
                decreases d - k,
            {
                cells.push(' ');
                k = k + 1;
                proof {
                    assert(blanks(k as nat) =~= blanks((k - 1) as nat).push(' '));
                    assert(cells@ =~= base + blanks(k as nat));
                }
            }
            proof {
                assert(cells@ =~= expand(row@.take(i + 1)));
            }
        } else {
            cells.push(c);
            proof {
                assert(cells@ =~= expand(row@.take(i + 1)));
            }
        }
        i = i + 1;
    }
    proof {
        assert(row@.take(row@.len() as int) =~= row@);
    }
    cells
}

/// Scan the expanded cells of row `r` into pieces, left to right.
fn scan_row(cells: &Vec<char>, r: usize) -> (ps: Vec<Piece>)
    requires
        cells_ok(cells@),
        r < 0x8000_0000,
        cells@.len() <= 0x8000_0000,
    ensures
        ps@ == row_pieces(cells@, r as int, 0),
{
    let mut ps: Vec<Piece> = Vec::new();
    let mut col: usize = 0;
    proof {
        assert(cells@.take(0) =~= Seq::<char>::empty());
        assert(ps@ =~= row_pieces(cells@.take(0), r as int, 0));
    }
    while col < cells.len()
        invariant
            col <= cells@.len(),
            cells_ok(cells@),
            r < 0x8000_0000,
            cells@.len() <= 0x8000_0000,
            ps@ == row_pieces(cells@.take(col as int), r as int, 0),
        decreases cells@.len() - col,
    {
        let c = cells[col];
        proof {
            assert(cells@.take(col + 1) =~= cells@.take(col as int).push(c));
            lemma_row_pieces_push(cells@.take(col as int), c, r as int, 0);
        }
        if c != ' ' {
            let (kind, color) = get_piece_type(c);
            ps.push(
                Piece {
                    position: (r as i32, col as i32),
                    color,
                    kind,
                    alive: true,
                    moved: false,
                },
            );
            proof {
                assert(ps@ =~= row_pieces(cells@.take(col + 1), r as int, 0));
            }
        }
        col = col + 1;
    }
    proof {
        assert(cells@.take(cells@.len() as int) =~= cells@);
    }
    ps
}

/// The decoded side to move: exactly `"w"` is White; any other field
/// value is taken as Black.
pub open spec fn spec_active_color(field: Seq<char>) -> Color {
    if field == seq!['w'] {
        Color::White
    } else {
        Color::Black
    }
}

/// A valid halfmove-clock field: a decimal numeral whose value fits an
/// `i32`.
pub open spec fn halfmove_field_ok(field: Seq<char>) -> bool {
    is_dec_numeral(field) && dec_val(field) <= i32::MAX
}

/// A valid fullmove-number field: a decimal numeral with a positive
/// value that fits an `i32`.
pub open spec fn fullmove_field_ok(field: Seq<char>) -> bool {
    is_dec_numeral(field) && 1 <= dec_val(field) && dec_val(field) <= i32::MAX
}

/// The longest notation string the decoder accepts; it keeps every
/// row and column index of the 8-cells-per-digit expansion inside an
/// `i32` square coordinate.
pub const MAX_NOTATION_LEN: usize = 0x0FFF_FFFF;

/// Decode a board notation string into a snapshot of the board.
///
/// The input must split on single spaces into exactly six fields:
/// placement, active color, castling rights, en-passant target,
/// halfmove clock, fullmove number. The placement field may hold only
/// piece letters, run-length digits 1–8, and the row separator `/`;
/// the two counters must be decimal numerals, the fullmove number
/// positive. Any other input is rejected with the error naming the
/// field or character at fault. On success every field of the snapshot
/// is pinned down: the pieces in row-major scan order, the side to
/// move (`"w"` is White, anything else Black), the four castling
/// rights as membership of `K`, `Q`, `k`, `q` in the third field, no
/// en-passant target (the field is read past but never recorded), and
/// the two counters' values.
pub fn parse_fen(fen: &str) -> (r: Result<Fen, FenError>)
    requires
        fen@.len() <= MAX_NOTATION_LEN,
    ensures
        ({
            let parts = split_on(fen@, ' ');
            &&& (parts.len() != 6 ==> r == Err::<Fen, FenError>(FenError::Format))
            &&& (parts.len() == 6 && !placement_ok(parts[0]) ==> r == Err::<Fen, FenError>(
                FenError::Classification(first_invalid(parts[0])),
            ))
            &&& (parts.len() == 6 && placement_ok(parts[0]) && !halfmove_field_ok(parts[4])
                ==> r == Err::<Fen, FenError>(FenError::Numeric(NumericField::Halfmove)))
            &&& (parts.len() == 6 && placement_ok(parts[0]) && halfmove_field_ok(parts[4])
                && !fullmove_field_ok(parts[5]) ==> r == Err::<Fen, FenError>(
                FenError::Numeric(NumericField::Fullmove),
            ))
            &&& (parts.len() == 6 && placement_ok(parts[0]) && halfmove_field_ok(parts[4])
                && fullmove_field_ok(parts[5]) ==> (r matches Ok(f) && {
                &&& f.pieces@ == board_pieces(parts[0])
                &&& f.active_color == spec_active_color(parts[1])
                &&& f.castling_rights == (
                    parts[2].contains('K'),
                    parts[2].contains('Q'),
                    parts[2].contains('k'),
                    parts[2].contains('q'),
                )
                &&& f.en_passant is None
                &&& f.halfmove_clock as int == dec_val(parts[4])
                &&& f.fullmove_number as int == dec_val(parts[5])
            }))
        }),
{
    let ghost parts_dv = split_on(fen@, ' ');
    let chars = chars_of(fen);
    let parts = split_chars(&chars, ' ');
    proof {
        assert(parts.deep_view().len() == parts@.len());
    }
    if parts.len() != 6 {
        return Err(FenError::Format);
    }
    let board = &parts[0];
    proof {
        assert(board@ =~= parts_dv[0]);
        lemma_split_on_part_len(fen@, ' ');
    }

    // Validate the placement field before anything is built from it.
    let mut i: usize = 0;
    while i < board.len()
        invariant
            i <= board@.len(),
            parts_dv == split_on(fen@, ' '),
            parts_dv.len() == 6,
            board@ == parts_dv[0],
            forall|j: int| 0 <= j < i ==> is_placement_char(#[trigger] board@[j]),
        decreases board@.len() - i,
    {
        let c = board[i];
        if !(is_piece_letter(c) || ('1' <= c && c <= '8') || c == '/') {
            proof {
                lemma_first_invalid(board@, i as int);
            }
            return Err(FenError::Classification(c));
        }
        i = i + 1;
    }
    proof {
        assert(placement_ok(board@));
    }

    let rows = split_chars(board, '/');
    proof {
        assert(rows.deep_view().len() == rows@.len());
        lemma_split_rows_ok(board@);
        lemma_split_on_part_len(board@, '/');
    }
    let mut pieces: Vec<Piece> = Vec::new();
    let mut r: usize = 0;
    proof {
        assert(rows.deep_view().take(0) =~= Seq::<Seq<char>>::empty());
        assert(pieces@ =~= rows_pieces(rows.deep_view().take(0), 0));
    }
    while r < rows.len()
        invariant
            r <= rows@.len(),
            rows.deep_view().len() == rows@.len(),
            rows.deep_view() == split_on(board@, '/'),
            placement_ok(board@),
            board@ == parts_dv[0],
            board@.len() <= MAX_NOTATION_LEN,
            forall|k: int|
                0 <= k < rows.deep_view().len() ==> row_ok(#[trigger] rows.deep_view()[k]),
            forall|k: int|
                0 <= k < rows.deep_view().len() ==> (#[trigger] rows.deep_view()[k]).len()
                    <= board@.len(),
            rows.deep_view().len() <= board@.len() + 1,
            pieces@ == rows_pieces(rows.deep_view().take(r as int), 0),
        decreases rows@.len() - r,
    {
        let row = &rows[r];
        proof {
            assert(row@ =~= rows.deep_view()[r as int]);
        }
        let cells = expand_row(row);
        proof {
            lemma_expand_cells_ok(row@);
            lemma_expand_len(row@);
            lemma_row_width_bound(row@);
            lemma_rows_pieces_push(rows.deep_view().take(r as int), row@, 0);
            assert(rows.deep_view().take(r + 1) =~= rows.deep_view().take(r as int).push(row@));
        }
        let mut ps = scan_row(&cells, r);
        pieces.append(&mut ps);
        r = r + 1;
    }
    proof {
        assert(rows.deep_view().take(rows@.len() as int) =~= rows.deep_view());
        assert(pieces@ == board_pieces(parts_dv[0]));
    }

    let turn = &parts[1];
    proof {
        assert(turn@ =~= parts_dv[1]);
    }
    let active_color = if turn.len() == 1 && turn[0] == 'w' {
        proof {
            assert(turn@ =~= seq!['w']);
        }
        Color::White
    } else {
        proof {
            assert(turn@ != seq!['w']);
        }
        Color::Black
    };

    let castle = &parts[2];
    proof {
        assert(castle@ =~= parts_dv[2]);
    }
    let castling_rights = (
        contains_char(castle, 'K'),
        contains_char(castle, 'Q'),
        contains_char(castle, 'k'),
        contains_char(castle, 'q'),
    );

    let half = &parts[4];
    proof {
        assert(half@ =~= parts_dv[4]);
    }
    let halfmove_clock = match parse_decimal(half) {
        Some(n) => n,
        None => {
            return Err(FenError::Numeric(NumericField::Halfmove));
        },
    };

    let full = &parts[5];
    proof {
        assert(full@ =~= parts_dv[5]);
    }
    let fullmove_number = match parse_decimal(full) {
        Some(n) => n,
        None => {
            return Err(FenError::Numeric(NumericField::Fullmove));
        },
    };
    if fullmove_number < 1 {
        return Err(FenError::Numeric(NumericField::Fullmove));
    }

    Ok(
        Fen {
            pieces,
            active_color,
            castling_rights,
            en_passant: None,
            halfmove_clock,
            fullmove_number,
        },
    )
}

/// Whether a placement field describes a standard board: exactly
/// eight rows, each expanding to exactly eight cells.
pub open spec fn spec_placement_standard(s: Seq<char>) -> bool {
    let rows = split_on(s, '/');
    rows.len() == 8 && forall|k: int|
        0 <= k < rows.len() ==> expand(#[trigger] rows[k]).len() == 8
}

/// Check that a placement field describes a standard board: eight
/// rows whose digit run-lengths and letter counts each sum to eight.
/// The decoder itself accepts other shapes; this check lets a caller
/// surface them.
pub fn placement_is_standard(placement: &str) -> (b: bool)
    ensures
        b == spec_placement_standard(placement@),
{
    let chars = chars_of(placement);
    let rows = split_chars(&chars, '/');
    proof {
        assert(rows.deep_view().len() == rows@.len());
    }
    if rows.len() != 8 {
        return false;
    }
    let mut k: usize = 0;
    while k < rows.len()
        invariant
            k <= rows@.len(),
            rows.deep_view().len() == rows@.len(),
            rows.deep_view() == split_on(placement@, '/'),
            rows.deep_view().len() == 8,
            forall|j: int|
                0 <= j < k ==> expand(#[trigger] rows.deep_view()[j]).len() == 8,
        decreases rows@.len() - k,
    {
        let row = &rows[k];
        proof {
            assert(row@ =~= rows.deep_view()[k as int]);
        }
        let cells = expand_row(row);
        if cells.len() != 8 {
            return false;
        }
        k = k + 1;
    }
    true
}

} // verus!
