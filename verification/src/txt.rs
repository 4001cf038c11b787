//! The plain-text encoding of a state: one line per row, the cells of a row
//! as `0` and `1` with commas between them, a line feed after every row.

use vstd::prelude::*;
use vstd::string::StringSliceAdditionalSpecFns;
use vstd::utf8::{
    decode_utf8,
    encode_utf8,
    encode_utf8_decode_utf8,
    encode_utf8_valid_utf8,
    valid_utf8,
};

use crate::error::CrudError;
use crate::render::{Render, RenderView};

use crate::state::{dead_row, is_board, is_row, rows_view, State};
use crate::text::{
    chars_of,
    is_whitespace,
    lemma_split_append_piece,
    lemma_split_push_sep,
    lemma_trim_end_is_take,
    lemma_trim_start_is_skip,
    all_digits,
    digits_value,
    numeral_value,
    pieces_view,
    spells_one,
    split,
    split_at,
    trim,
    trimmed,
};

verus! {

/// The character that stands for a cell.
pub open spec fn cell_char(cell: u8) -> char {
    if cell == 1 {
        '1'
    } else {
        '0'
    }
}

/// A row as text: its cells with a comma between neighbours.
pub open spec fn row_text(row: Seq<u8>) -> Seq<char>
    decreases row.len(),
{
    if row.len() == 0 {
        Seq::empty()
    } else if row.len() == 1 {
        seq![cell_char(row[0])]
    } else {
        row_text(row.drop_last()).push(',').push(cell_char(row.last()))
    }
}

/// A board as text: every row, each followed by a line feed.
pub open spec fn board_text(cells: Seq<Seq<u8>>) -> Seq<char>
    decreases cells.len(),
{
    if cells.len() == 0 {
        Seq::empty()
    } else {
        board_text(cells.drop_last()) + row_text(cells.last()).push('\n')
    }
}

/// The cell that a token stands for: alive when the token spells the number
/// one, dead for every other token, be it another number or no number.
pub open spec fn token_cell(token: Seq<char>) -> u8 {
    if numeral_value(token) == Some(1nat) {
        1
    } else {
        0
    }
}

/// The row of the given width that a line stands for. The line is trimmed
/// and split at commas; cell `j` comes from token `j`, and is dead where the
/// line has no such token. Tokens beyond the width are ignored.
pub open spec fn line_row(line: Seq<char>, width: nat) -> Seq<u8> {
    let tokens = split(trim(line), ',');
    Seq::new(
        width,
        |j: int|
            if j < tokens.len() {
                token_cell(tokens[j])
            } else {
                0u8
            },
    )
}

/// The board of the given size that a text stands for. The text is trimmed
/// and split at line feeds; row `i` comes from line `i`, and is dead where
/// the text has no such line. Lines beyond the height are ignored.
pub open spec fn text_board(text: Seq<char>, width: nat, height: nat) -> Seq<Seq<u8>> {
    let lines = split(trim(text), '\n');
    Seq::new(
        height,
        |i: int|
            if i < lines.len() {
                line_row(lines[i], width)
            } else {
                dead_row(width)
            },
    )
}

/// Whatever the text, what it stands for is a board of the size asked for.
pub proof fn lemma_text_board_is_board(text: Seq<char>, width: nat, height: nat)
    requires
        width > 0,
        height > 0,
    ensures
        is_board(text_board(text, width, height)),
        text_board(text, width, height).len() == height,
        text_board(text, width, height)[0].len() == width,
{
    let board = text_board(text, width, height);
    assert forall|i: int| 0 <= i < board.len() implies (#[trigger] board[i]).len()
        == board[0].len() by {}
    assert forall|i: int, j: int| 0 <= i < board.len() && 0 <= j < board[0].len() implies #[trigger] board[i][j]
        <= 1 by {
        assert(board[i].len() == width);
    }
}

/// Writes a row into `text`.
fn push_row(text: &mut String, row: &Vec<u8>)
    ensures
        final(text)@ == old(text)@ + row_text(row@),
{
    proof {
        reveal_strlit("0");
        reveal_strlit("1");
        reveal_strlit(",");
    }
    let mut j: usize = 0;
    assert(row@.take(0) =~= Seq::<u8>::empty());
    assert(text@ =~= old(text)@ + row_text(row@.take(0)));
    while j < row.len()
        invariant
            0 <= j <= row.len(),
            text@ == old(text)@ + row_text(row@.take(j as int)),
            "0"@ == seq!['0'],
            "1"@ == seq!['1'],
            ","@ == seq![','],
        decreases row.len() - j,
    {
        let ghost before = row@.take(j as int);
        let ghost after = row@.take(j + 1);
        proof {
            assert(after.drop_last() =~= before);
            assert(after.last() == row@[j as int]);
        }
        if j > 0 {
            text.append(",");
        }
        if row[j] == 1 {
            text.append("1");
        } else {
            text.append("0");
        }
        proof {
            if j == 0 {
                assert(row_text(after) =~= seq![cell_char(row@[0])]);
                assert(row_text(before) =~= Seq::<char>::empty());
            }
            assert(text@ =~= old(text)@ + row_text(after));
        }
        j += 1;
    }
    assert(row@.take(row.len() as int) =~= row@);
}

/// The text of a state.
pub fn encode_state(state: &State) -> (text: String)
    ensures
        text@ == board_text(state@),
{
    let cells = state.get_cells();
    let mut text = String::new();
    let mut i: usize = 0;
    proof {
        reveal_strlit("\n");
        assert(rows_view(cells@).take(0) =~= Seq::<Seq<u8>>::empty());
    }
    while i < cells.len()
        invariant
            0 <= i <= cells.len(),
            text@ == board_text(rows_view(cells@).take(i as int)),
            "\n"@ == seq!['\n'],
        decreases cells.len() - i,
    {
        let ghost before = rows_view(cells@).take(i as int);
        let ghost after = rows_view(cells@).take(i + 1);
        proof {
            assert(after.drop_last() =~= before);
            assert(after.last() == cells@[i as int]@);
        }
        push_row(&mut text, &cells[i]);
        text.append("\n");
        proof {
            assert(text@ =~= board_text(before) + row_text(cells@[i as int]@).push('\n'));
        }
        i += 1;
    }
    assert(rows_view(cells@).take(cells.len() as int) =~= rows_view(cells@));
    text
}

/// The row of the given width that a line stands for.
fn decode_line(line: &Vec<char>, width: usize) -> (row: Vec<u8>)
    ensures
        row@ == line_row(line@, width as nat),
{
    let tokens = split_at(&trimmed(line), ',');
    let ghost pieces = split(trim(line@), ',');
    let mut row: Vec<u8> = Vec::new();
    let mut j: usize = 0;
    while j < width
        invariant
            0 <= j <= width,
            pieces == split(trim(line@), ','),
            pieces_view(tokens@) == pieces,
            row@.len() == j,
            forall|k: int| 0 <= k < j ==> #[trigger] row@[k] == line_row(line@, width as nat)[k],
        decreases width - j,
    {
        let cell: u8 = if j < tokens.len() {
            assert(pieces[j as int] == tokens@[j as int]@);
            if spells_one(&tokens[j]) {
                1
            } else {
                0
            }
        } else {
            0
        };
        row.push(cell);
        j += 1;
    }
    assert(row@ =~= line_row(line@, width as nat));
    row
}

/// The state of the given size that a text stands for. Every text stands
/// for one: a missing line, a missing token, or a token that does not spell
/// the number one gives dead cells.
pub fn decode_state(text: &str, width: usize, height: usize) -> (state: State)
    requires
        width > 0,
        height > 0,
    ensures
        state@ == text_board(text@, width as nat, height as nat),
{
    let lines = split_at(&trimmed(&chars_of(text)), '\n');
    let ghost pieces = split(trim(text@), '\n');
    let ghost board = text_board(text@, width as nat, height as nat);
    let mut rows: Vec<Vec<u8>> = Vec::new();
    let mut i: usize = 0;
    while i < height
        invariant
            0 <= i <= height,
            width > 0,
            pieces == split(trim(text@), '\n'),
            pieces_view(lines@) == pieces,
            board == text_board(text@, width as nat, height as nat),
            rows@.len() == i,
            forall|k: int| 0 <= k < i ==> (#[trigger] rows@[k])@ == board[k],
        decreases height - i,
    {
        let row = if i < lines.len() {
            assert(pieces[i as int] == lines@[i as int]@);
            decode_line(&lines[i], width)
        } else {
            decode_line(&Vec::new(), width)
        };
        proof {
            if i >= lines.len() {
                lemma_blank_line_is_dead(width as nat);
            }
        }
        rows.push(row);
        i += 1;
    }
    proof {
        assert(rows_view(rows@) =~= board);
        lemma_text_board_is_board(text@, width as nat, height as nat);
    }
    State::from_board(rows)
}

/// A line with nothing on it stands for a dead row.
pub proof fn lemma_blank_line_is_dead(width: nat)
    ensures
        line_row(Seq::empty(), width) == dead_row(width),
{
    let line = Seq::<char>::empty();
    assert(trim(line) =~= line);
    let tokens = split(line, ',');
    assert(tokens.len() == 1);
    assert(tokens[0] =~= Seq::<char>::empty());
    assert(numeral_value(tokens[0]) is None);
    assert(line_row(line, width) =~= dead_row(width));
}

/// The text of a row is made of `0`, `1` and commas; a row that is not
/// empty starts and ends with a cell.
pub proof fn lemma_row_text_shape(row: Seq<u8>)
    ensures
        forall|k: int|
            0 <= k < row_text(row).len() ==> {
                let c = #[trigger] row_text(row)[k];
                c == '0' || c == '1' || c == ','
            },
        row.len() > 0 ==> row_text(row).len() > 0 && row_text(row)[0] != ',' && row_text(
            row,
        ).last() != ',',
    decreases row.len(),
{
    if row.len() > 1 {
        lemma_row_text_shape(row.drop_last());
        let shorter = row_text(row.drop_last());
        assert forall|k: int| 0 <= k < row_text(row).len() implies {
            let c = #[trigger] row_text(row)[k];
            c == '0' || c == '1' || c == ','
        } by {
            if k < shorter.len() {
                assert(row_text(row)[k] == shorter[k]);
            }
        }
        assert(row_text(row)[0] == shorter[0]);
    }
}

/// The tokens of a row's text are its cells, one character each.
pub proof fn lemma_row_text_tokens(row: Seq<u8>)
    requires
        row.len() > 0,
    ensures
        split(row_text(row), ',') == Seq::new(row.len(), |j: int| seq![cell_char(row[j])]),
    decreases row.len(),
{
    let tokens = Seq::new(row.len(), |j: int| seq![cell_char(row[j])]);
    if row.len() == 1 {
        let cell = seq![cell_char(row[0])];
        lemma_split_append_piece(Seq::empty(), ',', cell);
        assert(Seq::<char>::empty() + cell =~= cell);
        assert(split(Seq::empty(), ',') =~= seq![Seq::<char>::empty()]);
        assert(Seq::<char>::empty() + cell =~= cell);
        assert(split(row_text(row), ',') =~= tokens);
    } else {
        let shorter = row.drop_last();
        lemma_row_text_tokens(shorter);
        let before = split(row_text(shorter), ',');
        lemma_split_push_sep(row_text(shorter), ',');
        let cell = seq![cell_char(row.last())];
        lemma_split_append_piece(row_text(shorter).push(','), ',', cell);
        assert(row_text(shorter).push(',') + cell =~= row_text(row));
        assert(before.push(Seq::empty()).drop_last() =~= before);
        assert(Seq::<char>::empty() + cell =~= cell);
        assert(split(row_text(row), ',') =~= tokens);
    }
}

/// A cell's character spells the cell.
pub proof fn lemma_cell_token(cell: u8)
    requires
        cell <= 1,
    ensures
        token_cell(seq![cell_char(cell)]) == cell,
{
    let token = seq![cell_char(cell)];
    assert(token.drop_last() =~= Seq::<char>::empty());
    assert(digits_value(token.drop_last()) == 0);
    assert(token.last() == cell_char(cell));
    assert(all_digits(token));
    assert(digits_value(token) == cell);
}

/// Text that neither starts nor ends with white space is its own trimming.
pub proof fn lemma_trim_keeps(s: Seq<char>)
    requires
        s.len() > 0 ==> !is_whitespace(s[0]) && !is_whitespace(s.last()),
    ensures
        trim(s) == s,
{
    lemma_trim_start_is_skip(s, 0);
    assert(s.skip(0) =~= s);
    lemma_trim_end_is_take(s, s.len() as int);
    assert(s.take(s.len() as int) =~= s);
}

/// A row is read back from its own text.
pub proof fn lemma_row_round_trip(row: Seq<u8>)
    requires
        row.len() > 0,
        is_row(row, row.len()),
    ensures
        line_row(row_text(row), row.len()) == row,
{
    lemma_row_text_shape(row);
    lemma_trim_keeps(row_text(row));
    lemma_row_text_tokens(row);
    assert forall|j: int| 0 <= j < row.len() implies line_row(row_text(row), row.len())[j]
        == row[j] by {
        lemma_cell_token(row[j]);
    }
    assert(line_row(row_text(row), row.len()) =~= row);
}

/// The text of a board without its last line feed.
pub open spec fn board_body(cells: Seq<Seq<u8>>) -> Seq<char> {
    board_text(cells).drop_last()
}

/// The lines of a board's text are the texts of its rows.
pub proof fn lemma_board_text_lines(cells: Seq<Seq<u8>>)
    requires
        cells.len() > 0,
    ensures
        board_text(cells).len() > 0,
        board_text(cells).last() == '\n',
        split(board_body(cells), '\n') == Seq::new(cells.len(), |i: int| row_text(cells[i])),
    decreases cells.len(),
{
    let lines = Seq::new(cells.len(), |i: int| row_text(cells[i]));
    let row = row_text(cells.last());
    lemma_row_text_shape(cells.last());
    if cells.len() == 1 {
        assert(board_text(cells.drop_last()) =~= Seq::<char>::empty());
        assert(board_text(cells) =~= row.push('\n'));
        assert(board_body(cells) =~= row);
        lemma_split_append_piece(Seq::empty(), '\n', row);
        assert(Seq::<char>::empty() + row =~= row);
        assert(split(Seq::empty(), '\n') =~= seq![Seq::<char>::empty()]);
        assert(split(board_body(cells), '\n') =~= lines);
    } else {
        let shorter = cells.drop_last();
        lemma_board_text_lines(shorter);
        let earlier = board_text(shorter);
        assert(earlier =~= board_body(shorter).push('\n'));
        assert(board_body(cells) =~= earlier + row);
        lemma_split_push_sep(board_body(shorter), '\n');
        lemma_split_append_piece(earlier, '\n', row);
        let before = split(board_body(shorter), '\n');
        assert(before.push(Seq::empty()).drop_last() =~= before);
        assert(Seq::<char>::empty() + row =~= row);
        assert(split(board_body(cells), '\n') =~= lines);
    }
}

/// The first character of a board's text is that of its first row's text.
proof fn lemma_board_text_first(cells: Seq<Seq<u8>>)
    requires
        cells.len() > 0,
        cells[0].len() > 0,
    ensures
        board_text(cells).len() > 0,
        board_text(cells)[0] == row_text(cells[0])[0],
    decreases cells.len(),
{
    lemma_row_text_shape(cells[0]);
    if cells.len() == 1 {
        assert(board_text(cells.drop_last()) =~= Seq::<char>::empty());
        assert(board_text(cells) =~= row_text(cells[0]).push('\n'));
    } else {
        lemma_board_text_first(cells.drop_last());
    }
}

/// Reading a board's text at the board's own size gives the board back:
/// nothing is lost or changed between writing a state and reading it.
pub proof fn lemma_text_round_trip(cells: Seq<Seq<u8>>)
    requires
        is_board(cells),
    ensures
        text_board(board_text(cells), cells[0].len(), cells.len()) == cells,
{
    let text = board_text(cells);
    let width = cells[0].len();
    let height = cells.len();
    lemma_board_text_lines(cells);
    lemma_board_text_first(cells);
    lemma_row_text_shape(cells[0]);
    lemma_row_text_shape(cells.last());
    let body = board_body(cells);
    assert(trim(text) == body) by {
        lemma_trim_start_is_skip(text, 0);
        assert(text.skip(0) =~= text);
        let last_row = row_text(cells.last());
        assert(text =~= board_text(cells.drop_last()) + last_row.push('\n'));
        assert(text[text.len() - 2] == last_row.last());
        lemma_trim_end_is_take(text, text.len() - 1);
        assert(text.take(text.len() - 1) =~= body);
    }
    let decoded = text_board(text, width, height);
    assert forall|i: int| 0 <= i < height implies #[trigger] decoded[i] == cells[i] by {
        assert(cells[i].len() == width);
        assert(is_row(cells[i], width)) by {
            assert forall|j: int| 0 <= j < cells[i].len() implies #[trigger] cells[i][j] <= 1 by {
                assert(cells[i][j] <= 1);
            }
        }
        lemma_row_round_trip(cells[i]);
    }
    assert(decoded =~= cells);
}

/// `std::str::from_utf8`: the bytes as text, where they are UTF-8, and
/// nothing where they are not. The text has exactly those bytes.
#[verifier::external_body]
fn text_of(bytes: &[u8]) -> (text: Option<&str>)
    ensures
        text is Some <==> valid_utf8(bytes@),
        text matches Some(s) ==> s.spec_bytes() == bytes@,
{
    std::str::from_utf8(bytes).ok()
}

/// What reading bytes as a text snapshot of the given size comes to: the
/// board of the text, or an error where the bytes are not text.
pub open spec fn txt_state(bytes: Seq<u8>, width: nat, height: nat) -> Result<
    Seq<Seq<u8>>,
    CrudError,
> {
    if valid_utf8(bytes) {
        Ok(text_board(decode_utf8(bytes), width, height))
    } else {
        Err(CrudError::InvalidText)
    }
}

/// The reader of states stored as text.
#[derive(Debug, Clone, Copy)]
pub struct TxtReader {}

/// The writer of states as text, which is also how it renders them.
#[derive(Debug, Clone, Copy)]
pub struct TxtWriter {}

impl TxtReader {
    /// Reads a state of the given size from the bytes of a text snapshot.
    /// Bytes that are text always give a state.
    pub fn read_state(&self, bytes: &[u8], width: usize, height: usize) -> (r: Result<
        State,
        CrudError,
    >)
        requires
            width > 0,
            height > 0,
        ensures
            r is Ok == txt_state(bytes@, width as nat, height as nat) is Ok,
            r matches Ok(s) ==> Ok::<Seq<Seq<u8>>, CrudError>(s@) == txt_state(
                bytes@,
                width as nat,
                height as nat,
            ),
            r matches Err(e) ==> Err::<Seq<Seq<u8>>, CrudError>(e) == txt_state(
                bytes@,
                width as nat,
                height as nat,
            ),
    {
        match text_of(bytes) {
            Some(text) => {
                proof {
                    encode_utf8_decode_utf8(text@);
                }
                Ok(decode_state(text, width, height))
            },
            None => Err(CrudError::InvalidText),
        }
    }
}

impl TxtWriter {
    /// Renders a state as the text that stores it.
    pub fn gen_state(&self, state: &State) -> (render: Render)
        ensures
            render@ == RenderView::Txt(board_text(state@)),
    {
        Render::TxtState(encode_state(state))
    }
}

/// The bytes of a state's text are read back as the state: a state that is
/// written and then read at its own size comes back unchanged.
pub proof fn lemma_txt_round_trip(cells: Seq<Seq<u8>>)
    requires
        is_board(cells),
    ensures
        txt_state(encode_utf8(board_text(cells)), cells[0].len(), cells.len()) == Ok::<
            Seq<Seq<u8>>,
            CrudError,
        >(cells),
{
    encode_utf8_valid_utf8(board_text(cells));
    encode_utf8_decode_utf8(board_text(cells));
    lemma_text_round_trip(cells);
}

/// Malformed text is read, not refused: a cell is alive exactly where the
/// text has a line for its row, the line has a token for its column, and
/// the token spells the number one. A missing line, a missing token, and a
/// token that is no number or another number all give a dead cell.
pub proof fn lemma_malformed_cells_are_dead(
    text: Seq<char>,
    width: nat,
    height: nat,
    row: int,
    col: int,
)
    requires
        0 <= row < height,
        0 <= col < width,
    ensures
        ({
            let lines = split(trim(text), '\n');
            let cell = text_board(text, width, height)[row][col];
            &&& cell == 0 || cell == 1
            &&& cell == 1 <==> row < lines.len() && col < split(trim(lines[row]), ',').len()
                && numeral_value(split(trim(lines[row]), ',')[col]) == Some(1nat)
        }),
{
}

} // verus!
