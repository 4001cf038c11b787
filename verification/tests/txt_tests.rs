use game_of_life::error::CrudError;
use game_of_life::render::Render;
use game_of_life::state::State;
use game_of_life::txt::{decode_state, encode_state, TxtReader, TxtWriter};

fn board(rows: &[&[u8]]) -> State {
    State::from_rows(rows.iter().map(|r| r.to_vec()).collect()).unwrap()
}

#[test]
fn state_is_written_as_rows_of_digits() {
    let s = board(&[&[0, 1, 0], &[1, 1, 0]]);
    assert_eq!(encode_state(&s), "0,1,0\n1,1,0\n");
    assert_eq!(encode_state(&board(&[&[1]])), "1\n");
    assert_eq!(encode_state(&State::dead(2, 3)), "0,0\n0,0\n0,0\n");
}

#[test]
fn text_is_read_as_rows_of_digits() {
    assert_eq!(decode_state("0,1,0\n1,1,0\n", 3, 2), board(&[&[0, 1, 0], &[1, 1, 0]]));
}

#[test]
fn short_row_is_filled_with_dead_cells() {
    assert_eq!(decode_state("1,1\n1\n", 3, 2), board(&[&[1, 1, 0], &[1, 0, 0]]));
}

#[test]
fn token_that_is_no_number_is_a_dead_cell() {
    assert_eq!(decode_state("1,x,1\n,1,\n", 3, 2), board(&[&[1, 0, 1], &[0, 1, 0]]));
    assert_eq!(decode_state("1,1.5,-1\n", 3, 1), board(&[&[1, 0, 0]]));
}

#[test]
fn number_that_is_no_cell_is_a_dead_cell() {
    assert_eq!(decode_state("2,1,255\n300,01,+1\n", 3, 2), board(&[&[0, 1, 0], &[0, 1, 1]]));
}

#[test]
fn missing_rows_are_dead() {
    assert_eq!(decode_state("1,1\n", 2, 3), board(&[&[1, 1], &[0, 0], &[0, 0]]));
    assert_eq!(decode_state("", 2, 2), State::dead(2, 2));
    assert_eq!(decode_state("   \n\n ", 2, 2), State::dead(2, 2));
}

#[test]
fn what_is_beyond_the_size_is_ignored() {
    assert_eq!(decode_state("1,0,1,1\n0,1,1,1\n1,1,1,1\n", 2, 2), board(&[&[1, 0], &[0, 1]]));
}

#[test]
fn white_space_is_trimmed_from_the_text_and_from_each_line() {
    assert_eq!(decode_state("\n\n 1,0 \r\n\t0,1\u{a0}\n\n", 2, 2), board(&[&[1, 0], &[0, 1]]));
}

#[test]
fn white_space_inside_a_line_spoils_the_token() {
    assert_eq!(decode_state("1, 1,1\n", 3, 1), board(&[&[1, 0, 1]]));
}

#[test]
fn empty_line_inside_the_text_is_a_dead_row() {
    assert_eq!(decode_state("1,1\n\n1,1\n", 2, 3), board(&[&[1, 1], &[0, 0], &[1, 1]]));
}

#[test]
fn text_round_trip() {
    let states = [
        board(&[&[1]]),
        board(&[&[0]]),
        board(&[&[0, 1, 1, 0, 1]]),
        board(&[&[1], &[0], &[1]]),
        board(&[&[1, 0, 0], &[0, 1, 0], &[1, 1, 1], &[0, 0, 0]]),
        State::random(40, 17, 50),
    ];
    for s in states.iter() {
        let text = encode_state(s);
        assert_eq!(&decode_state(&text, s.width(), s.height()), s);
    }
}

#[test]
fn reader_reads_bytes_of_text() {
    let reader = TxtReader {};
    let s = reader.read_state("1,0\n0,1\n".as_bytes(), 2, 2).unwrap();
    assert_eq!(s, board(&[&[1, 0], &[0, 1]]));
    let s = reader.read_state("garbage".as_bytes(), 2, 2).unwrap();
    assert_eq!(s, State::dead(2, 2));
}

#[test]
fn reader_refuses_bytes_that_are_no_text() {
    let reader = TxtReader {};
    assert_eq!(reader.read_state(&[0x31, 0xff, 0x30], 2, 2), Err(CrudError::InvalidText));
    assert_eq!(reader.read_state(&[0xc3], 1, 1), Err(CrudError::InvalidText));
}

#[test]
fn writer_renders_text() {
    let writer = TxtWriter {};
    match writer.gen_state(&board(&[&[1, 0], &[0, 1]])) {
        Render::TxtState(text) => assert_eq!(text, "1,0\n0,1\n"),
        Render::PngState(_) => panic!("a text writer renders text"),
    }
}
