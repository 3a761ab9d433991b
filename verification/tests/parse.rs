use life::parse_life;
use life::CellState;
use life::ParseError;

#[test]
fn all_rows_of_same_len() {
    let test_input = String::from(
        "!Name: Test Structure\n\
        !\n\
        .O\n\
        O.\n\
        O..",
    );
    println!("{}", test_input);
    let cells = parse_life(test_input).unwrap();
    let first_row_len = cells.len();
    for row in cells {
        assert_eq!(row.len(), first_row_len);
    }
}

#[test]
fn parse_scenario_three_rows() {
    let cells = parse_life(String::from("!Name: T\n!\n.O\nO.\nO..\n")).unwrap();
    assert_eq!(cells.len(), 3);
    for row in &cells {
        assert_eq!(row.len(), 3);
    }
    assert_eq!(
        cells[0],
        vec![CellState::Dead, CellState::Alive, CellState::Dead]
    );
    assert_eq!(
        cells[1],
        vec![CellState::Alive, CellState::Dead, CellState::Dead]
    );
    assert_eq!(
        cells[2],
        vec![CellState::Alive, CellState::Dead, CellState::Dead]
    );
}

#[test]
fn only_comments_is_unexpected_end_of_input() {
    let r = parse_life(String::from("!only comments\n!nothing else"));
    assert_eq!(r, Err(ParseError::UnexpectedEndOfInput));
}

#[test]
fn empty_input_is_unexpected_end_of_input() {
    let r = parse_life(String::from(""));
    assert_eq!(r, Err(ParseError::UnexpectedEndOfInput));
}

#[test]
fn invalid_cell_character_is_reported() {
    let r = parse_life(String::from("!h\nX.O"));
    assert_eq!(
        r,
        Err(ParseError::InvalidCellCharacter {
            character: 'X',
            line: 2
        })
    );
}

#[test]
fn invalid_character_later_in_block() {
    let r = parse_life(String::from(".O\nO?\n"));
    assert_eq!(
        r,
        Err(ParseError::InvalidCellCharacter {
            character: '?',
            line: 2
        })
    );
}

#[test]
fn empty_line_while_skipping_comments() {
    let r = parse_life(String::from("!comment\n\nO."));
    assert_eq!(r, Err(ParseError::UnexpectedEmptyLine));
}

#[test]
fn short_rows_are_right_padded_with_dead() {
    let cells = parse_life(String::from("O\n..O")).unwrap();
    assert_eq!(cells.len(), 2);
    assert_eq!(
        cells[0],
        vec![CellState::Alive, CellState::Dead, CellState::Dead]
    );
    assert_eq!(
        cells[1],
        vec![CellState::Dead, CellState::Dead, CellState::Alive]
    );
}

#[test]
fn single_row_without_trailing_newline() {
    let cells = parse_life(String::from("O.")).unwrap();
    assert_eq!(cells.len(), 1);
    assert_eq!(cells[0], vec![CellState::Alive, CellState::Dead]);
}

#[test]
fn content_after_blank_line_is_ignored() {
    let cells = parse_life(String::from("!c\nOO\n\nXYZ not cells\n")).unwrap();
    assert_eq!(cells.len(), 1);
    assert_eq!(cells[0], vec![CellState::Alive, CellState::Alive]);
}
