use grid_solver::action::{moves_text, Action};
use grid_solver::board::{Board, ParseBoardError};
use grid_solver::marks::{ActionBoard, MarkBoard};
use grid_solver::text::{parse_cells, parse_number, render_cells, to_chars};
use grid_solver::values::{Point, Sym, Transform};

fn number(text: &str) -> Option<u8> {
    let chars = to_chars(text);
    parse_number(&chars, 0, chars.len())
}

#[test]
fn text_round_trips_through_a_board() {
    for text in [
        "18 9 6 0|0 9 3 0|33 18 18 3|0 0 15 0",
        "0 0 0 0|0 0 0 0|0 0 0 0|0 0 0 0",
        "255 255 255 255|255 255 255 255|255 255 255 255|255 255 255 255",
        "1 10 100 199|200 201 9 99|0 5 50 250|7 70 170 17",
    ] {
        let board: Board = text.parse().unwrap();
        assert_eq!(board.to_string(), text);
        assert_eq!(board.position(), Point::from(0, 0));
    }
}

#[test]
fn board_round_trips_through_text() {
    let mut cells: Vec<u8> = (0..16).map(|i| (i * 17) as u8).collect();
    cells[3] = 255;
    let text = render_cells(&cells);
    assert_eq!(text, "0 17 34 255|68 85 102 119|136 153 170 187|204 221 238 255");
    assert_eq!(parse_cells(&to_chars(&text)), Some(cells));
}

#[test]
fn signs_and_leading_zeros_are_read_but_not_written() {
    let board: Board = "+18 009 6 0|0 9 3 0|33 18 18 3|0 0 15 000".parse().unwrap();
    assert_eq!(board.to_string(), "18 9 6 0|0 9 3 0|33 18 18 3|0 0 15 0");
}

#[test]
fn malformed_texts_are_refused() {
    for text in [
        "",
        "18 9 6 0",
        "18 9 6 0|0 9 3 0|33 18 18 3",
        "18 9 6 0|0 9 3 0|33 18 18 3|0 0 15",
        "18 9 6 0|0 9 3 0|33 18 18 3|0 0 15 0|1 2 3 4",
        "18 9 6 0 1|0 9 3 0|33 18 18 3|0 0 15 0",
        "18 9 6|0 9 3 0|33 18 18 3|0 0 15 0",
        "18  9 6 0|0 9 3 0|33 18 18 3|0 0 15 0",
        " 18 9 6 0|0 9 3 0|33 18 18 3|0 0 15 0",
        "18 9 6 0|0 9 3 0|33 18 18 3|0 0 15 0 ",
        "18 9 6 0|0 9 3 0|33 18 18 3|0 0 15 0|",
        "18 9 6 0|0 256 3 0|33 18 18 3|0 0 15 0",
        "18 9 6 0|0 -9 3 0|33 18 18 3|0 0 15 0",
        "18 9 6 0|0 ++9 3 0|33 18 18 3|0 0 15 0",
        "18 9 6 0|0 + 3 0|33 18 18 3|0 0 15 0",
        "18 9 6 0|0 9a 3 0|33 18 18 3|0 0 15 0",
        "18 9 6 0|0 9 3 0|33 18 18 3|0 0 15 \u{663}",
        "18,9,6,0|0,9,3,0|33,18,18,3|0,0,15,0",
    ] {
        assert_eq!(text.parse::<Board>(), Err(ParseBoardError), "{:?}", text);
    }
}

#[test]
fn tokens_are_read_as_the_standard_library_reads_a_byte() {
    for text in [
        "0", "7", "00", "007", "+7", "+0", "255", "0255", "256", "+256", "1000", "", "+", "-", "-0",
        "-1", " 1", "1 ", "1_0", "0x10", "12a", "99999999999999999999",
    ] {
        assert_eq!(number(text), text.parse::<u8>().ok(), "{:?}", text);
    }
    assert_eq!(number("+255"), Some(255));
    assert_eq!(number("000"), Some(0));
}

#[test]
fn moves_are_named_and_joined() {
    assert_eq!(Action::UP.to_string(), "Up");
    assert_eq!(Action::DOWN.to_string(), "Down");
    assert_eq!(Action::LEFT.to_string(), "Left");
    assert_eq!(Action::RIGHT.to_string(), "Right");
    let moves = vec![Action::DOWN, Action::RIGHT, Action::UP, Action::LEFT];
    assert_eq!(moves_text(&moves, ","), "Down,Right,Up,Left");
    assert_eq!(moves_text(&moves, ", "), "Down, Right, Up, Left");
    assert_eq!(moves_text(&moves[..1].to_vec(), ", "), "Down");
    assert_eq!(moves_text(&Vec::new(), ", "), "");
}

#[test]
fn symmetries_and_points_have_texts() {
    let sym = |transform, mirror| Sym { transform, mirror }.to_string();
    assert_eq!(sym(Transform::Mirror, true), "Mirror-Identity");
    assert_eq!(sym(Transform::Mirror, false), "Mirror");
    assert_eq!(sym(Transform::Deg90, true), "Mirror-Deg90");
    assert_eq!(sym(Transform::Deg90, false), "Deg90");
    assert_eq!(sym(Transform::Deg180, true), "Mirror-Deg180");
    assert_eq!(sym(Transform::Deg180, false), "Deg180");
    assert_eq!(sym(Transform::Deg270, true), "Mirror-Deg270");
    assert_eq!(sym(Transform::Deg270, false), "Deg270");
    assert_eq!(Point::from(2, 3).to_string(), "Point[2,3]");
    assert_eq!(Point::from(0, 0).to_string(), "Point[0,0]");
    assert_eq!(Point::from(4, 0).to_string(), "Point[4,0]");
}

#[test]
fn patterns_and_tables_are_drawn_as_grids() {
    let mut marks = MarkBoard::new();
    marks.mark(Point::from(0, 1));
    marks.mark(Point::from(3, 3));
    assert_eq!(
        marks.to_string(),
        "\n| ||#|| || |\n| || || || |\n| || || || |\n| || || ||#|"
    );
    let table = ActionBoard::from(marks, Point::from(0, 1));
    assert_eq!(
        table.to_string(),
        "\n|Right||X||Left||Left|\n|Up||Up||Up||Up|\n|Up||Up||Up||Up|\n|Up||Up||Up|| |"
    );
}
