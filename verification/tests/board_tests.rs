use grid_solver::action::Action;
use grid_solver::board::{Board, ParseBoardError};
use grid_solver::values::Point;

#[test]
fn board_to_string() {
    let board_str = "18 255 6 0|0 9 3 0|33 18 18 3|0 0 15 0";
    let board = board_str.parse::<Board>();
    assert!(board.is_ok(), "should parse valid board");
    assert_eq!(board.unwrap().to_string(), board_str);
    assert!(
        "18 9 6 0|0 255 3 0|33 18 18 3|0 0 15"
            .parse::<Board>()
            .is_err(),
        "should be 4x4"
    );
    assert!(
        "18 9 6 0|0 256 3 0|33 18 18 3|0 0 15 0"
            .parse::<Board>()
            .is_err(),
        "should be max 255"
    );
}

#[test]
fn check_lost_won() -> Result<(), ParseBoardError> {
    let alive: Board = "18 9 6 0|0 9 3 0|33 18 18 3|0 0 15 0".parse()?;
    assert!(!alive.is_lost(), "should not be lost");
    assert!(!alive.is_won(), "should not be won");

    let lost: Board = "18 9 0 0|0 9 0 0|33 18 0 3|0 0 15 0".parse()?;
    let cells = (0..4).fold(0u128, |acc, r| acc | ((lost.row(r) as u128) << (32 * r)));
    println!("cells num: 0x{:032X}", cells);
    let dead_point = Point::from(3, 2);
    let row_num = lost.row(dead_point.row());
    println!("dead row num: 0x{row_num:08X}");
    let col_num = lost.col(dead_point.column());
    println!("dead col num: 0x{col_num:08X}");
    assert!(lost.dead_cell(dead_point), "should have dead cell");
    assert!(lost.is_lost(), "should be lost");
    assert!(!lost.is_won(), "should not be won");

    let won: Board = "0 0 0 0|0 0 0 0|0 0 0 0|0 0 0 0".parse()?;
    assert!(!won.is_lost(), "should not be lost");
    assert!(won.is_won(), "should be won");
    Ok(())
}

#[test]
fn apply_action() -> Result<(), ParseBoardError> {
    let alive: Board = "18 9 6 0|0 9 3 0|33 18 18 3|0 0 15 0".parse()?;
    println!("Alive: {}", alive.to_string());
    assert!(alive.position() == Point::from(0, 0), "should start at 0,0");
    {
        let alive2 = alive.action(Action::UP);
        assert!(alive2.is_none(), "should be none for invalid action");
    }
    if let Some(alive3) = alive.action(Action::DOWN) {
        println!("Alive: {}", alive.to_string());
        println!("Alive3: {}", alive3.to_string());
        assert!(alive != alive3, "should change for valid action");
        assert!(
            alive3.to_string() == "18 9 6 0|0 9 3 0|15 18 18 3|0 0 15 0",
            "should change for valid action"
        );
        let alive_n = alive3
            .action(Action::DOWN)
            .unwrap()
            .action(Action::RIGHT)
            .unwrap()
            .action(Action::LEFT)
            .unwrap()
            .action(Action::RIGHT)
            .unwrap()
            .action(Action::UP)
            .unwrap();
        assert!(alive_n.position() == Point::from(1, 1));
        assert!(
            alive_n.to_string() == "18 0 6 0|0 0 3 0|0 0 9 0|0 0 15 0",
            "should play correctly"
        );
    } else {
        panic!("should be some for valid action");
    }
    Ok(())
}
