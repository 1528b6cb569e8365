use threadkit::board::{Board, Boat, Error, Pos, BSIZE};

fn empty_picture() -> String {
    let mut s = String::new();
    for _ in 0..BSIZE {
        s += &"0".repeat(BSIZE);
        s += "\n";
    }
    s
}

#[test]
fn a_new_board_is_empty() {
    let board = Board::new(&[4, 3, 2, 1]);
    assert_eq!(board.to_string(), empty_picture());
    assert_eq!(board.to_string().len(), 20 * 21);
    let short = Board::new(&[1]);
    assert_eq!(short.to_string(), empty_picture());
    let long = Board::new(&[1, 2, 3, 4, 5, 6]);
    assert_eq!(long.to_string(), empty_picture());
}

#[test]
fn boats_are_drawn_where_they_are_placed() {
    let mut board = Board::new(&[4, 3, 2, 1]);
    assert_eq!(board.add_boat(Boat::Vertical(4), Pos { x: 0, y: 0 }), Ok(()));
    assert_eq!(board.add_boat(Boat::Horizontal(2), Pos { x: 18, y: 18 }), Ok(()));
    let picture = board.to_string();
    let lines: Vec<&str> = picture.lines().collect();
    assert_eq!(lines.len(), 20);
    for (x, line) in lines.iter().enumerate() {
        for (y, c) in line.chars().enumerate() {
            let taken = (y == 0 && x < 4) || (x == 18 && y >= 18);
            assert_eq!(c, if taken { '1' } else { '0' });
        }
    }
    assert!(board.is_occupied(Pos { x: 3, y: 0 }));
    assert!(!board.is_occupied(Pos { x: 4, y: 0 }));
}

#[test]
fn a_boat_off_the_board_is_refused() {
    let mut board = Board::new(&[]);
    assert_eq!(
        board.add_boat(Boat::Horizontal(3), Pos { x: 18, y: 18 }),
        Err(Error::OutOfBounds)
    );
    assert_eq!(board.add_boat(Boat::Vertical(21), Pos { x: 0, y: 0 }), Err(Error::OutOfBounds));
    assert_eq!(board.add_boat(Boat::Vertical(1), Pos { x: 0, y: 20 }), Err(Error::OutOfBounds));
    assert_eq!(
        board.add_boat(Boat::Vertical(usize::MAX), Pos { x: 5, y: 0 }),
        Err(Error::OutOfBounds)
    );
    assert_eq!(board.add_boat(Boat::Horizontal(0), Pos { x: 0, y: 21 }), Err(Error::OutOfBounds));
    assert_eq!(board.add_boat(Boat::Horizontal(0), Pos { x: 50, y: 20 }), Ok(()));
    assert_eq!(board.add_boat(Boat::Vertical(20), Pos { x: 0, y: 19 }), Ok(()));
    assert_eq!(board.to_string().matches('1').count(), 20);
}

#[test]
fn a_boat_over_another_is_refused_and_leaves_the_board() {
    let mut board = Board::new(&[]);
    assert_eq!(board.add_boat(Boat::Vertical(3), Pos { x: 2, y: 5 }), Ok(()));
    let before = board.to_string();
    assert_eq!(board.add_boat(Boat::Horizontal(4), Pos { x: 4, y: 3 }), Err(Error::Overlap));
    assert_eq!(board.to_string(), before);
    assert_eq!(board.add_boat(Boat::Horizontal(4), Pos { x: 5, y: 3 }), Ok(()));
}

#[test]
fn single_cells_can_be_taken() {
    let mut board = Board::new(&[]);
    board.place_boat(Pos { x: 19, y: 19 });
    assert!(board.is_occupied(Pos { x: 19, y: 19 }));
    assert_eq!(board.add_vertical_boat(1, Pos { x: 19, y: 19 }), Err(Error::Overlap));
    assert_eq!(board.add_horizontal_boat(2, Pos { x: 0, y: 0 }), Ok(()));
    assert!(board.is_occupied(Pos { x: 0, y: 1 }));
}

#[test]
fn a_board_is_read_back_from_its_picture() {
    let mut board = Board::new(&[4, 3]);
    board.add_boat(Boat::Vertical(4), Pos { x: 1, y: 2 }).unwrap();
    board.add_boat(Boat::Horizontal(3), Pos { x: 10, y: 17 }).unwrap();
    let picture = board.to_string();
    let again = Board::from(picture.clone());
    assert_eq!(again.to_string(), picture);
}

#[test]
fn marks_are_read_by_line_and_place() {
    let board = Board::from("01\n\n1x1\r\n".to_string());
    assert!(!board.is_occupied(Pos { x: 0, y: 0 }));
    assert!(board.is_occupied(Pos { x: 0, y: 1 }));
    assert!(board.is_occupied(Pos { x: 2, y: 0 }));
    assert!(!board.is_occupied(Pos { x: 2, y: 1 }));
    assert!(board.is_occupied(Pos { x: 2, y: 2 }));
    assert_eq!(board.to_string().matches('1').count(), 3);
    let far = Board::from(format!("{}1\n", "0".repeat(20)));
    assert_eq!(far.to_string(), empty_picture());
}
