use mcts::connect4::Connect4;
use mcts::mcts::GeneralGame;

#[test]
fn test_connect4_fromstr() {
    let str = "\
                        X.....\n\
                        O.....\n\
                        X..O..\n\
                        O..X..\n\
                        XO.XX.\n\
                        XX.OOO\n\
                    ";
    assert_eq!(
        Connect4::from_string(str),
        Some(Connect4 {
            board: [
                [1, 0, 0, 0, 0, 0],
                [-1, 0, 0, 0, 0, 0],
                [1, 0, 0, -1, 0, 0],
                [-1, 0, 0, 1, 0, 0],
                [1, -1, 0, 1, 1, 0],
                [1, 1, 0, -1, -1, -1]
            ]
        })
    );

    let str = "\
                        X..O..\n\
                        O.....\n\
                        X..O..\n\
                        O..X..\n\
                        XO.XX.\n\
                        XX.OOO\n\
                    ";
    assert_eq!(Connect4::from_string(str), None);

    let str = "\
                        X..O..\n\
                        O.....\n\
                        X..O..\n\
                        O..X..\n\
                        XO.XX.\n\
                    ";
    assert_eq!(Connect4::from_string(str), None);
}

#[test]
fn test_connect4_score() {
    let str = "\
                        X.....\n\
                        O.....\n\
                        X..O..\n\
                        O..X..\n\
                        XO.XX.\n\
                        OOOOOO\n\
                    ";
    assert_eq!(Connect4::from_string(str).unwrap().get_score(), -1);

    let str = "\
                        X.....\n\
                        O.....\n\
                        X..O..\n\
                        O..X..\n\
                        XO.XX.\n\
                        XX.OOO\n\
                    ";
    assert_eq!(Connect4::from_string(str).unwrap().get_score(), 0);

    let str = "\
                        X.....\n\
                        X.....\n\
                        X..O..\n\
                        X..X..\n\
                        XO.XX.\n\
                        XX.OOO\n\
                    ";
    assert_eq!(Connect4::from_string(str).unwrap().get_score(), 1);

    let str = "\
                        X.....\n\
                        X.....\n\
                        X..O..\n\
                        X..X..\n\
                        XO.XX.\n\
                        XX.OOO\n\
                    ";
    assert_eq!(Connect4::from_string(str).unwrap().get_score(), 1);

    let str = "\
                        X.....\n\
                        X.....\n\
                        O..O..\n\
                        XO.X..\n\
                        XOOXX.\n\
                        XXOOOO\n\
                    ";
    assert_eq!(Connect4::from_string(str).unwrap().get_score(), -1);

    let str = "\
                        X.X...\n\
                        O.XX..\n\
                        X.XOX.\n\
                        O.OXOX\n\
                        XOOXXO\n\
                        OOXOXO\n\
                    ";
    assert_eq!(Connect4::from_string(str).unwrap().get_score(), 1);

    let str = "\
                        X..O..\n\
                        O.OO..\n\
                        XOXO..\n\
                        OXXX..\n\
                        XOOXX.\n\
                        OOOXOO\n\
                    ";
    assert_eq!(Connect4::from_string(str).unwrap().get_score(), -1);

    let str = "\
                        X.....\n\
                        O.....\n\
                        X..O..\n\
                        OX.X..\n\
                        XOXXX.\n\
                        OOOXOO\n\
                    ";
    assert_eq!(Connect4::from_string(str).unwrap().get_score(), 1);
}

#[test]
fn test_connect4_available() {
    let str = "\
                        X.....\n\
                        O.....\n\
                        X..O..\n\
                        O..X..\n\
                        XO.XX.\n\
                        OOOOOO\n\
                    ";
    assert_eq!(Connect4::from_string(str).unwrap().get_available(), [1, 2, 3, 4, 5]);

    let str = "\
                        X..OX.\n\
                        O..XO.\n\
                        X..OX.\n\
                        O..XX.\n\
                        XO.XX.\n\
                        XX.OOO\n\
                    ";
    assert_eq!(Connect4::from_string(str).unwrap().get_available(), [1, 2, 5]);

    let str = "\
                        ......\n\
                        X.....\n\
                        X..O..\n\
                        X..X..\n\
                        XO.XX.\n\
                        XX.OOO\n\
                    ";
    assert_eq!(Connect4::from_string(str).unwrap().get_available(), [0, 1, 2, 3, 4, 5]);

    let str = "\
                        XXOXXO\n\
                        XOOOOO\n\
                        XOOOOO\n\
                        XOOXOO\n\
                        XOXXXX\n\
                        XXXOOO\n\
                    ";
    assert_eq!(Connect4::from_string(str).unwrap().get_available(), []);
}

#[test]
fn test_connect4_fmt() {
    let connect4 = Connect4 {
        board: [
            [-1, 0, 0, 1, 0, 0],
            [0, 0, 0, 0, 0, 0],
            [0, 0, 0, 0, 0, 0],
            [0, 0, 0, 0, 0, 0],
            [0, 0, 1, 0, -1, 1],
            [-1, 0, 1, 0, 0, -1],
        ],
    };

    let connect4_str = connect4.to_string();
    assert_eq!(
        connect4_str,
        "O . . X . . \n. . . . . . \n. . . . . . \n. . . . . . \n. . X . O X \nO . X . . O \n"
    );
}

#[test]
fn test_connect4_update() {
    let mut str = "\
                        X.....\n\
                        O.....\n\
                        X..O..\n\
                        O..X..\n\
                        XO.XX.\n\
                        OOOOO.\n\
                    ";
    let connect4 = Connect4::from_string(str).unwrap();

    str = "\
                        X.....\n\
                        O.....\n\
                        X..O..\n\
                        OX.X..\n\
                        XO.XX.\n\
                        OOOOO.\n\
                    ";
    let mut test = connect4.clone();
    test.update(1, 1);
    assert_eq!(test, Connect4::from_string(str).unwrap());

    str = "\
                        X.....\n\
                        O.....\n\
                        X..O..\n\
                        O..X..\n\
                        XO.XX.\n\
                        OOOOOO\n\
                    ";
    test = connect4.clone();
    test.update(5, -1);
    assert_eq!(test, Connect4::from_string(str).unwrap());
}

#[test]
fn connect4_empty_board() {
    let connect4 = Connect4::empty();
    assert_eq!(connect4, Connect4 { board: [[0; 6]; 6] });
    assert_eq!(connect4.get_score(), 0);
    assert_eq!(connect4.get_available(), [0, 1, 2, 3, 4, 5]);
    assert_eq!(Connect4::from_string(""), Some(Connect4::empty()));
}

#[test]
fn connect4_winner_shows_only_after_the_fourth_token() {
    let str = "\
                        ......\n\
                        ......\n\
                        ......\n\
                        ......\n\
                        OOO...\n\
                        XXX...\n\
                    ";
    let mut connect4 = Connect4::from_string(str).unwrap();
    assert_eq!(connect4.get_score(), 0);
    connect4.update(3, 1);
    assert_eq!(connect4.board[5], [1, 1, 1, 1, 0, 0]);
    assert_eq!(connect4.get_score(), 1);

    let mut connect4 = Connect4::from_string(str).unwrap();
    connect4.update(4, 1);
    assert_eq!(connect4.get_score(), 0);
    connect4.update(3, -1);
    assert_eq!(connect4.get_score(), 0);
    connect4.update(3, -1);
    assert_eq!(connect4.board[4], [-1, -1, -1, -1, 0, 0]);
    assert_eq!(connect4.get_score(), -1);
}

#[test]
fn connect4_three_in_a_row_is_no_win() {
    let connect4 = Connect4 {
        board: [
            [0, 0, 0, 0, 0, 0],
            [0, 0, 0, 0, 0, 0],
            [0, 0, 0, 0, 0, 0],
            [1, 0, 0, 0, 0, 0],
            [1, 0, 0, 0, 0, 0],
            [1, -1, -1, -1, 1, -1],
        ],
    };
    assert_eq!(connect4.get_score(), 0);
}

#[test]
fn connect4_score_on_every_kind_of_line() {
    // a column
    let mut connect4 = Connect4::empty();
    for _ in 0..4 {
        connect4.update(2, -1);
    }
    assert_eq!(connect4.get_score(), -1);

    // the shortest diagonals that hold four cells, in the corners
    let mut cells = [[0i8; 6]; 6];
    for k in 0..4usize {
        cells[2 + k][k] = 1;
    }
    assert_eq!(Connect4 { board: cells }.get_score(), 1);
    let mut cells = [[0i8; 6]; 6];
    for k in 0..4usize {
        cells[k][2 + k] = -1;
    }
    assert_eq!(Connect4 { board: cells }.get_score(), -1);
    let mut cells = [[0i8; 6]; 6];
    for k in 0..4usize {
        cells[2 + k][5 - k] = 1;
    }
    assert_eq!(Connect4 { board: cells }.get_score(), 1);
    let mut cells = [[0i8; 6]; 6];
    for k in 0..4usize {
        cells[k][3 - k] = -1;
    }
    assert_eq!(Connect4 { board: cells }.get_score(), -1);

    // three cells in a corner are no line
    let mut cells = [[0i8; 6]; 6];
    for k in 0..3usize {
        cells[3 + k][k] = 1;
    }
    assert_eq!(Connect4 { board: cells }.get_score(), 0);
}

#[test]
fn connect4_first_four_in_scan_order_wins() {
    // both players hold four in a row: the rows are read first, from the top
    let connect4 = Connect4 {
        board: [
            [0, 0, 0, 0, 0, 0],
            [0, 0, 0, 0, 0, 0],
            [0, 0, 0, 0, 0, 0],
            [0, 0, 0, 0, 0, 0],
            [1, 1, 1, 1, 0, 0],
            [-1, -1, -1, -1, 0, 0],
        ],
    };
    assert_eq!(connect4.get_score(), 1);
    // a row is read before a column
    let connect4 = Connect4 {
        board: [
            [0, 0, 0, 0, 0, 0],
            [0, 0, 0, 0, 0, 0],
            [1, 0, 0, 0, 0, 0],
            [1, 0, 0, 0, 0, 0],
            [1, 0, 0, 0, 0, 0],
            [1, 0, -1, -1, -1, -1],
        ],
    };
    assert_eq!(connect4.get_score(), -1);
}

#[test]
fn connect4_token_falls_to_the_lowest_free_cell() {
    let mut connect4 = Connect4::empty();
    connect4.update(0, 1);
    assert_eq!(connect4.board[5][0], 1);
    connect4.update(0, -1);
    assert_eq!(connect4.board[4][0], -1);
    for _ in 0..4 {
        connect4.update(0, 1);
    }
    assert_eq!(connect4.board[0][0], 1);
    assert_eq!(connect4.get_available(), [1, 2, 3, 4, 5]);
    let free: usize = connect4.board.iter().flatten().filter(|c| **c == 0).count();
    assert_eq!(free, 30);
}

#[test]
fn connect4_from_string_rejects_misplaced_characters() {
    assert_eq!(Connect4::from_string("......X"), None);
    assert_eq!(Connect4::from_string(".....\n"), None);
    assert_eq!(Connect4::from_string("x"), None);
    // a token in the top row over free cells floats
    assert_eq!(Connect4::from_string("X"), None);
}

#[test]
fn connect4_from_string_reads_carriage_returns() {
    let text = "......\r......\r......\r......\r......\rX.....\r";
    let connect4 = Connect4::from_string(text).unwrap();
    assert_eq!(connect4.board[5], [1, 0, 0, 0, 0, 0]);
    assert_eq!(connect4.get_available(), [0, 1, 2, 3, 4, 5]);
}

#[test]
fn connect4_text_round_trip() {
    let str = "\
                        X.....\n\
                        O.....\n\
                        X..O..\n\
                        O..X..\n\
                        XO.XX.\n\
                        XX.OOO\n\
                    ";
    let connect4 = Connect4::from_string(str).unwrap();
    let compact: String = connect4.to_string().chars().filter(|c| *c != ' ').collect();
    assert_eq!(compact, str);
    assert_eq!(connect4.to_string().chars().count(), 78);
}

#[test]
fn connect4_flip_swaps_the_players() {
    let str = "\
                        X.....\n\
                        O.....\n\
                        X..O..\n\
                        O..X..\n\
                        XO.XX.\n\
                        XX.OOO\n\
                    ";
    let mut connect4 = Connect4::from_string(str).unwrap();
    connect4.flip();
    let flipped = "\
                        O.....\n\
                        X.....\n\
                        O..X..\n\
                        X..O..\n\
                        OX.OO.\n\
                        OO.XXX\n\
                    ";
    assert_eq!(connect4, Connect4::from_string(flipped).unwrap());
    connect4.flip();
    assert_eq!(connect4, Connect4::from_string(str).unwrap());
}
