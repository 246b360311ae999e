use wordfindgen::run;
use wordfindgen::to_upper;
use wordfindgen::usize_to_string;
use wordfindgen::Config;
use wordfindgen::Direction;
use wordfindgen::PuzzleError;
use wordfindgen::PuzzleGrid;

#[test]
fn dir_incrementors_work() {
    let mut dir = Direction::Right;
    assert_eq!(dir.incrementors(), (1, 0));
    dir = Direction::UpRight;
    assert_eq!(dir.incrementors(), (1, -1));
}

#[test]
fn indeces() {
    let puzzle = PuzzleGrid::new(20, 10000, true);
    let x: i8 = 10;
    let y: i8 = 10;
    let dir = Direction::DownRight;
    let (x_indeces, y_indeces) = puzzle.get_indeces("Thanks", &x, &y, &dir);
    assert_eq!(x_indeces, [10, 11, 12, 13, 14, 15]);
    assert_eq!(y_indeces, [10, 11, 12, 13, 14, 15]);
}

#[test]
fn incrementors_full_table() {
    assert_eq!(Direction::Right.incrementors(), (1, 0));
    assert_eq!(Direction::UpRight.incrementors(), (1, -1));
    assert_eq!(Direction::Up.incrementors(), (0, -1));
    assert_eq!(Direction::UpLeft.incrementors(), (-1, -1));
    assert_eq!(Direction::Left.incrementors(), (-1, 0));
    assert_eq!(Direction::DownLeft.incrementors(), (-1, 1));
    assert_eq!(Direction::Down.incrementors(), (0, 1));
    assert_eq!(Direction::DownRight.incrementors(), (1, 1));
    // the mapping is stable: asking again gives the same pair
    assert_eq!(Direction::Down.incrementors(), (0, 1));
}

#[test]
fn new_grid_is_blank() {
    let puzzle = PuzzleGrid::new(3, 5, false);
    assert_eq!(puzzle.rows(), 3);
    for y in 0..3 {
        assert_eq!(puzzle.row_len(y), 3);
        for x in 0..3 {
            assert_eq!(puzzle.cell_at(x, y), ' ');
        }
    }
    assert_eq!(puzzle.entry_count(), 0);
}

#[test]
fn place_at_writes_word_and_records_it() {
    let mut puzzle = PuzzleGrid::new(20, 10000, true);
    assert!(puzzle.place_at("Thanks", 10, 10, Direction::DownRight));
    for (i, c) in "THANKS".chars().enumerate() {
        assert_eq!(puzzle.cell_at(10 + i, 10 + i), c);
    }
    assert_eq!(puzzle.entry_count(), 1);
    assert_eq!(puzzle.entry_at(0).as_str(), "THANKS");
}

#[test]
fn placement_rejects_collision() {
    let mut puzzle = PuzzleGrid::new(20, 10000, true);
    assert!(puzzle.place_at("AB", 0, 0, Direction::Right));
    let x: i8 = 0;
    let y: i8 = 0;
    // a different letter on an occupied cell is a collision
    assert!(!puzzle.placement_valid("CB", &x, &y, &Direction::Right));
    assert!(!puzzle.place_at("cb", 0, 0, Direction::Right));
    // the same letters overlap without collision
    assert!(puzzle.placement_valid("AB", &x, &y, &Direction::Right));
    // crossing through a matching cell is no collision either
    assert!(puzzle.placement_valid("AX", &x, &y, &Direction::Down));
}

#[test]
fn placement_rejects_out_of_bounds() {
    let puzzle = PuzzleGrid::new(20, 10000, true);
    let y: i8 = 0;
    // the phantom step one past the last character must stay within
    // [0, size]: a 2-letter word starting at column 19 steps out to 21
    let x: i8 = 19;
    assert!(!puzzle.placement_valid("AB", &x, &y, &Direction::Right));
    // a 1-letter word at column 19 steps to exactly 20 and is accepted
    assert!(puzzle.placement_valid("A", &x, &y, &Direction::Right));
    // running upward from the top row leaves the grid
    let x2: i8 = 5;
    assert!(!puzzle.placement_valid("AB", &x2, &y, &Direction::Up));
}

#[test]
fn fill_in_covers_blanks_and_keeps_letters() {
    let mut puzzle = PuzzleGrid::new(6, 100, false);
    assert!(puzzle.place_at("Word", 0, 2, Direction::Right));
    puzzle.fill_in();
    for y in 0..6 {
        for x in 0..6 {
            let c = puzzle.cell_at(x, y);
            assert!(('A'..='Z').contains(&c));
        }
    }
    // the placed word was never overwritten
    assert_eq!(puzzle.cell_at(0, 2), 'W');
    assert_eq!(puzzle.cell_at(1, 2), 'O');
    assert_eq!(puzzle.cell_at(2, 2), 'R');
    assert_eq!(puzzle.cell_at(3, 2), 'D');
}

#[test]
fn unplaceable_word_fails_with_its_name() {
    let mut puzzle = PuzzleGrid::new(1, 10000, false);
    assert!(puzzle.place_at("A", 0, 0, Direction::Right));
    match puzzle.place("b") {
        Ok(()) => panic!("placement into a full grid must fail"),
        Err(e) => assert_eq!(e.message().as_str(), "b could not be placed in the puzzle"),
    }
    // the failed attempt changed nothing
    assert_eq!(puzzle.entry_count(), 1);
    assert_eq!(puzzle.cell_at(0, 0), 'A');
}

#[test]
fn empty_word_always_places() {
    let mut puzzle = PuzzleGrid::new(20, 10000, false);
    assert!(puzzle.place("").is_ok());
    assert_eq!(puzzle.entry_count(), 1);
    assert_eq!(puzzle.entry_at(0).as_str(), "");
    // an empty word writes no cells
    for y in 0..20 {
        for x in 0..20 {
            assert_eq!(puzzle.cell_at(x, y), ' ');
        }
    }
}

#[test]
fn budget_of_one_tries_nothing() {
    let mut puzzle = PuzzleGrid::new(20, 1, true);
    match puzzle.place("A") {
        Ok(()) => panic!("a retry budget of 1 draws no candidate"),
        Err(e) => assert_eq!(e.message().as_str(), "A could not be placed in the puzzle"),
    }
    assert_eq!(puzzle.entry_count(), 0);
}

#[test]
fn run_of_empty_words_succeeds() {
    let config = Config {
        wordsfile: String::from("words.txt"),
        size: 3,
        maxtries: 2,
        hard: false,
    };
    let words = vec![String::new(), String::new()];
    let (answer, _puzzle) = run(&config, &words).expect("empty words always place");
    assert!(answer.ends_with(",,,,,,\n"));
}

#[test]
fn empty_word_places_trivially() {
    let mut puzzle = PuzzleGrid::new(2, 10, false);
    assert!(puzzle.place_at("", 0, 0, Direction::Right));
    assert_eq!(puzzle.entry_count(), 1);
    assert_eq!(puzzle.entry_at(0).as_str(), "");
}

#[test]
fn output_format_is_exact() {
    let mut puzzle = PuzzleGrid::new(2, 10, true);
    assert!(puzzle.place_at("ab", 0, 0, Direction::Right));
    let text = puzzle.output_text();
    assert_eq!(text, ",,,A,B\n,,, , \n\n\n\n,,,AB");
}

#[test]
fn word_list_pairs_two_per_line() {
    let mut puzzle = PuzzleGrid::new(8, 100, true);
    assert!(puzzle.place_at("one", 0, 0, Direction::Right));
    assert!(puzzle.place_at("two", 0, 2, Direction::Right));
    assert!(puzzle.place_at("six", 0, 4, Direction::Right));
    let text = puzzle.output_text();
    // two words share a line; the odd leftover word stands alone
    assert!(text.ends_with(",,,ONE,,,TWO\n,,,SIX"));
}

#[test]
fn long_word_fails_before_any_output() {
    let config = Config {
        wordsfile: String::from("words.txt"),
        size: 4,
        maxtries: 100,
        hard: false,
    };
    let words = vec![
        String::from("OK"),
        String::from("TOOLONG"),
        String::from("ALSOTOOBIG"),
    ];
    match run(&config, &words) {
        Ok(_) => panic!("a too-long word must fail the run"),
        Err(e) => {
            assert_eq!(e.message().as_str(), "TOOLONG is too long to fit in a 4 x 4 puzzle")
        }
    }
}

#[test]
fn run_produces_answer_key_and_puzzle() {
    let config = Config {
        wordsfile: String::from("words.txt"),
        size: 20,
        maxtries: 10000,
        hard: false,
    };
    let words = vec![String::from("hello"), String::from("world")];
    let (answer, puzzle) = run(&config, &words).expect("a 20 x 20 grid fits two 5-letter words");
    // the word list ends both outputs, two words per line, uppercased
    assert!(answer.ends_with(",,,HELLO,,,WORLD\n"));
    assert!(puzzle.ends_with(",,,HELLO,,,WORLD\n"));
    // grid section: 20 lines of three empty fields then 20 cells
    for line in answer.lines().take(20) {
        assert!(line.starts_with(",,,"));
        let cells: Vec<&str> = line[3..].split(',').collect();
        assert_eq!(cells.len(), 20);
    }
    // the answer key may hold blanks; the finished puzzle holds none
    for line in puzzle.lines().take(20) {
        for cell in line[3..].split(',') {
            assert_eq!(cell.len(), 1);
            let c = cell.chars().next().unwrap();
            assert!(c.is_ascii_uppercase());
        }
    }
}

fn word_found(grid: &[Vec<char>], w: &str) -> bool {
    let n = grid.len() as i32;
    let dirs = [(1, 0), (1, -1), (0, -1), (-1, -1), (-1, 0), (-1, 1), (0, 1), (1, 1)];
    let chars: Vec<char> = w.chars().collect();
    for y in 0..n {
        for x in 0..n {
            for (dx, dy) in dirs {
                let mut ok = true;
                for (i, &c) in chars.iter().enumerate() {
                    let xi = x + dx * i as i32;
                    let yi = y + dy * i as i32;
                    if xi < 0 || yi < 0 || xi >= n || yi >= n
                        || grid[yi as usize][xi as usize] != c
                    {
                        ok = false;
                        break;
                    }
                }
                if ok {
                    return true;
                }
            }
        }
    }
    false
}

#[test]
fn answer_key_round_trip() {
    let config = Config {
        wordsfile: String::from("words.txt"),
        size: 10,
        maxtries: 10000,
        hard: true,
    };
    let words = vec![String::from("alpha"), String::from("beta")];
    let (answer, puzzle) = run(&config, &words).expect("a 10 x 10 grid fits the two words");
    for text in [&answer, &puzzle] {
        let grid: Vec<Vec<char>> = text
            .lines()
            .take(10)
            .map(|line| line[3..].split(',').map(|cell| cell.chars().next().unwrap()).collect())
            .collect();
        // every word of the answer-key word list reads back from the grid
        assert!(word_found(&grid, "ALPHA"));
        assert!(word_found(&grid, "BETA"));
    }
}

#[test]
fn config_requires_words_file() {
    assert!(Config::new(vec![String::from("prog")]).is_err());
    let c = Config::new(vec![String::from("prog"), String::from("list.txt")]).unwrap();
    assert_eq!(c.wordsfile, "list.txt");
    assert_eq!(c.size, 20);
    assert_eq!(c.maxtries, 10000);
    assert!(!c.hard);
    let h = Config::new(vec![
        String::from("prog"),
        String::from("list.txt"),
        String::from("anything"),
    ])
    .unwrap();
    assert!(h.hard);
}

#[test]
fn uppercase_and_decimal_helpers() {
    assert_eq!(to_upper("Thanks!"), "THANKS!");
    assert_eq!(to_upper(""), "");
    assert_eq!(usize_to_string(0), "0");
    assert_eq!(usize_to_string(20), "20");
    assert_eq!(usize_to_string(10000), "10000");
}

#[test]
fn puzzle_error_carries_message() {
    let e = PuzzleError::new(String::from("boom"));
    assert_eq!(e.message().as_str(), "boom");
}
