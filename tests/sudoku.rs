use wfc::cell::{Cell, Error, SudokuCell};
use wfc::sudoku::{get_box_index, get_column_index, get_row_index, Sudoku};

const SOLVED: &str =
    "534678912672195348198342567859761423426853791713924856961537284287419635345286179";

fn rendered(board: &Sudoku) -> String {
    String::from_utf8(board.solution()).expect("the board renders as ASCII")
}

fn digit(board_text: &str, i: usize) -> u8 {
    board_text.as_bytes()[i]
}

fn groups_hold_every_digit_once(text: &str) -> bool {
    let b = text.as_bytes();
    for g in 0..9 {
        let mut rows = [false; 10];
        let mut columns = [false; 10];
        let mut boxes = [false; 10];
        for k in 0..9 {
            let r = (b[9 * g + k] - b'0') as usize;
            let c = (b[9 * k + g] - b'0') as usize;
            let x = 9 * (3 * (g / 3) + k / 3) + 3 * (g % 3) + k % 3;
            let bx = (b[x] - b'0') as usize;
            if r == 0 || c == 0 || bx == 0 || rows[r] || columns[c] || boxes[bx] {
                return false;
            }
            rows[r] = true;
            columns[c] = true;
            boxes[bx] = true;
        }
    }
    true
}

fn candidates(c: &SudokuCell) -> Option<Vec<u32>> {
    match c {
        SudokuCell::Value(_) => None,
        SudokuCell::Superpositions(s) => Some(s.clone()),
    }
}

#[test]
fn single_blank_is_forced() {
    let mut puzzle = SOLVED.as_bytes().to_vec();
    assert_eq!(puzzle[6], b'9');
    puzzle[6] = b'0';
    let puzzle = String::from_utf8(puzzle).unwrap();
    let mut board = Sudoku::parse(&puzzle).expect("clues agree");
    assert_eq!(board.cells_to_collapse(), vec![(6, 1)]);
    assert_eq!(board.collapse_all(), Ok(()));
    assert_eq!(rendered(&board), SOLVED);
}

#[test]
fn empty_board_is_filled() {
    let empty = "0".repeat(81);
    let mut filled = 0;
    for _ in 0..200 {
        let mut board = Sudoku::parse(&empty).expect("an empty board parses");
        match board.collapse_all() {
            Ok(()) => {
                let text = rendered(&board);
                assert!(!text.contains('?'));
                assert!(groups_hold_every_digit_once(&text));
                filled += 1;
            }
            Err(e) => assert_eq!(e, Error::Contradiction),
        }
    }
    assert!(filled > 0);
}

#[test]
fn duplicate_clue_in_row_is_refused() {
    let puzzle = format!("11{}", "0".repeat(79));
    assert_eq!(Sudoku::parse(&puzzle).err(), Some(Error::ValueNotCandidate));
}

#[test]
fn over_constrained_cell_is_a_contradiction() {
    let puzzle = format!("123456780000000009{}", "0".repeat(63));
    let mut board = Sudoku::parse(&puzzle).expect("clues agree");
    assert_eq!(board.cell_with_lowest_entropy(), Some((8, 0)));
    assert_eq!(board.collapse_lowest_entropy(), Err(Error::Contradiction));
    assert_eq!(board.collapse_all(), Err(Error::Contradiction));
    assert_eq!(digit(&rendered(&board), 8), b'?');
}

#[test]
fn malformed_input_is_refused() {
    assert_eq!(Sudoku::parse(&"0".repeat(80)).err(), Some(Error::InvalidInput));
    assert_eq!(Sudoku::parse(&"0".repeat(82)).err(), Some(Error::InvalidInput));
    let bad = format!("a{}", "0".repeat(80));
    assert_eq!(Sudoku::parse(&bad).err(), Some(Error::InvalidInput));
}

#[test]
fn clues_are_settled_and_rendered() {
    let puzzle = format!("5{}", "0".repeat(80));
    let board = Sudoku::parse(&puzzle).unwrap();
    let text = rendered(&board);
    assert_eq!(text, format!("5{}", "?".repeat(80)));
}

#[test]
fn neighbours_are_symmetric_and_irreflexive() {
    let board = Sudoku::new();
    let all: Vec<Vec<usize>> = (0..81).map(|i| board.cell_neighbours(&i)).collect();
    for a in 0..81 {
        assert_eq!(all[a].len(), 20);
        assert!(!all[a].contains(&a));
        for b in 0..81 {
            assert_eq!(all[a].contains(&b), all[b].contains(&a));
        }
    }
    let mut n0 = all[0].clone();
    n0.sort();
    assert_eq!(
        n0,
        vec![1, 2, 3, 4, 5, 6, 7, 8, 9, 10, 11, 18, 19, 20, 27, 36, 45, 54, 63, 72]
    );
}

#[test]
fn index_tables() {
    assert_eq!(get_row_index(40), 4);
    assert_eq!(get_column_index(40), 4);
    assert_eq!(get_box_index(0), 0);
    assert_eq!(get_box_index(30), 4);
    assert_eq!(get_box_index(26), 2);
    assert_eq!(get_box_index(60), 8);
    assert_eq!(get_box_index(80), 8);
}

#[test]
fn propagation_reaches_neighbours_only() {
    let mut board = Sudoku::new();
    assert_eq!(board.collapse_one(&0, Some(5)), Ok(()));
    let open = board.cells_to_collapse();
    assert_eq!(open.len(), 80);
    let neighbours = board.cell_neighbours(&0);
    for (id, entropy) in open {
        assert_ne!(id, 0);
        if neighbours.contains(&id) {
            assert_eq!(entropy, 8);
        } else {
            assert_eq!(entropy, 9);
        }
    }
    assert_eq!(board.collapse_one(&0, Some(5)), Err(Error::AlreadySettled));
    assert_eq!(board.collapse_one(&1, Some(5)), Err(Error::ValueNotCandidate));
    assert_eq!(board.collapse_one(&81, None), Err(Error::CellNotFound));
}

#[test]
fn lowest_entropy_picks_a_narrowed_cell() {
    let mut board = Sudoku::new();
    assert_eq!(board.cell_with_lowest_entropy().map(|(_, e)| e), Some(9));
    board.collapse_one(&40, Some(1)).unwrap();
    let (id, entropy) = board.cell_with_lowest_entropy().unwrap();
    assert_eq!(entropy, 8);
    assert!(board.cell_neighbours(&40).contains(&id));
    assert_eq!(board.collapse_lowest_entropy(), Ok(false));
    assert_eq!(board.cells_to_collapse().len(), 79);
}

#[test]
fn graph_lookups_outside_the_board() {
    let mut board = Sudoku::new();
    assert_eq!(board.cell_collapse(&81, Some(1)), Err(Error::CellNotFound));
    assert_eq!(board.cell_constrain(&100, &1), Err(Error::CellNotFound));
    assert_eq!(board.cell_collapse(&3, Some(4)), Ok(4));
    assert_eq!(board.cell_constrain(&3, &4), Err(Error::AlreadySettled));
    assert_eq!(board.cell_constrain(&3, &5), Ok(()));
}

#[test]
fn cell_constrain_narrows() {
    let mut c = SudokuCell::new();
    assert_eq!(c.entropy(), Some(9));
    assert_eq!(c.constrain(&3), Ok(()));
    assert_eq!(candidates(&c), Some(vec![1, 2, 4, 5, 6, 7, 8, 9]));
    assert_eq!(c.constrain(&3), Ok(()));
    assert_eq!(c.entropy(), Some(8));
    assert_eq!(c.collapse(Some(3)), Err(Error::ValueNotCandidate));
}

#[test]
fn settled_cell_stays_settled() {
    let mut c = SudokuCell::new();
    assert_eq!(c.collapse(Some(5)), Ok(5));
    assert_eq!(c.value(), Some(5));
    assert_eq!(c.entropy(), None);
    assert_eq!(c.constrain(&4), Ok(()));
    assert_eq!(c.value(), Some(5));
    assert_eq!(c.constrain(&5), Err(Error::AlreadySettled));
    assert_eq!(c.collapse(None), Err(Error::AlreadySettled));
    assert_eq!(c.collapse(Some(5)), Err(Error::AlreadySettled));
    assert_eq!(c.value(), Some(5));
}

#[test]
fn random_collapse_takes_a_candidate() {
    let mut one = SudokuCell::Superpositions(vec![7]);
    assert_eq!(one.collapse(None), Ok(7));
    let mut two = SudokuCell::Superpositions(vec![2, 6]);
    let v = two.collapse(None).unwrap();
    assert!(v == 2 || v == 6);
    assert_eq!(two.value(), Some(v));
    let mut none = SudokuCell::Superpositions(vec![]);
    assert_eq!(none.collapse(None), Err(Error::EmptyCandidateSet));
    assert_eq!(none.entropy(), Some(0));
}

#[test]
fn cells_to_collapse_skips_settled_cells() {
    let puzzle = format!("{}{}", &SOLVED[..40], "0".repeat(41));
    let board = Sudoku::parse(&puzzle).unwrap();
    let open = board.cells_to_collapse();
    assert_eq!(open.len(), 41);
    for (id, entropy) in &open {
        assert!(*id >= 40);
        assert!(*entropy >= 1 && *entropy <= 9);
    }
    assert_eq!(open[0].0, 40);
}
