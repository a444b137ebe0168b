use huarongdao_cracker::search::{is_target, search};
use huarongdao_cracker::state::{Block, State};

fn board(rows: [&str; 5]) -> State {
    let lines: Vec<Vec<char>> = rows.iter().map(|r| r.chars().collect()).collect();
    State::from_lines(&lines).expect("fixture board must parse")
}

#[test]
fn goal_test_true_only_at_target_corner() {
    let solved = board(["张卒卒赵", "张关关赵", "马　　黄", "马曹曹黄", "卒曹曹卒"]);
    assert!(is_target(&solved, 3, 1));
    let above = board(["张卒卒赵", "张关关赵", "马曹曹黄", "马曹曹黄", "卒　　卒"]);
    assert!(!is_target(&above, 3, 1));
    assert!(is_target(&above, 2, 1));
    // a cell of the target piece that is not its top-left corner
    assert!(!is_target(&solved, 3, 2));
    assert!(!is_target(&solved, 4, 1));
    // off the grid
    assert!(!is_target(&solved, 7, 1));
}

#[test]
fn search_already_solved_gives_one_board() {
    let solved = board(["张卒卒赵", "张关关赵", "马　　黄", "马曹曹黄", "卒曹曹卒"]);
    let path = search(&solved, 3, 1).expect("solved board");
    assert_eq!(path, vec![solved]);
}

#[test]
fn search_one_move_fixture() {
    let start = board(["张卒卒赵", "张关关赵", "马曹曹黄", "马曹曹黄", "卒　　卒"]);
    let path = search(&start, 3, 1).expect("one slide solves it");
    assert_eq!(path.len(), 2);
    assert_eq!(path[0], start);
    let solved = board(["张卒卒赵", "张关关赵", "马　　黄", "马曹曹黄", "卒曹曹卒"]);
    assert_eq!(path[1], solved);
}

#[test]
fn search_two_move_fixture() {
    // the target first needs a soldier out of its way
    let start = board(["张卒卒赵", "张关关赵", "马曹曹黄", "马曹曹黄", "　卒　卒"]);
    let path = search(&start, 3, 1).expect("two slides solve it");
    assert_eq!(path.len(), 3);
    assert_eq!(path[0], start);
    assert!(is_target(&path[2], 3, 1));
}

#[test]
fn search_canonical_layout() {
    let start = board(["张曹曹赵", "张曹曹赵", "马关关黄", "马卒卒黄", "卒　　卒"]);
    let path = search(&start, 3, 1).expect("the classic layout is solvable");
    assert!(!path.is_empty());
    assert_eq!(path[0], start);
    let last = path.last().unwrap();
    assert!(is_target(last, 3, 1));
    assert_eq!(last.get_block(3, 1), Some(Block::B4));
    assert_eq!(last.get_block(4, 2), Some(Block::B4));
    for w in path.windows(2) {
        assert_ne!(w[0], w[1]);
    }
}

#[test]
fn search_enclosed_blanks_exhausts() {
    // every piece next to a blank is a lone general or a lone target cell,
    // whose footprint cannot be completed, so nothing can slide
    let start = board(["关　张卒", "卒赵卒卒", "卒卒卒马", "卒卒黄　", "卒卒卒曹"]);
    assert!(!is_target(&start, 3, 1));
    assert_eq!(search(&start, 3, 1), None);
}

#[test]
fn search_two_move_exact_path() {
    let t2 = board(["张马黄赵", "张马黄赵", "卒曹曹卒", "卒曹曹卒", "卒　卒　"]);
    let t1 = board(["张马黄赵", "张马黄赵", "卒曹曹卒", "卒曹曹卒", "卒　　卒"]);
    let g1 = board(["张马黄赵", "张马黄赵", "卒　　卒", "卒曹曹卒", "卒曹曹卒"]);
    assert_eq!(search(&t2, 3, 1), Some(vec![t2, t1, g1]));
    assert_eq!(search(&t1, 3, 1), Some(vec![t1, g1]));
}

#[test]
fn search_canonical_path_has_no_repeats() {
    let start = board(["张曹曹赵", "张曹曹赵", "马关关黄", "马卒卒黄", "卒　　卒"]);
    let path = search(&start, 3, 1).expect("the classic layout is solvable");
    for i in 0..path.len() {
        for j in (i + 1)..path.len() {
            assert_ne!(path[i], path[j]);
        }
        if i + 1 < path.len() {
            assert!(!is_target(&path[i], 3, 1));
        }
    }
}
