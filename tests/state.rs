use huarongdao_cracker::state::{Block, MoveOp, ParseError, State};

fn board(rows: [&str; 5]) -> State {
    let lines: Vec<Vec<char>> = rows.iter().map(|r| r.chars().collect()).collect();
    State::from_lines(&lines).expect("fixture board must parse")
}

fn canonical() -> State {
    board(["张曹曹赵", "张曹曹赵", "马关关黄", "马卒卒黄", "卒　　卒"])
}

#[test]
fn get_block_inside_and_outside() {
    let s = canonical();
    assert_eq!(s.get_block(0, 0), Some(Block::B2(1)));
    assert_eq!(s.get_block(0, 1), Some(Block::B4));
    assert_eq!(s.get_block(2, 1), Some(Block::B2(0)));
    assert_eq!(s.get_block(3, 1), Some(Block::B1));
    assert_eq!(s.get_block(4, 1), Some(Block::B0));
    assert_eq!(s.get_block(5, 0), None);
    assert_eq!(s.get_block(0, 4), None);
    assert_eq!(s.get_block(usize::MAX, 0), None);
}

#[test]
fn find_block0s_in_row_major_order() {
    let s = canonical();
    assert_eq!(s.find_block0s(), [(4, 1), (4, 2)]);
    let t = board(["　张卒赵", "卒张卒赵", "马曹曹黄", "马曹曹黄", "卒关关　"]);
    assert_eq!(t.find_block0s(), [(0, 0), (4, 3)]);
}

#[test]
fn find_block0s_with_fewer_blanks() {
    let s = board(["卒卒卒卒", "卒卒卒卒", "卒卒卒卒", "卒卒卒卒", "卒卒卒　"]);
    assert_eq!(s.find_block0s(), [(4, 3), (0, 0)]);
}

#[test]
fn find_block_rect_unit_and_blank() {
    let s = canonical();
    assert_eq!(s.find_block_rect(3, 1), [(3, 1), (3, 1)]);
    assert_eq!(s.find_block_rect(4, 1), [(4, 1), (4, 1)]);
}

#[test]
fn find_block_rect_general_from_either_cell() {
    let s = canonical();
    // vertical piece
    assert_eq!(s.find_block_rect(0, 0), [(0, 0), (1, 0)]);
    assert_eq!(s.find_block_rect(1, 0), [(0, 0), (1, 0)]);
    // horizontal piece
    assert_eq!(s.find_block_rect(2, 1), [(2, 1), (2, 2)]);
    assert_eq!(s.find_block_rect(2, 2), [(2, 1), (2, 2)]);
}

#[test]
fn find_block_rect_target_from_each_cell() {
    let s = canonical();
    let r = [(0, 1), (1, 2)];
    assert_eq!(s.find_block_rect(0, 1), r);
    assert_eq!(s.find_block_rect(0, 2), r);
    assert_eq!(s.find_block_rect(1, 1), r);
    assert_eq!(s.find_block_rect(1, 2), r);
}

#[test]
fn move_block_legal_down_into_blanks() {
    let s = board(["张卒卒赵", "张关关赵", "马曹曹黄", "马曹曹黄", "卒　　卒"]);
    let t = s.move_block(2, 1, 3, 2, MoveOp::D).expect("target can slide down");
    let expected = board(["张卒卒赵", "张关关赵", "马　　黄", "马曹曹黄", "卒曹曹卒"]);
    assert_eq!(t, expected);
    // the source board is untouched
    assert_eq!(s.get_block(4, 1), Some(Block::B0));
}

#[test]
fn move_block_unit_each_direction() {
    let s = canonical();
    let t = s.move_block(3, 1, 3, 1, MoveOp::D).expect("soldier slides down");
    assert_eq!(t.get_block(4, 1), Some(Block::B1));
    assert_eq!(t.get_block(3, 1), Some(Block::B0));
    let u = s.move_block(4, 0, 4, 0, MoveOp::R).expect("soldier slides right");
    assert_eq!(u.get_block(4, 1), Some(Block::B1));
    assert_eq!(u.get_block(4, 0), Some(Block::B0));
    let v = s.move_block(4, 3, 4, 3, MoveOp::L).expect("soldier slides left");
    assert_eq!(v.get_block(4, 2), Some(Block::B1));
    assert_eq!(v.get_block(4, 3), Some(Block::B0));
}

#[test]
fn move_block_blocked_and_off_grid() {
    let s = canonical();
    // the horizontal piece needs both cells below it blank
    assert_eq!(s.move_block(2, 1, 2, 2, MoveOp::D), None);
    // off the grid on every side
    assert_eq!(s.move_block(0, 0, 1, 0, MoveOp::U), None);
    assert_eq!(s.move_block(0, 0, 1, 0, MoveOp::L), None);
    assert_eq!(s.move_block(0, 3, 1, 3, MoveOp::R), None);
    assert_eq!(s.move_block(4, 0, 4, 0, MoveOp::D), None);
    // an occupied cell beyond
    assert_eq!(s.move_block(0, 1, 1, 2, MoveOp::D), None);
}

#[test]
fn move_then_reverse_restores_board() {
    let s = board(["张卒卒赵", "张关关赵", "马曹曹黄", "马曹曹黄", "卒　　卒"]);
    let t = s.move_block(2, 1, 3, 2, MoveOp::D).unwrap();
    let back = t.move_block(3, 1, 4, 2, MoveOp::U).unwrap();
    assert_eq!(back, s);
    let c = canonical();
    let u = c.move_block(3, 2, 3, 2, MoveOp::D).unwrap();
    assert_eq!(u.move_block(4, 2, 4, 2, MoveOp::U).unwrap(), c);
}

#[test]
fn from_lines_reads_wide_blank_from_two_spaces() {
    let s = board(["张曹曹赵", "张曹曹赵", "马关关黄", "马卒卒黄", "卒    卒"]);
    assert_eq!(s, canonical());
}

#[test]
fn from_lines_wrong_line_count() {
    let lines: Vec<Vec<char>> = ["张曹曹赵", "张曹曹赵"].iter().map(|r| r.chars().collect()).collect();
    assert_eq!(State::from_lines(&lines), Err(ParseError::LineCount(2)));
    let none: Vec<Vec<char>> = Vec::new();
    assert_eq!(State::from_lines(&none), Err(ParseError::LineCount(0)));
}

#[test]
fn from_lines_wrong_width() {
    let rows = ["张曹曹赵", "张曹曹赵", "马关关黄卒", "马卒卒黄", "卒　　卒"];
    let lines: Vec<Vec<char>> = rows.iter().map(|r| r.chars().collect()).collect();
    assert_eq!(State::from_lines(&lines), Err(ParseError::LineWidth(2)));
    let rows = ["张曹曹赵", "张曹曹赵", "马关关黄", "马卒卒黄", "卒 卒"];
    let lines: Vec<Vec<char>> = rows.iter().map(|r| r.chars().collect()).collect();
    assert_eq!(State::from_lines(&lines), Err(ParseError::LineWidth(4)));
    // a third space is left over as a glyph of no block
    let rows = ["张曹曹赵", "张曹曹赵", "马关关黄", "马卒卒黄", "卒   卒"];
    let lines: Vec<Vec<char>> = rows.iter().map(|r| r.chars().collect()).collect();
    assert_eq!(State::from_lines(&lines), Err(ParseError::Glyph(4, ' ')));
}

#[test]
fn from_lines_unknown_glyph() {
    let rows = ["张曹曹赵", "张曹曹赵", "马关关黄", "马卒x黄", "卒　　卒"];
    let lines: Vec<Vec<char>> = rows.iter().map(|r| r.chars().collect()).collect();
    assert_eq!(State::from_lines(&lines), Err(ParseError::Glyph(3, 'x')));
}

#[test]
fn glyphs_round_trip() {
    let all = [
        Block::B0,
        Block::B1,
        Block::B2(0),
        Block::B2(1),
        Block::B2(2),
        Block::B2(3),
        Block::B2(4),
        Block::B4,
    ];
    for b in all {
        assert_eq!(Block::from_glyph(b.glyph()), Some(b));
    }
    assert_eq!(Block::B2(1).glyph(), '张');
    assert_eq!(Block::from_glyph('?'), None);
}

#[test]
fn keys_tell_boards_apart() {
    let s = canonical();
    let t = s.move_block(3, 1, 3, 1, MoveOp::D).unwrap();
    assert_ne!(s.key(), t.key());
    assert_eq!(s.key(), canonical().key());
    let blank = board(["        ", "        ", "        ", "        ", "        "]);
    assert_eq!(blank.key(), 0);
    let last = board(["        ", "        ", "        ", "        ", "      曹"]);
    assert_eq!(last.key(), 7);
}

#[test]
fn same_compares_every_cell() {
    let s = canonical();
    assert!(s.same(&canonical()));
    let t = s.move_block(3, 1, 3, 1, MoveOp::D).unwrap();
    assert!(!s.same(&t));
}
