use vstd::prelude::*;

verus! {

/// One cell of the board: a blank, a unit piece, one of the five two-cell
/// pieces (told apart by their tag, 0 to 4), or the large target piece.
#[derive(Clone, Copy, PartialEq, Eq, Structural, Hash, Debug)]
pub enum Block {
    B0,
    B1,
    B2(u8),
    B4,
}

/// The direction in which a piece slides.
#[derive(Clone, Copy, PartialEq, Eq, Structural, Hash, Debug)]
pub enum MoveOp {
    U,
    L,
    D,
    R,
}

/// A board of five rows and four columns.
#[derive(Clone, Copy, PartialEq, Eq, Hash, Debug)]
pub struct State {
    pub state: [[Block; 4]; 5],
}

impl View for State {
    type V = Seq<Seq<Block>>;

    open spec fn view(&self) -> Seq<Seq<Block>> {
        Seq::new(5, |y: int| self.state@[y]@)
    }
}

/// The cell at row `y`, column `x`, or `None` off the grid.
pub open spec fn at(b: Seq<Seq<Block>>, y: int, x: int) -> Option<Block> {
    if 0 <= y < 5 && 0 <= x < 4 {
        Some(b[y][x])
    } else {
        None
    }
}

/// The footprint `(y1, x1, y2, x2)` of the piece at `(y, x)`, found from the
/// neighbours that carry the same block; `None` where no neighbour fits.
pub open spec fn rect_of(b: Seq<Seq<Block>>, y: int, x: int) -> Option<(int, int, int, int)> {
    match b[y][x] {
        Block::B0 => Some((y, x, y, x)),
        Block::B1 => Some((y, x, y, x)),
        Block::B2(t) => {
            if at(b, y - 1, x) == Some(Block::B2(t)) {
                Some((y - 1, x, y, x))
            } else if at(b, y, x - 1) == Some(Block::B2(t)) {
                Some((y, x - 1, y, x))
            } else if at(b, y + 1, x) == Some(Block::B2(t)) {
                Some((y, x, y + 1, x))
            } else if at(b, y, x + 1) == Some(Block::B2(t)) {
                Some((y, x, y, x + 1))
            } else {
                None
            }
        },
        Block::B4 => {
            if at(b, y - 1, x - 1) == Some(Block::B4) {
                Some((y - 1, x - 1, y, x))
            } else if at(b, y + 1, x - 1) == Some(Block::B4) {
                Some((y, x - 1, y + 1, x))
            } else if at(b, y - 1, x + 1) == Some(Block::B4) {
                Some((y - 1, x, y, x + 1))
            } else if at(b, y + 1, x + 1) == Some(Block::B4) {
                Some((y, x, y + 1, x + 1))
            } else {
                None
            }
        },
    }
}

/// The two corners of a rectangle as plain integers.
pub open spec fn corners(a: [(usize, usize); 2]) -> (int, int, int, int) {
    (a@[0].0 as int, a@[0].1 as int, a@[1].0 as int, a@[1].1 as int)
}

/// Every cell of the strip just beyond the rectangle in direction `op` is a
/// blank; a strip off the grid is never clear.
pub open spec fn strip_clear(
    b: Seq<Seq<Block>>,
    y1: int,
    x1: int,
    y2: int,
    x2: int,
    op: MoveOp,
) -> bool {
    match op {
        MoveOp::U => forall|x: int| x1 <= x <= x2 ==> #[trigger] at(b, y1 - 1, x) == Some(Block::B0),
        MoveOp::D => forall|x: int| x1 <= x <= x2 ==> #[trigger] at(b, y2 + 1, x) == Some(Block::B0),
        MoveOp::L => forall|y: int| y1 <= y <= y2 ==> #[trigger] at(b, y, x1 - 1) == Some(Block::B0),
        MoveOp::R => forall|y: int| y1 <= y <= y2 ==> #[trigger] at(b, y, x2 + 1) == Some(Block::B0),
    }
}

/// The content of cell `(y, x)` after the rectangle slid one step toward `op`.
pub open spec fn moved_cell(
    b: Seq<Seq<Block>>,
    y1: int,
    x1: int,
    y2: int,
    x2: int,
    op: MoveOp,
    y: int,
    x: int,
) -> Block {
    match op {
        MoveOp::U => {
            if x1 <= x <= x2 && y1 - 1 <= y <= y2 - 1 {
                b[y + 1][x]
            } else if x1 <= x <= x2 && y == y2 {
                Block::B0
            } else {
                b[y][x]
            }
        },
        MoveOp::D => {
            if x1 <= x <= x2 && y1 + 1 <= y <= y2 + 1 {
                b[y - 1][x]
            } else if x1 <= x <= x2 && y == y1 {
                Block::B0
            } else {
                b[y][x]
            }
        },
        MoveOp::L => {
            if y1 <= y <= y2 && x1 - 1 <= x <= x2 - 1 {
                b[y][x + 1]
            } else if y1 <= y <= y2 && x == x2 {
                Block::B0
            } else {
                b[y][x]
            }
        },
        MoveOp::R => {
            if y1 <= y <= y2 && x1 + 1 <= x <= x2 + 1 {
                b[y][x - 1]
            } else if y1 <= y <= y2 && x == x1 {
                Block::B0
            } else {
                b[y][x]
            }
        },
    }
}

/// The board after the rectangle slid one step toward `op`.
pub open spec fn moved(
    b: Seq<Seq<Block>>,
    y1: int,
    x1: int,
    y2: int,
    x2: int,
    op: MoveOp,
) -> Seq<Seq<Block>> {
    Seq::new(5, |y: int| Seq::new(4, |x: int| moved_cell(b, y1, x1, y2, x2, op, y, x)))
}

/// The blank cells among the first `n` cells in row-major order, in that order.
pub open spec fn blanks_in(b: Seq<Seq<Block>>, n: nat) -> Seq<(int, int)>
    decreases n,
{
    if n == 0 {
        Seq::empty()
    } else {
        let y = (n - 1) / 4;
        let x = (n - 1) % 4;
        if b[y][x] == Block::B0 {
            blanks_in(b, (n - 1) as nat).push((y, x))
        } else {
            blanks_in(b, (n - 1) as nat)
        }
    }
}

/// What `find_block0s` reports in slot `i`: the `i`-th blank in row-major
/// order, or `(0, 0)` where the board holds fewer blanks.
#[verifier::opaque]
pub open spec fn blank_slot(b: Seq<Seq<Block>>, i: int) -> (int, int) {
    let bl = blanks_in(b, 20);
    if i < bl.len() {
        bl[i]
    } else {
        (0, 0)
    }
}

/// The number code of one cell in a board key: a general piece's tag counts
/// from 2 on.
pub open spec fn code(c: Block) -> int {
    match c {
        Block::B0 => 0,
        Block::B1 => 1,
        Block::B2(t) => 2 + t,
        Block::B4 => 7,
    }
}

/// A general piece's tag lies below 5.
pub open spec fn valid_block(c: Block) -> bool {
    match c {
        Block::B2(t) => t < 5,
        _ => true,
    }
}

/// A board whose general pieces all carry a tag below 5.
pub open spec fn valid(b: Seq<Seq<Block>>) -> bool {
    forall|y: int, x: int| 0 <= y < 5 && 0 <= x < 4 ==> valid_block(#[trigger] b[y][x])
}

/// The key of one row: its four codes as octal digits.
pub open spec fn row_key(r: Seq<Block>) -> int {
    ((code(r[0]) * 8 + code(r[1])) * 8 + code(r[2])) * 8 + code(r[3])
}

/// The key of a board: its rows' keys as digits in base 4096.
pub open spec fn key_of(b: Seq<Seq<Block>>) -> int {
    (((row_key(b[0]) * 4096 + row_key(b[1])) * 4096 + row_key(b[2])) * 4096 + row_key(b[3]))
        * 4096 + row_key(b[4])
}

proof fn lemma_blanks_in_grid(b: Seq<Seq<Block>>, n: nat)
    requires
        n <= 20,
    ensures
        forall|i: int|
            0 <= i < blanks_in(b, n).len() ==> 0 <= (#[trigger] blanks_in(b, n)[i]).0 < 5 && 0
                <= blanks_in(b, n)[i].1 < 4,
    decreases n,
{
    if n > 0 {
        let m = (n - 1) as nat;
        lemma_blanks_in_grid(b, m);
        let y = m / 4;
        let x = m % 4;
        assert(0 <= y < 5 && 0 <= x < 4);
        if b[y as int][x as int] == Block::B0 {
            assert(blanks_in(b, n) == blanks_in(b, m).push((y as int, x as int)));
        } else {
            assert(blanks_in(b, n) == blanks_in(b, m));
        }
    }
}

/// Every blank among the first `n` cells is listed.
pub proof fn lemma_blank_listed(b: Seq<Seq<Block>>, n: nat, y: int, x: int)
    requires
        0 <= y < 5,
        0 <= x < 4,
        b[y][x] == Block::B0,
        y * 4 + x < n <= 20,
    ensures
        blanks_in(b, n).contains((y, x)),
    decreases n,
{
    let m = (n - 1) as nat;
    if y * 4 + x == m {
        assert(m / 4 == y && m % 4 == x);
        assert(blanks_in(b, n) == blanks_in(b, m).push((y, x)));
        assert(blanks_in(b, n)[blanks_in(b, m).len() as int] == (y, x));
    } else {
        lemma_blank_listed(b, m, y, x);
        let i = choose|i: int| 0 <= i < blanks_in(b, m).len() && blanks_in(b, m)[i] == (y, x);
        let my = m / 4;
        let mx = m % 4;
        if b[my as int][mx as int] == Block::B0 {
            assert(blanks_in(b, n) == blanks_in(b, m).push((my as int, mx as int)));
            assert(blanks_in(b, n)[i] == (y, x));
        } else {
            assert(blanks_in(b, n) == blanks_in(b, m));
        }
    }
}

proof fn lemma_blanks_prefix(b: Seq<Seq<Block>>, k: nat, n: nat)
    requires
        k <= n,
    ensures
        blanks_in(b, k).len() <= blanks_in(b, n).len(),
        forall|i: int| 0 <= i < blanks_in(b, k).len() ==> blanks_in(b, n)[i] == blanks_in(b, k)[i],
    decreases n - k,
{
    if k < n {
        lemma_blanks_prefix(b, k, (n - 1) as nat);
    }
}

/// The number code of one cell.
fn block_code(c: Block) -> (r: u64)
    requires
        valid_block(c),
    ensures
        r == code(c),
        r < 8,
{
    match c {
        Block::B0 => 0,
        Block::B1 => 1,
        Block::B2(t) => 2 + t as u64,
        Block::B4 => 7,
    }
}

/// A grid of five rows of four cells each.
pub open spec fn shaped(b: Seq<Seq<Block>>) -> bool {
    b.len() == 5 && forall|y: int| 0 <= y < 5 ==> #[trigger] b[y].len() == 4
}

/// The opposite direction.
pub open spec fn reverse_op(op: MoveOp) -> MoveOp {
    match op {
        MoveOp::U => MoveOp::D,
        MoveOp::D => MoveOp::U,
        MoveOp::L => MoveOp::R,
        MoveOp::R => MoveOp::L,
    }
}

/// The rectangle `(y1, x1, y2, x2)` moved one step toward `op`.
pub open spec fn shifted(y1: int, x1: int, y2: int, x2: int, op: MoveOp) -> (int, int, int, int) {
    match op {
        MoveOp::U => (y1 - 1, x1, y2 - 1, x2),
        MoveOp::D => (y1 + 1, x1, y2 + 1, x2),
        MoveOp::L => (y1, x1 - 1, y2, x2 - 1),
        MoveOp::R => (y1, x1 + 1, y2, x2 + 1),
    }
}

/// A slide can be undone: after a legal slide of a rectangle, sliding the
/// rectangle at its new place the opposite way is legal and gives back the
/// board it started from.
pub proof fn lemma_move_reversible(
    b: Seq<Seq<Block>>,
    y1: int,
    x1: int,
    y2: int,
    x2: int,
    op: MoveOp,
)
    requires
        shaped(b),
        0 <= y1 <= y2 < 5,
        0 <= x1 <= x2 < 4,
        strip_clear(b, y1, x1, y2, x2, op),
    ensures
        ({
            let m = moved(b, y1, x1, y2, x2, op);
            let r = shifted(y1, x1, y2, x2, op);
            &&& strip_clear(m, r.0, r.1, r.2, r.3, reverse_op(op))
            &&& moved(m, r.0, r.1, r.2, r.3, reverse_op(op)) == b
        }),
{
    let m = moved(b, y1, x1, y2, x2, op);
    let r = shifted(y1, x1, y2, x2, op);
    let back = moved(m, r.0, r.1, r.2, r.3, reverse_op(op));
    match op {
        MoveOp::U => {
            assert(at(b, y1 - 1, x1) == Some(Block::B0));
        },
        MoveOp::D => {
            assert(at(b, y2 + 1, x1) == Some(Block::B0));
        },
        MoveOp::L => {
            assert(at(b, y1, x1 - 1) == Some(Block::B0));
        },
        MoveOp::R => {
            assert(at(b, y1, x2 + 1) == Some(Block::B0));
        },
    }
    assert forall|y: int, x: int| 0 <= y < 5 && 0 <= x < 4 implies #[trigger] back[y][x] == b[y][x] by {
        match op {
            MoveOp::U => {
                if x1 <= x <= x2 && y == y1 - 1 {
                    assert(at(b, y1 - 1, x) == Some(Block::B0));
                }
            },
            MoveOp::D => {
                if x1 <= x <= x2 && y == y2 + 1 {
                    assert(at(b, y2 + 1, x) == Some(Block::B0));
                }
            },
            MoveOp::L => {
                if y1 <= y <= y2 && x == x1 - 1 {
                    assert(at(b, y, x1 - 1) == Some(Block::B0));
                }
            },
            MoveOp::R => {
                if y1 <= y <= y2 && x == x2 + 1 {
                    assert(at(b, y, x2 + 1) == Some(Block::B0));
                }
            },
        }
    }
    assert(back =~~= b);
}

/// A two-cell piece whose tag occurs on no other cell has one footprint,
/// whichever of its two cells it is asked from.
pub proof fn lemma_general_rect_consistent(
    b: Seq<Seq<Block>>,
    t: u8,
    y1: int,
    x1: int,
    y2: int,
    x2: int,
)
    requires
        shaped(b),
        0 <= y1 <= y2 < 5,
        0 <= x1 <= x2 < 4,
        (y2 == y1 + 1 && x2 == x1) || (y2 == y1 && x2 == x1 + 1),
        b[y1][x1] == Block::B2(t),
        b[y2][x2] == Block::B2(t),
        forall|y: int, x: int|
            0 <= y < 5 && 0 <= x < 4 && #[trigger] b[y][x] == Block::B2(t) ==> (y == y1 && x == x1)
                || (y == y2 && x == x2),
    ensures
        rect_of(b, y1, x1) == Some((y1, x1, y2, x2)),
        rect_of(b, y2, x2) == Some((y1, x1, y2, x2)),
{
    if at(b, y1 - 1, x1) == Some(Block::B2(t)) {
        assert(b[y1 - 1][x1] == Block::B2(t));
    }
    if at(b, y1, x1 - 1) == Some(Block::B2(t)) {
        assert(b[y1][x1 - 1] == Block::B2(t));
    }
    if at(b, y1 + 1, x1) == Some(Block::B2(t)) {
        assert(b[y1 + 1][x1] == Block::B2(t));
    }
    if at(b, y2 - 1, x2) == Some(Block::B2(t)) {
        assert(b[y2 - 1][x2] == Block::B2(t));
    }
}

/// Whether the target piece covers exactly the square whose top-left cell
/// is `(a, c)`, and no other cell.
pub open spec fn target_at(b: Seq<Seq<Block>>, a: int, c: int) -> bool {
    &&& 0 <= a < 4
    &&& 0 <= c < 3
    &&& forall|y: int, x: int|
        0 <= y < 5 && 0 <= x < 4 ==> (#[trigger] b[y][x] == Block::B4 <==> (a <= y <= a + 1 && c
            <= x <= c + 1))
}

/// The target piece has one footprint, whichever of its four cells it is
/// asked from.
pub proof fn lemma_target_rect_consistent(b: Seq<Seq<Block>>, a: int, c: int)
    requires
        shaped(b),
        target_at(b, a, c),
    ensures
        rect_of(b, a, c) == Some((a, c, a + 1, c + 1)),
        rect_of(b, a, c + 1) == Some((a, c, a + 1, c + 1)),
        rect_of(b, a + 1, c) == Some((a, c, a + 1, c + 1)),
        rect_of(b, a + 1, c + 1) == Some((a, c, a + 1, c + 1)),
{
    assert(b[a][c] == Block::B4);
    assert(b[a][c + 1] == Block::B4);
    assert(b[a + 1][c] == Block::B4);
    assert(b[a + 1][c + 1] == Block::B4);
    assert(at(b, a - 1, c - 1) != Some(Block::B4)) by {
        if a >= 1 && c >= 1 {
            assert(b[a - 1][c - 1] != Block::B4);
        }
    }
    assert(at(b, a + 1, c - 1) != Some(Block::B4)) by {
        if c >= 1 {
            assert(b[a + 1][c - 1] != Block::B4);
        }
    }
    assert(at(b, a - 1, c + 1) != Some(Block::B4)) by {
        if a >= 1 {
            assert(b[a - 1][c + 1] != Block::B4);
        }
    }
    assert(at(b, a - 1, c) != Some(Block::B4)) by {
        if a >= 1 {
            assert(b[a - 1][c] != Block::B4);
        }
    }
    assert(at(b, a + 2, c - 1) != Some(Block::B4)) by {
        if a + 2 < 5 && c >= 1 {
            assert(b[a + 2][c - 1] != Block::B4);
        }
    }
}

proof fn lemma_digits(p: int, c: int, q: int, d: int, base: int)
    requires
        1 <= base,
        0 <= c < base,
        0 <= d < base,
        p * base + c == q * base + d,
    ensures
        p == q,
        c == d,
{
    assert(p == q && c == d) by (nonlinear_arith)
        requires
            1 <= base,
            0 <= c < base,
            0 <= d < base,
            p * base + c == q * base + d,
    ;
}

proof fn lemma_code_injective(u: Block, v: Block)
    requires
        valid_block(u),
        valid_block(v),
        code(u) == code(v),
    ensures
        u == v,
{
}

proof fn lemma_row_key_injective(r: Seq<Block>, s: Seq<Block>)
    requires
        r.len() == 4,
        s.len() == 4,
        forall|x: int| 0 <= x < 4 ==> valid_block(#[trigger] r[x]),
        forall|x: int| 0 <= x < 4 ==> valid_block(#[trigger] s[x]),
        row_key(r) == row_key(s),
    ensures
        r == s,
{
    assert(valid_block(r[0]) && valid_block(r[1]) && valid_block(r[2]) && valid_block(r[3]));
    assert(valid_block(s[0]) && valid_block(s[1]) && valid_block(s[2]) && valid_block(s[3]));
    let (r0, r1, r2, r3) = (code(r[0]), code(r[1]), code(r[2]), code(r[3]));
    let (s0, s1, s2, s3) = (code(s[0]), code(s[1]), code(s[2]), code(s[3]));
    assert(0 <= r0 * 8 + r1 < 64);
    assert(0 <= s0 * 8 + s1 < 64);
    assert(0 <= (r0 * 8 + r1) * 8 + r2 < 512);
    assert(0 <= (s0 * 8 + s1) * 8 + s2 < 512);
    lemma_digits((r0 * 8 + r1) * 8 + r2, r3, (s0 * 8 + s1) * 8 + s2, s3, 8);
    lemma_digits(r0 * 8 + r1, r2, s0 * 8 + s1, s2, 8);
    lemma_digits(r0, r1, s0, s1, 8);
    lemma_code_injective(r[0], s[0]);
    lemma_code_injective(r[1], s[1]);
    lemma_code_injective(r[2], s[2]);
    lemma_code_injective(r[3], s[3]);
    assert(r =~= s);
}

proof fn lemma_row_key_range(b: Seq<Seq<Block>>, y: int)
    requires
        shaped(b),
        valid(b),
        0 <= y < 5,
    ensures
        0 <= row_key(b[y]) < 4096,
{
    assert(valid_block(b[y][0]));
    assert(valid_block(b[y][1]));
    assert(valid_block(b[y][2]));
    assert(valid_block(b[y][3]));
}

/// The key of a valid board fits in 60 bits.
pub proof fn lemma_key_range(b: Seq<Seq<Block>>)
    requires
        shaped(b),
        valid(b),
    ensures
        0 <= key_of(b) < 0x1000_0000_0000_0000,
{
    lemma_row_key_range(b, 0);
    lemma_row_key_range(b, 1);
    lemma_row_key_range(b, 2);
    lemma_row_key_range(b, 3);
    lemma_row_key_range(b, 4);
}

/// The view of every board is a grid of five rows of four cells.
pub proof fn lemma_view_shaped(s: State)
    ensures
        shaped(s@),
{
    assert forall|y: int| 0 <= y < 5 implies #[trigger] s@[y].len() == 4 by {
        assert(s@[y] == s.state@[y]@);
    }
}

/// Two valid boards share a key only when they are the same board, so the
/// predecessor map, keyed by board keys, holds one entry per distinct board.
pub proof fn lemma_key_injective(a: Seq<Seq<Block>>, b: Seq<Seq<Block>>)
    requires
        shaped(a),
        shaped(b),
        valid(a),
        valid(b),
        key_of(a) == key_of(b),
    ensures
        a == b,
{
    let ka = |y: int| row_key(a[y]);
    let kb = |y: int| row_key(b[y]);
    lemma_row_key_range(a, 0);
    lemma_row_key_range(a, 1);
    lemma_row_key_range(a, 2);
    lemma_row_key_range(a, 3);
    lemma_row_key_range(a, 4);
    lemma_row_key_range(b, 0);
    lemma_row_key_range(b, 1);
    lemma_row_key_range(b, 2);
    lemma_row_key_range(b, 3);
    lemma_row_key_range(b, 4);
    let a3 = ((ka(0) * 4096 + ka(1)) * 4096 + ka(2)) * 4096 + ka(3);
    let b3 = ((kb(0) * 4096 + kb(1)) * 4096 + kb(2)) * 4096 + kb(3);
    lemma_digits(a3, ka(4), b3, kb(4), 4096);
    lemma_digits((ka(0) * 4096 + ka(1)) * 4096 + ka(2), ka(3), (kb(0) * 4096 + kb(1)) * 4096 + kb(2), kb(3), 4096);
    lemma_digits(ka(0) * 4096 + ka(1), ka(2), kb(0) * 4096 + kb(1), kb(2), 4096);
    lemma_digits(ka(0), ka(1), kb(0), kb(1), 4096);
    assert forall|y: int| 0 <= y < 5 implies #[trigger] a[y] == b[y] by {
        assert(forall|x: int| 0 <= x < 4 ==> valid_block(#[trigger] a[y][x]));
        assert(forall|x: int| 0 <= x < 4 ==> valid_block(#[trigger] b[y][x]));
        lemma_row_key_injective(a[y], b[y]);
    }
    assert(a =~= b);
}

/// The block that a glyph of the board text stands for.
pub open spec fn glyph_block(c: char) -> Option<Block> {
    if c == '\u{3000}' {
        Some(Block::B0)
    } else if c == '卒' {
        Some(Block::B1)
    } else if c == '关' {
        Some(Block::B2(0))
    } else if c == '张' {
        Some(Block::B2(1))
    } else if c == '赵' {
        Some(Block::B2(2))
    } else if c == '马' {
        Some(Block::B2(3))
    } else if c == '黄' {
        Some(Block::B2(4))
    } else if c == '曹' {
        Some(Block::B4)
    } else {
        None
    }
}

/// The glyph that shows a block.
pub open spec fn block_glyph(b: Block) -> char {
    match b {
        Block::B0 => '\u{3000}',
        Block::B1 => '卒',
        Block::B2(0) => '关',
        Block::B2(1) => '张',
        Block::B2(2) => '赵',
        Block::B2(3) => '马',
        Block::B2(_) => '黄',
        Block::B4 => '曹',
    }
}

/// Every valid block is read back from its glyph.
pub proof fn lemma_glyph_round_trip(b: Block)
    requires
        valid_block(b),
    ensures
        glyph_block(block_glyph(b)) == Some(b),
{
}

/// A line of board text with each pair of plain spaces, read left to right,
/// turned into one wide blank glyph.
pub open spec fn widen(s: Seq<char>) -> Seq<char>
    decreases s.len(),
{
    if s.len() == 0 {
        Seq::empty()
    } else if s.len() >= 2 && s[0] == ' ' && s[1] == ' ' {
        seq!['\u{3000}'] + widen(s.skip(2))
    } else {
        seq![s[0]] + widen(s.skip(1))
    }
}

/// A line that describes one row: four glyphs, each of a block.
pub open spec fn row_ok(s: Seq<char>) -> bool {
    widen(s).len() == 4 && forall|x: int| 0 <= x < 4 ==> #[trigger] glyph_block(widen(s)[x]) is Some
}

/// Why board text was refused.
#[derive(Clone, Copy, PartialEq, Eq, Structural, Debug)]
pub enum ParseError {
    /// The text has this many lines, not five.
    LineCount(usize),
    /// This row does not hold four glyphs.
    LineWidth(usize),
    /// This row holds a glyph of no block.
    Glyph(usize, char),
}

impl Block {
    /// The block that glyph `c` stands for, if any.
    pub fn from_glyph(c: char) -> (r: Option<Block>)
        ensures
            r == glyph_block(c),
            r matches Some(b) ==> valid_block(b),
    {
        if c == '\u{3000}' {
            Some(Block::B0)
        } else if c == '卒' {
            Some(Block::B1)
        } else if c == '关' {
            Some(Block::B2(0))
        } else if c == '张' {
            Some(Block::B2(1))
        } else if c == '赵' {
            Some(Block::B2(2))
        } else if c == '马' {
            Some(Block::B2(3))
        } else if c == '黄' {
            Some(Block::B2(4))
        } else if c == '曹' {
            Some(Block::B4)
        } else {
            None
        }
    }

    /// The glyph that shows the block.
    pub fn glyph(&self) -> (r: char)
        ensures
            r == block_glyph(*self),
    {
        match *self {
            Block::B0 => '\u{3000}',
            Block::B1 => '卒',
            Block::B2(0) => '关',
            Block::B2(1) => '张',
            Block::B2(2) => '赵',
            Block::B2(3) => '马',
            Block::B2(_) => '黄',
            Block::B4 => '曹',
        }
    }
}

/// The line with each pair of plain spaces turned into one wide blank.
pub fn widen_line(line: &Vec<char>) -> (r: Vec<char>)
    ensures
        r@ == widen(line@),
{
    let mut out: Vec<char> = Vec::new();
    let mut i: usize = 0;
    assert(line@.skip(0) =~= line@);
    assert(out@ + widen(line@) =~= widen(line@));
    while i < line.len()
        invariant
            i <= line@.len(),
            out@ + widen(line@.skip(i as int)) == widen(line@),
        decreases line@.len() - i,
    {
        let ghost rest = line@.skip(i as int);
        if i + 1 < line.len() && line[i] == ' ' && line[i + 1] == ' ' {
            assert(rest.skip(2) =~= line@.skip(i + 2));
            out.push('\u{3000}');
            i += 2;
        } else {
            assert(rest.skip(1) =~= line@.skip(i + 1));
            out.push(line[i]);
            i += 1;
        }
        assert(out@ + widen(line@.skip(i as int)) =~= widen(line@));
    }
    assert(line@.skip(i as int) =~= Seq::<char>::empty());
    assert(out@ + widen(line@.skip(i as int)) =~= out@);
    out
}

impl State {
    /// The block at row `y`, column `x`, or `None` off the grid.
    pub fn get_block(&self, y: usize, x: usize) -> (r: Option<Block>)
        ensures
            r == at(self@, y as int, x as int),
    {
        if y <= 4 {
            if x <= 3 {
                return Some(self.state[y][x]);
            }
        }
        None
    }

    /// Whether the cell at `(y, x)` is on the grid and holds `b`.
    fn holds(&self, y: usize, x: usize, b: Block) -> (r: bool)
        ensures
            r == (at(self@, y as int, x as int) == Some(b)),
    {
        match self.get_block(y, x) {
            Some(c) => c == b,
            None => false,
        }
    }

    /// The footprint of the piece at `(y, x)`, or `None` where no neighbour
    /// completes it.
    pub(crate) fn rect_at(&self, y: usize, x: usize) -> (r: Option<[(usize, usize); 2]>)
        requires
            y < 5,
            x < 4,
        ensures
            match r {
                Some(a) => rect_of(self@, y as int, x as int) == Some(corners(a)),
                None => rect_of(self@, y as int, x as int) is None,
            },
    {
        let b = self.state[y][x];
        match b {
            Block::B0 => Some([(y, x), (y, x)]),
            Block::B1 => Some([(y, x), (y, x)]),
            Block::B2(_) => {
                if y >= 1 && self.holds(y - 1, x, b) {
                    Some([(y - 1, x), (y, x)])
                } else if x >= 1 && self.holds(y, x - 1, b) {
                    Some([(y, x - 1), (y, x)])
                } else if self.holds(y + 1, x, b) {
                    Some([(y, x), (y + 1, x)])
                } else if self.holds(y, x + 1, b) {
                    Some([(y, x), (y, x + 1)])
                } else {
                    None
                }
            },
            Block::B4 => {
                if y >= 1 && x >= 1 && self.holds(y - 1, x - 1, b) {
                    Some([(y - 1, x - 1), (y, x)])
                } else if x >= 1 && self.holds(y + 1, x - 1, b) {
                    Some([(y, x - 1), (y + 1, x)])
                } else if y >= 1 && self.holds(y - 1, x + 1, b) {
                    Some([(y - 1, x), (y, x + 1)])
                } else if self.holds(y + 1, x + 1, b) {
                    Some([(y, x), (y + 1, x + 1)])
                } else {
                    None
                }
            },
        }
    }

    /// The footprint of the piece at `(y, x)`, as its two corner cells.
    pub fn find_block_rect(&self, y: usize, x: usize) -> (r: [(usize, usize); 2])
        requires
            y < 5,
            x < 4,
            rect_of(self@, y as int, x as int) is Some,
        ensures
            rect_of(self@, y as int, x as int) == Some(corners(r)),
    {
        match self.rect_at(y, x) {
            Some(a) => a,
            None => [(y, x), (y, x)],
        }
    }

    /// Whether every cell of row `y` from column `x1` to `x2` is a blank.
    fn row_blank(&self, y: usize, x1: usize, x2: usize) -> (r: bool)
        requires
            y < 5,
            x1 <= x2 < 4,
        ensures
            r == forall|x: int| x1 <= x <= x2 ==> #[trigger] at(self@, y as int, x) == Some(Block::B0),
    {
        let mut x = x1;
        while x <= x2
            invariant
                y < 5,
                x1 <= x <= x2 + 1,
                x2 < 4,
                forall|xx: int| x1 <= xx < x ==> #[trigger] at(self@, y as int, xx) == Some(Block::B0),
            decreases x2 + 1 - x,
        {
            if self.state[y][x] != Block::B0 {
                assert(at(self@, y as int, x as int) != Some(Block::B0));
                return false;
            }
            x += 1;
        }
        true
    }

    /// Whether every cell of column `x` from row `y1` to `y2` is a blank.
    fn col_blank(&self, x: usize, y1: usize, y2: usize) -> (r: bool)
        requires
            x < 4,
            y1 <= y2 < 5,
        ensures
            r == forall|y: int| y1 <= y <= y2 ==> #[trigger] at(self@, y, x as int) == Some(Block::B0),
    {
        let mut y = y1;
        while y <= y2
            invariant
                x < 4,
                y1 <= y <= y2 + 1,
                y2 < 5,
                forall|yy: int| y1 <= yy < y ==> #[trigger] at(self@, yy, x as int) == Some(Block::B0),
            decreases y2 + 1 - y,
        {
            if self.state[y][x] != Block::B0 {
                assert(at(self@, y as int, x as int) != Some(Block::B0));
                return false;
            }
            y += 1;
        }
        true
    }

    /// Whether the strip beyond the rectangle in direction `op` is clear.
    fn can_move(&self, y1: usize, x1: usize, y2: usize, x2: usize, op: MoveOp) -> (r: bool)
        requires
            y1 <= y2 < 5,
            x1 <= x2 < 4,
        ensures
            r == strip_clear(self@, y1 as int, x1 as int, y2 as int, x2 as int, op),
    {
        match op {
            MoveOp::U => {
                let r = y1 >= 1 && self.row_blank(y1 - 1, x1, x2);
                proof {
                    if y1 >= 1 {
                        assert(y1 - 1 == (y1 - 1) as usize as int);
                    }
                    if !r && y1 == 0 {
                        assert(at(self@, y1 - 1, x1 as int) != Some(Block::B0));
                    }
                }
                r
            },
            MoveOp::D => {
                let r = y2 + 1 < 5 && self.row_blank(y2 + 1, x1, x2);
                proof {
                    if !r && y2 + 1 >= 5 {
                        assert(at(self@, y2 + 1, x1 as int) != Some(Block::B0));
                    }
                }
                r
            },
            MoveOp::L => {
                let r = x1 >= 1 && self.col_blank(x1 - 1, y1, y2);
                proof {
                    if x1 >= 1 {
                        assert(x1 - 1 == (x1 - 1) as usize as int);
                    }
                    if !r && x1 == 0 {
                        assert(at(self@, y1 as int, x1 - 1) != Some(Block::B0));
                    }
                }
                r
            },
            MoveOp::R => {
                let r = x2 + 1 < 4 && self.col_blank(x2 + 1, y1, y2);
                proof {
                    if !r && x2 + 1 >= 4 {
                        assert(at(self@, y1 as int, x2 + 1) != Some(Block::B0));
                    }
                }
                r
            },
        }
    }

    /// The content of cell `(y, x)` once the rectangle has slid toward `op`.
    fn cell_after(
        &self,
        y1: usize,
        x1: usize,
        y2: usize,
        x2: usize,
        op: MoveOp,
        y: usize,
        x: usize,
    ) -> (r: Block)
        requires
            y1 <= y2 < 5,
            x1 <= x2 < 4,
            y < 5,
            x < 4,
        ensures
            r == moved_cell(self@, y1 as int, x1 as int, y2 as int, x2 as int, op, y as int, x as int),
    {
        match op {
            MoveOp::U => {
                if x1 <= x && x <= x2 && y1 <= y + 1 && y + 1 <= y2 {
                    self.state[y + 1][x]
                } else if x1 <= x && x <= x2 && y == y2 {
                    Block::B0
                } else {
                    self.state[y][x]
                }
            },
            MoveOp::D => {
                if x1 <= x && x <= x2 && y1 + 1 <= y && y <= y2 + 1 {
                    self.state[y - 1][x]
                } else if x1 <= x && x <= x2 && y == y1 {
                    Block::B0
                } else {
                    self.state[y][x]
                }
            },
            MoveOp::L => {
                if y1 <= y && y <= y2 && x1 <= x + 1 && x + 1 <= x2 {
                    self.state[y][x + 1]
                } else if y1 <= y && y <= y2 && x == x2 {
                    Block::B0
                } else {
                    self.state[y][x]
                }
            },
            MoveOp::R => {
                if y1 <= y && y <= y2 && x1 + 1 <= x && x <= x2 + 1 {
                    self.state[y][x - 1]
                } else if y1 <= y && y <= y2 && x == x1 {
                    Block::B0
                } else {
                    self.state[y][x]
                }
            },
        }
    }

    /// Slides the piece whose rectangle runs from `(y1, x1)` to `(y2, x2)` one
    /// step toward `op`, giving the new board, or `None` when the strip beyond
    /// the rectangle is not all blank (or runs off the grid).
    pub fn move_block(
        &self,
        y1: usize,
        x1: usize,
        y2: usize,
        x2: usize,
        op: MoveOp,
    ) -> (r: Option<State>)
        requires
            y1 <= y2 < 5,
            x1 <= x2 < 4,
        ensures
            match r {
                Some(t) => strip_clear(self@, y1 as int, x1 as int, y2 as int, x2 as int, op)
                    && t@ == moved(self@, y1 as int, x1 as int, y2 as int, x2 as int, op),
                None => !strip_clear(self@, y1 as int, x1 as int, y2 as int, x2 as int, op),
            },
    {
        if !self.can_move(y1, x1, y2, x2, op) {
            return None;
        }
        let ghost m = moved(self@, y1 as int, x1 as int, y2 as int, x2 as int, op);
        let mut t = *self;
        let mut y: usize = 0;
        while y < 5
            invariant
                y <= 5,
                y1 <= y2 < 5,
                x1 <= x2 < 4,
                m == moved(self@, y1 as int, x1 as int, y2 as int, x2 as int, op),
                forall|yy: int, xx: int|
                    0 <= yy < y && 0 <= xx < 4 ==> #[trigger] t.state@[yy]@[xx] == m[yy][xx],
            decreases 5 - y,
        {
            let mut row = self.state[y];
            let mut x: usize = 0;
            while x < 4
                invariant
                    x <= 4,
                    y < 5,
                    y1 <= y2 < 5,
                    x1 <= x2 < 4,
                    m == moved(self@, y1 as int, x1 as int, y2 as int, x2 as int, op),
                    forall|xx: int| 0 <= xx < x ==> #[trigger] row@[xx] == m[y as int][xx],
                decreases 4 - x,
            {
                row[x] = self.cell_after(y1, x1, y2, x2, op, y, x);
                x += 1;
            }
            t.state[y] = row;
            y += 1;
        }
        assert(t@ =~~= m);
        Some(t)
    }

    /// The first two blanks in row-major order.
    pub fn find_block0s(&self) -> (r: [(usize, usize); 2])
        ensures
            forall|i: int|
                0 <= i < 2 ==> (#[trigger] r@[i].0 as int, r@[i].1 as int) == blank_slot(self@, i),
            forall|i: int| 0 <= i < 2 ==> #[trigger] r@[i].0 < 5 && r@[i].1 < 4,
    {
        let mut block0s = [(0usize, 0usize); 2];
        let mut i: usize = 0;
        let mut k: usize = 0;
        while k < 20 && i < 2
            invariant
                k <= 20,
                i <= 2,
                i == blanks_in(self@, k as nat).len() || (i == 2 && blanks_in(self@, k as nat).len()
                    >= 2),
                forall|j: int|
                    0 <= j < i ==> (#[trigger] block0s@[j].0 as int, block0s@[j].1 as int)
                        == blanks_in(self@, k as nat)[j],
                forall|j: int| i <= j < 2 ==> #[trigger] block0s@[j] == (0usize, 0usize),
            decreases 20 - k,
        {
            let y = k / 4;
            let x = k % 4;
            if self.state[y][x] == Block::B0 {
                block0s[i] = (y, x);
                i += 1;
            }
            k += 1;
        }
        proof {
            reveal(blank_slot);
            lemma_blanks_prefix(self@, k as nat, 20);
            lemma_blanks_in_grid(self@, 20);
            assert forall|j: int| 0 <= j < 2 implies (#[trigger] block0s@[j].0 as int,
                block0s@[j].1 as int) == blank_slot(self@, j) by {
                if k == 20 {
                } else {
                    assert(blanks_in(self@, k as nat).len() >= 2);
                }
            }
        }
        block0s
    }

    /// The key of row `y`.
    fn row_code(&self, y: usize) -> (r: u64)
        requires
            y < 5,
            valid(self@),
        ensures
            r == row_key(self@[y as int]),
            r < 4096,
    {
        let row = self.state[y];
        proof {
            assert(valid_block(self@[y as int][0]));
            assert(valid_block(self@[y as int][1]));
            assert(valid_block(self@[y as int][2]));
            assert(valid_block(self@[y as int][3]));
        }
        ((block_code(row[0]) * 8 + block_code(row[1])) * 8 + block_code(row[2])) * 8 + block_code(
            row[3],
        )
    }

    /// The key of the board: distinct valid boards get distinct keys.
    pub fn key(&self) -> (r: u64)
        requires
            valid(self@),
        ensures
            r == key_of(self@),
    {
        let r0 = self.row_code(0);
        let r1 = self.row_code(1);
        let r2 = self.row_code(2);
        let r3 = self.row_code(3);
        let r4 = self.row_code(4);
        (((r0 * 4096 + r1) * 4096 + r2) * 4096 + r3) * 4096 + r4
    }

    /// Whether the two boards hold the same block in every cell.
    pub fn same(&self, other: &State) -> (r: bool)
        ensures
            r == (self@ == other@),
    {
        let mut y: usize = 0;
        while y < 5
            invariant
                y <= 5,
                forall|yy: int, xx: int|
                    0 <= yy < y && 0 <= xx < 4 ==> #[trigger] self@[yy][xx] == other@[yy][xx],
            decreases 5 - y,
        {
            let mut x: usize = 0;
            while x < 4
                invariant
                    x <= 4,
                    y < 5,
                    forall|yy: int, xx: int|
                        0 <= yy < y && 0 <= xx < 4 ==> #[trigger] self@[yy][xx] == other@[yy][xx],
                    forall|xx: int| 0 <= xx < x ==> #[trigger] self@[y as int][xx] == other@[y as int][xx],
                decreases 4 - x,
            {
                if self.state[y][x] != other.state[y][x] {
                    assert(self@[y as int][x as int] != other@[y as int][x as int]);
                    return false;
                }
                x += 1;
            }
            y += 1;
        }
        assert(self@ =~~= other@);
        true
    }

    /// Reads a board from its five lines of text, one row each: two plain
    /// spaces stand for one blank, and each row must hold four glyphs.
    pub fn from_lines(lines: &Vec<Vec<char>>) -> (r: Result<State, ParseError>)
        ensures
            match r {
                Ok(s) => {
                    &&& lines@.len() == 5
                    &&& forall|y: int| 0 <= y < 5 ==> #[trigger] row_ok(lines@[y]@)
                    &&& valid(s@)
                    &&& forall|y: int, x: int|
                        0 <= y < 5 && 0 <= x < 4 ==> glyph_block(widen(lines@[y]@)[x]) == Some(
                            #[trigger] s@[y][x],
                        )
                },
                Err(ParseError::LineCount(n)) => n == lines@.len() && n != 5,
                Err(ParseError::LineWidth(y)) => {
                    &&& lines@.len() == 5
                    &&& y < 5
                    &&& widen(lines@[y as int]@).len() != 4
                    &&& forall|j: int| 0 <= j < y ==> #[trigger] row_ok(lines@[j]@)
                },
                Err(ParseError::Glyph(y, c)) => {
                    &&& lines@.len() == 5
                    &&& y < 5
                    &&& widen(lines@[y as int]@).len() == 4
                    &&& glyph_block(c) is None
                    &&& exists|x: int|
                        0 <= x < 4 && widen(lines@[y as int]@)[x] == c && forall|xx: int|
                            0 <= xx < x ==> #[trigger] glyph_block(widen(lines@[y as int]@)[xx]) is Some
                    &&& forall|j: int| 0 <= j < y ==> #[trigger] row_ok(lines@[j]@)
                },
            },
    {
        if lines.len() != 5 {
            return Err(ParseError::LineCount(lines.len()));
        }
        let mut st = State { state: [[Block::B0; 4]; 5] };
        let mut y: usize = 0;
        while y < 5
            invariant
                y <= 5,
                lines@.len() == 5,
                forall|j: int| 0 <= j < y ==> #[trigger] row_ok(lines@[j]@),
                forall|j: int, x: int|
                    0 <= j < y && 0 <= x < 4 ==> glyph_block(widen(lines@[j]@)[x]) == Some(
                        #[trigger] st@[j][x],
                    ) && valid_block(st@[j][x]),
            decreases 5 - y,
        {
            let w = widen_line(&lines[y]);
            if w.len() != 4 {
                return Err(ParseError::LineWidth(y));
            }
            let mut row = [Block::B0; 4];
            let mut x: usize = 0;
            while x < 4
                invariant
                    x <= 4,
                    y < 5,
                    lines@.len() == 5,
                    w@ == widen(lines@[y as int]@),
                    w@.len() == 4,
                    forall|j: int| 0 <= j < y ==> #[trigger] row_ok(lines@[j]@),
                    forall|j: int, x: int|
                        0 <= j < y && 0 <= x < 4 ==> glyph_block(widen(lines@[j]@)[x]) == Some(
                            #[trigger] st@[j][x],
                        ) && valid_block(st@[j][x]),
                    forall|xx: int| 0 <= xx < x ==> #[trigger] glyph_block(w@[xx]) is Some,
                    forall|xx: int|
                        0 <= xx < x ==> glyph_block(w@[xx]) == Some(#[trigger] row@[xx])
                            && valid_block(row@[xx]),
                decreases 4 - x,
            {
                match Block::from_glyph(w[x]) {
                    Some(b) => {
                        row[x] = b;
                    },
                    None => {
                        proof {
                            let wl = widen(lines@[y as int]@);
                            assert(w@ == wl);
                            assert(forall|xx: int| 0 <= xx < x ==> #[trigger] glyph_block(wl[xx]) is Some);
                            assert(wl[x as int] == w@[x as int]);
                            let xi = x as int;
                            assert(0 <= xi < 4 && wl[xi] == w@[xi] && forall|xx: int|
                                0 <= xx < xi ==> #[trigger] glyph_block(wl[xx]) is Some);
                        }
                        return Err(ParseError::Glyph(y, w[x]));
                    },
                }
                x += 1;
            }
            let ghost prev = st;
            st.state[y] = row;
            proof {
                let wl = widen(lines@[y as int]@);
                assert(w@ == wl);
                assert(row_ok(lines@[y as int]@));
                assert(st@[y as int] == row@);
                assert forall|j: int, x: int| 0 <= j <= y && 0 <= x < 4 implies glyph_block(
                    widen(lines@[j]@)[x],
                ) == Some(#[trigger] st@[j][x]) && valid_block(st@[j][x]) by {
                    if j < y {
                        assert(st@[j] == prev@[j]);
                    }
                }
            }
            y += 1;
        }
        Ok(st)
    }
}

} // verus!
