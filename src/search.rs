use vstd::prelude::*;
use std::collections::HashMap;
use crate::state::{
    at, blank_slot, blanks_in, key_of, lemma_key_injective, lemma_key_range, lemma_view_shaped, moved, rect_of,
    shaped, strip_clear, target_at, valid, valid_block, Block, MoveOp, State,
};

verus! {

broadcast use vstd::std_specs::hash::group_hash_axioms;

/// The board is solved: the target piece's top-left corner lies at `(ty, tx)`.
pub open spec fn goal(b: Seq<Seq<Block>>, ty: int, tx: int) -> bool {
    at(b, ty, tx) == Some(Block::B4) && match rect_of(b, ty, tx) {
        Some(r) => r.0 == ty && r.1 == tx,
        None => false,
    }
}

/// `b` comes from `a` by sliding the piece that covers `(y, x)` one step
/// toward `op`.
pub open spec fn slide_of(a: Seq<Seq<Block>>, b: Seq<Seq<Block>>, y: int, x: int, op: MoveOp) -> bool {
    &&& 0 <= y < 5
    &&& 0 <= x < 4
    &&& a[y][x] != Block::B0
    &&& match rect_of(a, y, x) {
        Some(r) => strip_clear(a, r.0, r.1, r.2, r.3, op) && b == moved(a, r.0, r.1, r.2, r.3, op),
        None => false,
    }
}

/// `b` comes from `a` by one legal slide of one piece.
pub open spec fn slide(a: Seq<Seq<Block>>, b: Seq<Seq<Block>>) -> bool {
    exists|y: int, x: int, op: MoveOp| #[trigger] slide_of(a, b, y, x, op)
}

/// The neighbour of the blank at `(y0, x0)` looked at in turn `d`, and the
/// direction that slides it into the blank: above, below, left, right.
pub open spec fn sibling(y0: int, x0: int, d: int) -> (int, int, MoveOp) {
    if d == 0 {
        (y0 - 1, x0, MoveOp::D)
    } else if d == 1 {
        (y0 + 1, x0, MoveOp::U)
    } else if d == 2 {
        (y0, x0 - 1, MoveOp::R)
    } else {
        (y0, x0 + 1, MoveOp::L)
    }
}

/// The board reached by sliding the neighbour in turn `d` of the blank at
/// `(y0, x0)` into that blank, if it is a piece that can slide so.
#[verifier::opaque]
pub open spec fn try_at(b: Seq<Seq<Block>>, y0: int, x0: int, d: int) -> Option<Seq<Seq<Block>>> {
    let (sy, sx, op) = sibling(y0, x0, d);
    match at(b, sy, sx) {
        Some(c) => {
            if c == Block::B0 {
                None
            } else {
                match rect_of(b, sy, sx) {
                    Some(r) => {
                        if strip_clear(b, r.0, r.1, r.2, r.3, op) {
                            Some(moved(b, r.0, r.1, r.2, r.3, op))
                        } else {
                            None
                        }
                    },
                    None => None,
                }
            }
        },
        None => None,
    }
}

/// The board that the search tries from `b` in turn `d` at blank slot `j`.
pub open spec fn tried(b: Seq<Seq<Block>>, j: int, d: int) -> Option<Seq<Seq<Block>>> {
    try_at(b, blank_slot(b, j).0, blank_slot(b, j).1, d)
}

/// `b` is one of the boards that the search tries from `a`.
pub open spec fn step(a: Seq<Seq<Block>>, b: Seq<Seq<Block>>) -> bool {
    exists|j: int, d: int| 0 <= j < 2 && 0 <= d < 4 && #[trigger] tried(a, j, d) == Some(b)
}

/// Every board that the search tries from `a` comes from `a` by a legal
/// slide.
pub proof fn lemma_step_is_slide(a: Seq<Seq<Block>>, b: Seq<Seq<Block>>)
    requires
        step(a, b),
    ensures
        slide(a, b),
{
    reveal(try_at);
    let (j, d) = choose|j: int, d: int| 0 <= j < 2 && 0 <= d < 4 && #[trigger] tried(a, j, d) == Some(b);
    let (y0, x0) = blank_slot(a, j);
    let (sy, sx, op) = sibling(y0, x0, d);
    assert(slide_of(a, b, sy, sx, op));
}

/// Each piece is a rectangle found the same from every one of its cells,
/// none of which is blank.
pub open spec fn well_shaped(b: Seq<Seq<Block>>) -> bool {
    forall|y: int, x: int|
        0 <= y < 5 && 0 <= x < 4 && #[trigger] b[y][x] != Block::B0 ==> match rect_of(b, y, x) {
            Some(r) => forall|yy: int, xx: int|
                r.0 <= yy <= r.2 && r.1 <= xx <= r.3 ==> #[trigger] b[yy][xx] != Block::B0 && rect_of(
                    b,
                    yy,
                    xx,
                ) == Some(r),
            None => false,
        }
}

/// The slot under which a blank cell is reported, on a board with at most
/// two blanks.
proof fn lemma_blank_slot_of(b: Seq<Seq<Block>>, y: int, x: int) -> (j: int)
    requires
        0 <= y < 5,
        0 <= x < 4,
        b[y][x] == Block::B0,
        blanks_in(b, 20).len() <= 2,
    ensures
        0 <= j < 2,
        blank_slot(b, j) == (y, x),
{
    reveal(blank_slot);
    crate::state::lemma_blank_listed(b, 20, y, x);
    let j = choose|j: int| 0 <= j < blanks_in(b, 20).len() && blanks_in(b, 20)[j] == (y, x);
    j
}

/// On a board with at most two blanks whose pieces are well shaped, every
/// legal slide is one that the search tries.
pub proof fn lemma_slide_is_step(a: Seq<Seq<Block>>, b: Seq<Seq<Block>>)
    requires
        shaped(a),
        blanks_in(a, 20).len() <= 2,
        well_shaped(a),
        slide(a, b),
    ensures
        step(a, b),
{
    reveal(try_at);
    let (y, x, op) = choose|y: int, x: int, op: MoveOp| #[trigger] slide_of(a, b, y, x, op);
    let r = rect_of(a, y, x)->0;
    assert(a[y][x] != Block::B0);
    lemma_rect_in_grid(a, y, x);
    match op {
        MoveOp::U => {
            assert(at(a, r.0 - 1, r.1) == Some(Block::B0));
            let j = lemma_blank_slot_of(a, r.0 - 1, r.1);
            assert(a[r.0][r.1] != Block::B0 && rect_of(a, r.0, r.1) == rect_of(a, y, x));
            assert(sibling(r.0 - 1, r.1, 1) == (r.0, r.1, MoveOp::U));
            assert(tried(a, j, 1) == Some(b));
        },
        MoveOp::D => {
            assert(at(a, r.2 + 1, r.1) == Some(Block::B0));
            let j = lemma_blank_slot_of(a, r.2 + 1, r.1);
            assert(a[r.2][r.1] != Block::B0 && rect_of(a, r.2, r.1) == rect_of(a, y, x));
            assert(sibling(r.2 + 1, r.1, 0) == (r.2, r.1, MoveOp::D));
            assert(tried(a, j, 0) == Some(b));
        },
        MoveOp::L => {
            assert(at(a, r.0, r.1 - 1) == Some(Block::B0));
            let j = lemma_blank_slot_of(a, r.0, r.1 - 1);
            assert(a[r.0][r.1] != Block::B0 && rect_of(a, r.0, r.1) == rect_of(a, y, x));
            assert(sibling(r.0, r.1 - 1, 3) == (r.0, r.1, MoveOp::L));
            assert(tried(a, j, 3) == Some(b));
        },
        MoveOp::R => {
            assert(at(a, r.0, r.3 + 1) == Some(Block::B0));
            let j = lemma_blank_slot_of(a, r.0, r.3 + 1);
            assert(a[r.0][r.3] != Block::B0 && rect_of(a, r.0, r.3) == rect_of(a, y, x));
            assert(sibling(r.0, r.3 + 1, 2) == (r.0, r.3, MoveOp::R));
            assert(tried(a, j, 2) == Some(b));
        },
    }
}

/// A sequence of boards from `s` in which each board is tried from the one
/// before.
pub open spec fn is_walk(w: Seq<Seq<Seq<Block>>>, s: Seq<Seq<Block>>) -> bool {
    &&& w.len() >= 1
    &&& w[0] == s
    &&& forall|i: int| 0 <= i < w.len() - 1 ==> step(#[trigger] w[i], w[i + 1])
}

/// A solution: it starts at `s`, each board is tried from the one before,
/// and the last board is solved.
#[verifier::opaque]
pub open spec fn is_solution(p: Seq<State>, s: Seq<Seq<Block>>, ty: int, tx: int) -> bool {
    &&& p.len() >= 1
    &&& p[0]@ == s
    &&& goal(p.last()@, ty, tx)
    &&& forall|i: int| 0 <= i < p.len() - 1 ==> step(#[trigger] p[i]@, p[i + 1]@)
}

/// The key under which a board is kept in the predecessor map.
pub open spec fn key64(b: Seq<Seq<Block>>) -> u64 {
    key_of(b) as u64
}

/// Every entry of the predecessor map holds the board of its key and a
/// predecessor one level closer to the start, itself in the map; the start
/// alone sits at level 0.
#[verifier::opaque]
pub open spec fn linked(
    m: Map<u64, (State, State)>,
    depth: Map<u64, nat>,
    s: Seq<Seq<Block>>,
) -> bool {
    forall|k: u64|
        #[trigger] m.contains_key(k) ==> {
            &&& depth.contains_key(k)
            &&& key64(m[k].0@) == k
            &&& valid(m[k].0@)
            &&& (depth[k] == 0 ==> m[k].0@ == s)
            &&& (depth[k] > 0 ==> {
                let p = m[k].1@;
                &&& m.contains_key(key64(p))
                &&& m[key64(p)].0@ == p
                &&& depth[key64(p)] == depth[k] - 1
                &&& step(p, m[k].0@)
            })
        }
}

/// The board is in the map under its own key.
pub open spec fn recorded(m: Map<u64, (State, State)>, b: Seq<Seq<Block>>) -> bool {
    valid(b) && m.contains_key(key64(b)) && m[key64(b)].0@ == b
}

proof fn lemma_linked_insert(
    m: Map<u64, (State, State)>,
    depth: Map<u64, nat>,
    s: Seq<Seq<Block>>,
    next: State,
    prev: State,
)
    requires
        linked(m, depth, s),
        !m.contains_key(key64(next@)),
        valid(next@),
        key_of(next@) == key64(next@),
        recorded(m, prev@),
        step(prev@, next@),
    ensures
        linked(
            m.insert(key64(next@), (next, prev)),
            depth.insert(key64(next@), depth[key64(prev@)] + 1),
            s,
        ),
        recorded(m.insert(key64(next@), (next, prev)), next@),
        forall|b: Seq<Seq<Block>>|
            #[trigger] recorded(m, b) ==> recorded(m.insert(key64(next@), (next, prev)), b),
{
    reveal(linked);
    let k = key64(next@);
    let m2 = m.insert(k, (next, prev));
    let d2 = depth.insert(k, depth[key64(prev@)] + 1);
    assert forall|kk: u64| #[trigger] m2.contains_key(kk) implies {
        &&& d2.contains_key(kk)
        &&& key64(m2[kk].0@) == kk
        &&& valid(m2[kk].0@)
        &&& (d2[kk] == 0 ==> m2[kk].0@ == s)
        &&& (d2[kk] > 0 ==> {
            let p = m2[kk].1@;
            &&& m2.contains_key(key64(p))
            &&& m2[key64(p)].0@ == p
            &&& d2[key64(p)] == d2[kk] - 1
            &&& step(p, m2[kk].0@)
        })
    } by {
        if kk != k {
            assert(m.contains_key(kk));
        }
    }
}

/// Every board tried from `b` is in the map.
pub open spec fn closed(m: Map<u64, (State, State)>, b: Seq<Seq<Block>>) -> bool {
    forall|j: int, d: int|
        0 <= j < 2 && 0 <= d < 4 && (#[trigger] tried(b, j, d)) is Some ==> recorded(
            m,
            tried(b, j, d)->0,
        )
}

/// A board whose key is in the map is the board kept under that key.
proof fn lemma_present_recorded(
    m: Map<u64, (State, State)>,
    depth: Map<u64, nat>,
    s: Seq<Seq<Block>>,
    x: State,
)
    requires
        linked(m, depth, s),
        valid(x@),
        key_of(x@) == key64(x@),
        m.contains_key(key64(x@)),
    ensures
        recorded(m, x@),
{
    reveal(linked);
    let k = key64(x@);
    let y = m[k].0;
    lemma_view_shaped(x);
    lemma_view_shaped(y);
    lemma_key_range(y@);
    lemma_key_injective(x@, y@);
}

proof fn lemma_closed_insert(
    m: Map<u64, (State, State)>,
    k: u64,
    v: (State, State),
    b: Seq<Seq<Block>>,
)
    requires
        !m.contains_key(k),
        closed(m, b),
    ensures
        closed(m.insert(k, v), b),
{
    assert forall|j: int, d: int|
        0 <= j < 2 && 0 <= d < 4 && (#[trigger] tried(b, j, d)) is Some implies recorded(
            m.insert(k, v),
            tried(b, j, d)->0,
        ) by {
        let t = tried(b, j, d)->0;
        assert(recorded(m, t));
        assert(key64(t) != k);
    }
}

/// Where every board in the map is unsolved and has all boards tried from
/// it in the map, no walk from a board in the map reaches a solved board.
proof fn lemma_walk_unsolved(
    m: Map<u64, (State, State)>,
    w: Seq<Seq<Seq<Block>>>,
    s: Seq<Seq<Block>>,
    ty: int,
    tx: int,
    n: int,
)
    requires
        is_walk(w, s),
        recorded(m, s),
        forall|k: u64| #[trigger] m.contains_key(k) ==> closed(m, m[k].0@),
        forall|k: u64| #[trigger] m.contains_key(k) ==> !goal(m[k].0@, ty, tx),
        0 <= n < w.len(),
    ensures
        recorded(m, w[n]),
        !goal(w[n], ty, tx),
    decreases n,
{
    if n > 0 {
        lemma_walk_unsolved(m, w, s, ty, tx, n - 1);
        let a = w[n - 1];
        assert(step(a, w[n]));
        let (j, d) = choose|j: int, d: int| 0 <= j < 2 && 0 <= d < 4 && #[trigger] tried(a, j, d) == Some(w[n]);
        assert(m.contains_key(key64(a)));
        assert(closed(m, a));
    }
    assert(m.contains_key(key64(w[n])));
}

/// `b` is reached from `s` by at most `n` tried slides.
pub open spec fn within(s: Seq<Seq<Block>>, b: Seq<Seq<Block>>, n: nat) -> bool {
    exists|w: Seq<Seq<Seq<Block>>>| #[trigger] is_walk(w, s) && w.last() == b && w.len() <= n + 1
}

/// A walk that ends at `b` shows that `b` is reached within its number of
/// slides, or any larger number.
proof fn lemma_walk_within(w: Seq<Seq<Seq<Block>>>, s: Seq<Seq<Block>>, n: nat)
    requires
        is_walk(w, s),
        w.len() <= n + 1,
    ensures
        within(s, w.last(), n),
{
}

/// Every board reached within `d` tried slides is in the map at a level of
/// at most `d`.
#[verifier::opaque]
pub open spec fn covers(m: Map<u64, (State, State)>, depth: Map<u64, nat>, s: Seq<Seq<Block>>, d: nat) -> bool {
    forall|b: Seq<Seq<Block>>|
        #[trigger] within(s, b, d) ==> recorded(m, b) && depth[key64(b)] <= d
}

/// The bookkeeping of wave `d`: the boards of this wave sit at level `d` in
/// `v` (those from `i` on still to expand, each at the position `pos` gives
/// for its key), those of the next wave at level `d + 1` in `next` (at the
/// position `npos` gives); every other board of the map has all boards
/// tried from it in the map; and no board in the map is solved.
#[verifier::opaque]
pub open spec fn wave(
    m: Map<u64, (State, State)>,
    depth: Map<u64, nat>,
    pos: Map<u64, int>,
    v: Seq<State>,
    i: int,
    npos: Map<u64, int>,
    next: Seq<State>,
    d: nat,
    ty: int,
    tx: int,
) -> bool {
    &&& 0 <= i <= v.len()
    &&& forall|j: int|
        0 <= j < v.len() ==> recorded(m, #[trigger] v[j]@) && depth[key64(v[j]@)] == d
    &&& forall|j: int|
        0 <= j < next.len() ==> recorded(m, #[trigger] next[j]@) && depth[key64(next[j]@)] == d + 1
    &&& forall|k: u64|
        #[trigger] m.contains_key(k) ==> {
            &&& !goal(m[k].0@, ty, tx)
            &&& depth[k] <= d + 1
            &&& {
                ||| closed(m, m[k].0@)
                ||| (depth[k] == d && pos.contains_key(k) && i <= pos[k] < v.len() && key64(
                    v[pos[k]]@,
                ) == k)
                ||| (depth[k] == d + 1 && npos.contains_key(k) && 0 <= npos[k] < next.len()
                    && key64(next[npos[k]]@) == k)
            }
        }
}

proof fn lemma_wave_start(m: Map<u64, (State, State)>, depth: Map<u64, nat>, s: State, ty: int, tx: int)
    requires
        recorded(m, s@),
        m.dom() == Set::<u64>::empty().insert(key64(s@)),
        depth == Map::<u64, nat>::empty().insert(key64(s@), 0),
        !goal(s@, ty, tx),
    ensures
        wave(
            m,
            depth,
            Map::<u64, int>::empty().insert(key64(s@), 0),
            seq![s],
            0,
            Map::empty(),
            Seq::empty(),
            0,
            ty,
            tx,
        ),
        covers(m, depth, s@, 0),
{
    reveal(wave);
    reveal(covers);
    assert forall|k: u64| #[trigger] m.contains_key(k) implies k == key64(s@) by {
        assert(m.dom().contains(k));
    }
}

proof fn lemma_wave_add(
    m: Map<u64, (State, State)>,
    depth: Map<u64, nat>,
    pos: Map<u64, int>,
    v: Seq<State>,
    i: int,
    npos: Map<u64, int>,
    next: Seq<State>,
    d: nat,
    ty: int,
    tx: int,
    s: Seq<Seq<Block>>,
    x: State,
    st: State,
)
    requires
        wave(m, depth, pos, v, i, npos, next, d, ty, tx),
        covers(m, depth, s, d),
        !m.contains_key(key64(x@)),
        !goal(x@, ty, tx),
        depth[key64(st@)] == d,
        forall|b: Seq<Seq<Block>>|
            #[trigger] recorded(m, b) ==> recorded(m.insert(key64(x@), (x, st)), b),
        recorded(m.insert(key64(x@), (x, st)), x@),
    ensures
        wave(
            m.insert(key64(x@), (x, st)),
            depth.insert(key64(x@), depth[key64(st@)] + 1),
            pos,
            v,
            i,
            npos.insert(key64(x@), next.len() as int),
            next.push(x),
            d,
            ty,
            tx,
        ),
        covers(m.insert(key64(x@), (x, st)), depth.insert(key64(x@), depth[key64(st@)] + 1), s, d),
{
    reveal(wave);
    reveal(covers);
    let k = key64(x@);
    let m2 = m.insert(k, (x, st));
    let d2 = depth.insert(k, depth[key64(st@)] + 1);
    let np2 = npos.insert(k, next.len() as int);
    let n2 = next.push(x);
    assert forall|j: int| 0 <= j < v.len() implies recorded(m2, #[trigger] v[j]@) && d2[key64(
        v[j]@,
    )] == d by {
        assert(recorded(m, v[j]@));
    }
    assert forall|j: int| 0 <= j < n2.len() implies recorded(m2, #[trigger] n2[j]@) && d2[key64(
        n2[j]@,
    )] == d + 1 by {
        if j < next.len() {
            assert(n2[j] == next[j]);
            assert(recorded(m, next[j]@));
        }
    }
    assert forall|kk: u64| #[trigger] m2.contains_key(kk) implies {
        &&& !goal(m2[kk].0@, ty, tx)
        &&& d2[kk] <= d + 1
        &&& {
            ||| closed(m2, m2[kk].0@)
            ||| (d2[kk] == d && pos.contains_key(kk) && i <= pos[kk] < v.len() && key64(
                v[pos[kk]]@,
            ) == kk)
            ||| (d2[kk] == d + 1 && np2.contains_key(kk) && 0 <= np2[kk] < n2.len() && key64(
                n2[np2[kk]]@,
            ) == kk)
        }
    } by {
        if kk != k {
            assert(m.contains_key(kk));
            if closed(m, m[kk].0@) {
                lemma_closed_insert(m, k, (x, st), m[kk].0@);
            } else if d2[kk] == d + 1 {
                assert(n2[np2[kk]] == next[npos[kk]]);
            }
        }
    }
    assert forall|b: Seq<Seq<Block>>| #[trigger] within(s, b, d) implies recorded(m2, b) && d2[key64(
        b,
    )] <= d by {
        assert(recorded(m, b));
    }
}

proof fn lemma_wave_done(
    m: Map<u64, (State, State)>,
    depth: Map<u64, nat>,
    pos: Map<u64, int>,
    v: Seq<State>,
    i: int,
    npos: Map<u64, int>,
    next: Seq<State>,
    d: nat,
    ty: int,
    tx: int,
)
    requires
        wave(m, depth, pos, v, i, npos, next, d, ty, tx),
        i < v.len(),
        closed(m, v[i]@),
    ensures
        wave(m, depth, pos, v, i + 1, npos, next, d, ty, tx),
{
    reveal(wave);
    assert(recorded(m, v[i]@));
    assert forall|k: u64| #[trigger] m.contains_key(k) && depth[k] == d && pos.contains_key(k)
        && pos[k] == i && key64(v[pos[k]]@) == k implies closed(m, m[k].0@) by {}
}

proof fn lemma_wave_next(
    m: Map<u64, (State, State)>,
    depth: Map<u64, nat>,
    pos: Map<u64, int>,
    v: Seq<State>,
    npos: Map<u64, int>,
    next: Seq<State>,
    d: nat,
    ty: int,
    tx: int,
    s: Seq<Seq<Block>>,
)
    requires
        wave(m, depth, pos, v, v.len() as int, npos, next, d, ty, tx),
        covers(m, depth, s, d),
        forall|k: u64| #[trigger] m.contains_key(k) ==> depth.contains_key(k),
    ensures
        wave(m, depth, npos, next, 0, Map::empty(), Seq::empty(), d + 1, ty, tx),
        covers(m, depth, s, d + 1),
        forall|j: int| 0 <= j < next.len() ==> recorded(m, #[trigger] next[j]@),
{
    reveal(wave);
    reveal(covers);
    assert forall|b: Seq<Seq<Block>>| #[trigger] within(s, b, d + 1) implies recorded(m, b)
        && depth[key64(b)] <= d + 1 by {
        let u = choose|u: Seq<Seq<Seq<Block>>>| #[trigger] is_walk(u, s) && u.last() == b && u.len() <= d + 2;
        if u.len() <= d + 1 {
            lemma_walk_within(u, s, d);
        } else {
            let u1 = u.drop_last();
            assert forall|k: int| 0 <= k < u1.len() - 1 implies step(#[trigger] u1[k], u1[k + 1]) by {
                assert(step(u[k], u[k + 1]));
            }
            assert(is_walk(u1, s));
            lemma_walk_within(u1, s, d);
            let a = u1.last();
            assert(step(u[u.len() - 2], u[u.len() - 1]));
            assert(a == u[u.len() - 2]);
            assert(recorded(m, a));
            assert(m.contains_key(key64(a)));
            assert(closed(m, a));
            let (j, dd) = choose|j: int, dd: int| 0 <= j < 2 && 0 <= dd < 4 && #[trigger] tried(a, j, dd) == Some(b);
            assert(recorded(m, b));
            assert(m.contains_key(key64(b)));
        }
    }
}

proof fn lemma_wave_recorded(
    m: Map<u64, (State, State)>,
    depth: Map<u64, nat>,
    pos: Map<u64, int>,
    v: Seq<State>,
    i: int,
    npos: Map<u64, int>,
    next: Seq<State>,
    d: nat,
    ty: int,
    tx: int,
)
    requires
        wave(m, depth, pos, v, i, npos, next, d, ty, tx),
    ensures
        forall|j: int| 0 <= j < v.len() ==> recorded(m, #[trigger] v[j]@) && depth[key64(v[j]@)] == d,
        forall|b: Seq<Seq<Block>>| #[trigger] recorded(m, b) ==> !goal(b, ty, tx),
{
    reveal(wave);
    assert forall|b: Seq<Seq<Block>>| #[trigger] recorded(m, b) implies !goal(b, ty, tx) by {
        assert(m.contains_key(key64(b)));
    }
}

/// No walk from `s` of at most `d + 1` boards ends solved.
proof fn lemma_no_shorter(
    m: Map<u64, (State, State)>,
    depth: Map<u64, nat>,
    pos: Map<u64, int>,
    v: Seq<State>,
    i: int,
    npos: Map<u64, int>,
    next: Seq<State>,
    d: nat,
    ty: int,
    tx: int,
    s: Seq<Seq<Block>>,
)
    requires
        wave(m, depth, pos, v, i, npos, next, d, ty, tx),
        covers(m, depth, s, d),
    ensures
        forall|w: Seq<Seq<Seq<Block>>>|
            is_walk(w, s) && goal(#[trigger] w.last(), ty, tx) ==> w.len() >= d + 2,
{
    lemma_wave_recorded(m, depth, pos, v, i, npos, next, d, ty, tx);
    reveal(covers);
    assert forall|w: Seq<Seq<Seq<Block>>>| is_walk(w, s) && goal(#[trigger] w.last(), ty, tx) implies w.len()
        >= d + 2 by {
        if w.len() < d + 2 {
            lemma_walk_within(w, s, d);
            assert(recorded(m, w.last()));
        }
    }
}

/// Once both waves are empty, no walk from the start is solved.
proof fn lemma_exhausted(
    m: Map<u64, (State, State)>,
    depth: Map<u64, nat>,
    pos: Map<u64, int>,
    d: nat,
    s: Seq<Seq<Block>>,
    ty: int,
    tx: int,
)
    requires
        wave(m, depth, pos, Seq::empty(), 0, Map::empty(), Seq::empty(), d, ty, tx),
        recorded(m, s),
    ensures
        forall|w: Seq<Seq<Seq<Block>>>| is_walk(w, s) ==> !goal(#[trigger] w.last(), ty, tx),
{
    reveal(wave);
    assert forall|w: Seq<Seq<Seq<Block>>>| is_walk(w, s) implies !goal(#[trigger] w.last(), ty, tx) by {
        lemma_walk_unsolved(m, w, s, ty, tx, w.len() - 1);
    }
}

/// A board that is not solved and from which no tried slide succeeds has no
/// solution, so the search on it ends without a path.
pub proof fn lemma_stuck_has_no_solution(p: Seq<State>, s: Seq<Seq<Block>>, ty: int, tx: int)
    requires
        !goal(s, ty, tx),
        forall|j: int, d: int| 0 <= j < 2 && 0 <= d < 4 ==> (#[trigger] tried(s, j, d)) is None,
    ensures
        !is_solution(p, s, ty, tx),
{
    reveal(is_solution);
    if is_solution(p, s, ty, tx) {
        if p.len() > 1 {
            assert(step(p[0]@, p[1]@));
        }
    }
}

/// A shortest solution visits no board twice and has no solved board before
/// its last.
pub proof fn lemma_shortest_solution(p: Seq<State>, s: Seq<Seq<Block>>, ty: int, tx: int)
    requires
        is_solution(p, s, ty, tx),
        forall|w: Seq<Seq<Seq<Block>>>|
            is_walk(w, s) && goal(#[trigger] w.last(), ty, tx) ==> p.len() <= w.len(),
    ensures
        forall|i: int| 0 <= i < p.len() - 1 ==> !goal(#[trigger] p[i]@, ty, tx),
        forall|i: int, j: int| 0 <= i < j < p.len() ==> #[trigger] p[i]@ != #[trigger] p[j]@,
{
    reveal(is_solution);
    let w = p.map_values(|x: State| x@);
    assert forall|i: int| 0 <= i < p.len() - 1 implies !goal(#[trigger] p[i]@, ty, tx) by {
        if goal(p[i]@, ty, tx) {
            let u = w.take(i + 1);
            assert forall|k: int| 0 <= k < u.len() - 1 implies step(#[trigger] u[k], u[k + 1]) by {
                assert(step(p[k]@, p[k + 1]@));
            }
            assert(is_walk(u, s));
            assert(u.last() == p[i]@);
        }
    }
    assert forall|i: int, j: int| 0 <= i < j < p.len() implies #[trigger] p[i]@ != #[trigger] p[j]@ by {
        if p[i]@ == p[j]@ {
            let u = w.take(i + 1) + w.skip(j + 1);
            assert forall|k: int| 0 <= k < u.len() - 1 implies step(#[trigger] u[k], u[k + 1]) by {
                if k < i {
                    assert(step(p[k]@, p[k + 1]@));
                } else if k == i {
                    assert(u[k] == p[j]@);
                    assert(u[k + 1] == p[j + 1]@);
                    assert(step(p[j]@, p[j + 1]@));
                } else {
                    let q = k - i + j;
                    assert(u[k] == p[q]@);
                    assert(u[k + 1] == p[q + 1]@);
                    assert(step(p[q]@, p[q + 1]@));
                }
            }
            assert(is_walk(u, s));
            if j == p.len() - 1 {
                assert(u.last() == p[i]@);
            } else {
                assert(u.last() == p.last()@);
            }
        }
    }
}

proof fn lemma_rect_in_grid(b: Seq<Seq<Block>>, y: int, x: int)
    requires
        0 <= y < 5,
        0 <= x < 4,
        rect_of(b, y, x) is Some,
    ensures
        ({
            let r = rect_of(b, y, x)->0;
            0 <= r.0 <= r.2 < 5 && 0 <= r.1 <= r.3 < 4 && r.0 <= y <= r.2 && r.1 <= x <= r.3
        }),
{
}

proof fn lemma_moved_valid(b: Seq<Seq<Block>>, y1: int, x1: int, y2: int, x2: int, op: MoveOp)
    requires
        valid(b),
        0 <= y1 <= y2 < 5,
        0 <= x1 <= x2 < 4,
    ensures
        valid(moved(b, y1, x1, y2, x2, op)),
{
    let m = moved(b, y1, x1, y2, x2, op);
    assert forall|y: int, x: int| 0 <= y < 5 && 0 <= x < 4 implies valid_block(#[trigger] m[y][x]) by {
        match op {
            MoveOp::U => {
                if x1 <= x <= x2 && y1 - 1 <= y <= y2 - 1 {
                    assert(valid_block(b[y + 1][x]));
                }
            },
            MoveOp::D => {
                if x1 <= x <= x2 && y1 + 1 <= y <= y2 + 1 {
                    assert(valid_block(b[y - 1][x]));
                }
            },
            MoveOp::L => {
                if y1 <= y <= y2 && x1 - 1 <= x <= x2 - 1 {
                    assert(valid_block(b[y][x + 1]));
                }
            },
            MoveOp::R => {
                if y1 <= y <= y2 && x1 + 1 <= x <= x2 + 1 {
                    assert(valid_block(b[y][x - 1]));
                }
            },
        }
    }
}

/// A board whose target piece covers exactly the square with top-left cell
/// `(a, c)` is solved for the target cell `(ty, tx)` exactly when that cell
/// is `(a, c)`.
pub proof fn lemma_goal_iff_corner(b: Seq<Seq<Block>>, a: int, c: int, ty: int, tx: int)
    requires
        shaped(b),
        target_at(b, a, c),
    ensures
        goal(b, ty, tx) <==> (ty == a && tx == c),
{
    crate::state::lemma_target_rect_consistent(b, a, c);
    if at(b, ty, tx) == Some(Block::B4) {
        assert(b[ty][tx] == Block::B4);
    }
}

/// Whether the board is solved for the target cell `(ty, tx)`.
pub fn is_target(state: &State, ty: usize, tx: usize) -> (r: bool)
    ensures
        r == goal(state@, ty as int, tx as int),
{
    match state.get_block(ty, tx) {
        Some(Block::B4) => match state.rect_at(ty, tx) {
            Some(r) => r[0].0 == ty && r[0].1 == tx,
            None => false,
        },
        _ => false,
    }
}


/// The board reached by sliding the piece next to the blank at `(y0, x0)`
/// into it: the piece above it for `d == 0`, below for 1, to the left for 2
/// and to the right for 3. `None` where there is no such piece, its
/// footprint cannot be found, or it cannot slide.
fn candidate(st: &State, y0: usize, x0: usize, d: usize) -> (r: Option<State>)
    requires
        valid(st@),
        y0 < 5,
        x0 < 4,
    ensures
        match r {
            Some(t) => valid(t@) && slide(st@, t@) && try_at(st@, y0 as int, x0 as int, d as int)
                == Some(t@),
            None => try_at(st@, y0 as int, x0 as int, d as int) is None,
        },
{
    reveal(try_at);
    let (sy, sx, op) = if d == 0 {
        if y0 == 0 {
            return None;
        }
        (y0 - 1, x0, MoveOp::D)
    } else if d == 1 {
        (y0 + 1, x0, MoveOp::U)
    } else if d == 2 {
        if x0 == 0 {
            return None;
        }
        (y0, x0 - 1, MoveOp::R)
    } else {
        (y0, x0 + 1, MoveOp::L)
    };
    match st.get_block(sy, sx) {
        Some(Block::B0) => None,
        None => None,
        Some(_) => match st.rect_at(sy, sx) {
            Some(rect) => {
                proof {
                    lemma_rect_in_grid(st@, sy as int, sx as int);
                }
                let r = st.move_block(rect[0].0, rect[0].1, rect[1].0, rect[1].1, op);
                proof {
                    if let Some(t) = r {
                        lemma_moved_valid(
                            st@,
                            rect[0].0 as int,
                            rect[0].1 as int,
                            rect[1].0 as int,
                            rect[1].1 as int,
                            op,
                        );
                        assert(slide_of(st@, t@, sy as int, sx as int, op));
                    }
                }
                r
            },
            None => None,
        },
    }
}

/// Walks the predecessor links from `last` back to the start and returns the
/// boards from the start to `last`.
proof fn lemma_solution_from_back(rev: Seq<State>, path: Seq<State>, s: Seq<Seq<Block>>, ty: int, tx: int)
    requires
        rev.len() >= 1,
        rev.last()@ == s,
        goal(rev[0]@, ty, tx),
        forall|i: int| 0 <= i < rev.len() - 1 ==> step(#[trigger] rev[i + 1]@, rev[i]@),
        path.len() == rev.len(),
        forall|j: int| 0 <= j < path.len() ==> #[trigger] path[j] == rev[rev.len() - 1 - j],
    ensures
        is_solution(path, s, ty, tx),
{
    reveal(is_solution);
    let n = rev.len();
    assert(path[0] == rev[n - 1]);
    assert(path[n - 1] == rev[0]);
    assert forall|j: int| 0 <= j < path.len() - 1 implies step(#[trigger] path[j]@, path[j + 1]@) by {
        assert(path[j] == rev[n - 1 - j]);
        assert(path[j + 1] == rev[n - 1 - (j + 1)]);
        assert(step(rev[(n - 2 - j) + 1]@, rev[n - 2 - j]@));
    }
}

/// The boards in the opposite order.
fn reversed(rev: &Vec<State>) -> (path: Vec<State>)
    ensures
        path@.len() == rev@.len(),
        forall|j: int| 0 <= j < path@.len() ==> #[trigger] path@[j] == rev@[rev@.len() - 1 - j],
{
    let mut path: Vec<State> = Vec::new();
    let mut i = rev.len();
    while i > 0
        invariant
            i <= rev@.len(),
            path@.len() == rev@.len() - i,
            forall|j: int| 0 <= j < path@.len() ==> #[trigger] path@[j] == rev@[rev@.len() - 1 - j],
        decreases i,
    {
        i -= 1;
        path.push(rev[i]);
    }
    path
}

fn trace_back(
    searched: &HashMap<u64, (State, State)>,
    depth: Ghost<Map<u64, nat>>,
    init: &State,
    last: State,
    ty: usize,
    tx: usize,
) -> (p: Vec<State>)
    requires
        linked(searched@, depth@, init@),
        recorded(searched@, init@),
        depth@[key64(init@)] == 0,
        recorded(searched@, last@),
        goal(last@, ty as int, tx as int),
    ensures
        is_solution(p@, init@, ty as int, tx as int),
        p@.len() == depth@[key64(last@)] + 1,
{
    reveal(linked);
    let mut rev: Vec<State> = vec![last];
    let mut cur = last;
    while !cur.same(init)
        invariant
            linked(searched@, depth@, init@),
            recorded(searched@, cur@),
            rev@.len() >= 1,
            rev@[0] == last,
            rev@.last() == cur,
            recorded(searched@, init@),
            depth@[key64(init@)] == 0,
            rev@.len() + depth@[key64(cur@)] == depth@[key64(last@)] + 1,
            forall|i: int| 0 <= i < rev@.len() - 1 ==> step(#[trigger] rev@[i + 1]@, rev@[i]@),
        decreases depth@[key64(cur@)],
    {
        proof {
            reveal(linked);
        }
        let k = cur.key();
        assert(searched@.contains_key(k));
        let ghost k_cur = k;
        match searched.get(&k) {
            Some(e) => {
                cur = e.1;
                assert(depth@[key64(cur@)] < depth@[k_cur]);
            },
            None => {
                assert(false);
            },
        }
        rev.push(cur);
    }
    assert(rev@.len() == depth@[key64(last@)] + 1);
    let path = reversed(&rev);
    proof {
        lemma_solution_from_back(rev@, path@, init@, ty as int, tx as int);
    }
    path
}

/// Records a board tried from `st`: a board not seen before goes into the
/// map and the next wave, and ends the search with the path to it when it
/// is solved.
fn visit(
    searched: &mut HashMap<u64, (State, State)>,
    next_searching: &mut Vec<State>,
    depth: Ghost<Map<u64, nat>>,
    pos: Ghost<Map<u64, int>>,
    npos: Ghost<Map<u64, int>>,
    searching: Ghost<Seq<State>>,
    i: Ghost<int>,
    level: Ghost<nat>,
    init_state: &State,
    st: State,
    next_state: State,
    ty: usize,
    tx: usize,
) -> (r: (Option<Vec<State>>, Ghost<Map<u64, nat>>, Ghost<Map<u64, int>>))
    requires
        valid(next_state@),
        step(st@, next_state@),
        recorded(old(searched)@, st@),
        depth@[key64(st@)] == level@,
        recorded(old(searched)@, init_state@),
        depth@[key64(init_state@)] == 0,
        linked(old(searched)@, depth@, init_state@),
        wave(old(searched)@, depth@, pos@, searching@, i@, npos@, old(next_searching)@, level@, ty as int, tx as int),
        covers(old(searched)@, depth@, init_state@, level@),
    ensures
        match r.0 {
            Some(p) => {
                &&& is_solution(p@, init_state@, ty as int, tx as int)
                &&& forall|w: Seq<Seq<Seq<Block>>>|
                    is_walk(w, init_state@) && goal(#[trigger] w.last(), ty as int, tx as int)
                        ==> p@.len() <= w.len()
                &&& forall|i: int|
                    0 <= i < p@.len() - 1 ==> !goal(#[trigger] p@[i]@, ty as int, tx as int)
                &&& forall|i: int, j: int| 0 <= i < j < p@.len() ==> #[trigger] p@[i]@ != #[trigger] p@[j]@
            },
            None => {
                &&& linked(final(searched)@, r.1@, init_state@)
                &&& wave(final(searched)@, r.1@, pos@, searching@, i@, r.2@, final(next_searching)@, level@, ty as int, tx as int)
                &&& covers(final(searched)@, r.1@, init_state@, level@)
                &&& recorded(final(searched)@, next_state@)
                &&& forall|b: Seq<Seq<Block>>|
                    #[trigger] recorded(old(searched)@, b) ==> recorded(final(searched)@, b)
                &&& forall|k: u64| #[trigger] old(searched)@.contains_key(k) ==> r.1@[k] == depth@[k]
                &&& final(searched)@.dom().len() + old(next_searching)@.len() == old(
                    searched,
                )@.dom().len() + final(next_searching)@.len()
            },
        },
{
    let k = next_state.key();
    assert(k == key64(next_state@));
    if searched.contains_key(&k) {
        proof {
            lemma_present_recorded(searched@, depth@, init_state@, next_state);
        }
        return (None, depth, npos);
    }
    let ghost m0 = searched@;
    let ghost n0 = next_searching@;
    searched.insert(k, (next_state, st));
    next_searching.push(next_state);
    proof {
        lemma_linked_insert(m0, depth@, init_state@, next_state, st);
    }
    let ghost d2 = depth@.insert(k, depth@[key64(st@)] + 1);
    if is_target(&next_state, ty, tx) {
        proof {
            assert(key64(init_state@) != k);
        }
        let path = trace_back(searched, Ghost(d2), init_state, next_state, ty, tx);
        proof {
            lemma_no_shorter(m0, depth@, pos@, searching@, i@, npos@, n0, level@, ty as int, tx as int, init_state@);
            lemma_shortest_solution(path@, init_state@, ty as int, tx as int);
        }
        return (Some(path), Ghost(d2), npos);
    }
    proof {
        lemma_wave_add(m0, depth@, pos@, searching@, i@, npos@, n0, level@, ty as int, tx as int, init_state@, next_state, st);
        assert(m0.dom().insert(k).len() == m0.dom().len() + 1);
    }
    (None, Ghost(d2), Ghost(npos@.insert(k, n0.len() as int)))
}

/// Breadth-first search, wave by wave, for a shortest sequence of slides that
/// brings the target piece's top-left corner to `(b4_target_y, b4_target_x)`.
/// Returns the boards from `state` to the first solved board found, which no
/// walk of tried slides from `state` to a solved board undercuts, or `None`
/// when no walk of tried slides from `state` reaches a solved board.
#[verifier::spinoff_prover]
pub fn search(state: &State, b4_target_y: usize, b4_target_x: usize) -> (r: Option<Vec<State>>)
    requires
        valid(state@),
    ensures
        goal(state@, b4_target_y as int, b4_target_x as int) ==> r is Some && r->0@ == seq![*state],
        match r {
            Some(p) => {
                &&& is_solution(p@, state@, b4_target_y as int, b4_target_x as int)
                &&& forall|w: Seq<Seq<Seq<Block>>>|
                    is_walk(w, state@) && goal(#[trigger] w.last(), b4_target_y as int, b4_target_x as int)
                        ==> p@.len() <= w.len()
                &&& forall|i: int|
                    0 <= i < p@.len() - 1 ==> !goal(#[trigger] p@[i]@, b4_target_y as int, b4_target_x as int)
                &&& forall|i: int, j: int| 0 <= i < j < p@.len() ==> #[trigger] p@[i]@ != #[trigger] p@[j]@
            },
            None => forall|w: Seq<Seq<Seq<Block>>>|
                is_walk(w, state@) ==> !goal(#[trigger] w.last(), b4_target_y as int, b4_target_x as int),
        },
{
    let ty = Ghost(b4_target_y as int);
    let tx = Ghost(b4_target_x as int);
    if is_target(state, b4_target_y, b4_target_x) {
        let path = vec![*state];
        proof {
            reveal(is_solution);
            assert forall|w: Seq<Seq<Seq<Block>>>|
                is_walk(w, state@) && goal(#[trigger] w.last(), ty@, tx@) implies path@.len() <= w.len() by {}
            lemma_shortest_solution(path@, state@, ty@, tx@);
        }
        return Some(path);
    }
    let init_state = *state;
    let mut searched: HashMap<u64, (State, State)> = HashMap::new();
    let mut searching: Vec<State> = vec![init_state];
    let k0 = init_state.key();
    searched.insert(k0, (init_state, init_state));
    let ghost mut depth: Map<u64, nat> = Map::empty().insert(k0, 0);
    let ghost mut pos: Map<u64, int> = Map::empty().insert(k0, 0);
    let ghost mut level: nat = 0;
    proof {
        reveal(linked);
        assert(searched@.dom() =~= Set::<u64>::empty().insert(k0));
        assert(searching@ =~= seq![init_state]);
        lemma_wave_start(searched@, depth, init_state, ty@, tx@);
    }
    while searching.len() > 0
        invariant
            init_state@ == state@,
            !goal(state@, ty@, tx@),
            ty@ == b4_target_y as int,
            tx@ == b4_target_x as int,
            recorded(searched@, init_state@),
            depth[key64(init_state@)] == 0,
            linked(searched@, depth, init_state@),
            wave(searched@, depth, pos, searching@, 0, Map::empty(), Seq::empty(), level, ty@, tx@),
            covers(searched@, depth, init_state@, level),
        decreases Set::<u64>::full().len() - searched@.dom().len(), searching@.len(),
    {
        let ghost len0 = searched@.dom().len();
        let ghost mut npos: Map<u64, int> = Map::empty();
        let mut next_searching: Vec<State> = Vec::new();
        let mut i: usize = 0;
        assert(next_searching@ =~= Seq::<State>::empty());
        while i < searching.len()
            invariant
                i <= searching@.len(),
                init_state@ == state@,
                !goal(state@, ty@, tx@),
                ty@ == b4_target_y as int,
                tx@ == b4_target_x as int,
                recorded(searched@, init_state@),
                depth[key64(init_state@)] == 0,
                linked(searched@, depth, init_state@),
                wave(searched@, depth, pos, searching@, i as int, npos, next_searching@, level, ty@, tx@),
                covers(searched@, depth, init_state@, level),
                searched@.dom().len() == len0 + next_searching@.len(),
            decreases searching@.len() - i,
        {
            let st = searching[i];
            proof {
                lemma_wave_recorded(searched@, depth, pos, searching@, i as int, npos, next_searching@, level, ty@, tx@);
            }
            assert(recorded(searched@, st@));
            let block0s = st.find_block0s();
            let mut c: usize = 0;
            while c < 8
                invariant
                    i < searching@.len(),
                    st == searching@[i as int],
                    forall|j: int| 0 <= j < 2 ==> #[trigger] block0s@[j].0 < 5 && block0s@[j].1 < 4,
                    forall|j: int|
                        0 <= j < 2 ==> (#[trigger] block0s@[j].0 as int, block0s@[j].1 as int) == blank_slot(st@, j),
                    c <= 8,
                    forall|cc: int|
                        0 <= cc < c && (#[trigger] tried(st@, cc / 4, cc % 4)) is Some ==> recorded(
                            searched@,
                            tried(st@, cc / 4, cc % 4)->0,
                        ),
                    recorded(searched@, st@),
                    depth[key64(st@)] == level,
                    init_state@ == state@,
                    !goal(state@, ty@, tx@),
                    ty@ == b4_target_y as int,
                    tx@ == b4_target_x as int,
                    recorded(searched@, init_state@),
                    depth[key64(init_state@)] == 0,
                    linked(searched@, depth, init_state@),
                    wave(searched@, depth, pos, searching@, i as int, npos, next_searching@, level, ty@, tx@),
                    covers(searched@, depth, init_state@, level),
                    searched@.dom().len() == len0 + next_searching@.len(),
                decreases 8 - c,
            {
                let (y0, x0) = block0s[c / 4];
                let d = c % 4;
                let ghost c0 = c as int;
                assert(c0 / 4 < 2 && c0 % 4 == d);
                c += 1;
                if let Some(next_state) = candidate(&st, y0, x0, d) {
                    proof {
                        assert(tried(st@, c0 / 4, c0 % 4) == Some(next_state@));
                        assert(step(st@, next_state@));
                    }
                    let (found, d2, np2) = visit(
                        &mut searched,
                        &mut next_searching,
                        Ghost(depth),
                        Ghost(pos),
                        Ghost(npos),
                        Ghost(searching@),
                        Ghost(i as int),
                        Ghost(level),
                        &init_state,
                        st,
                        next_state,
                        b4_target_y,
                        b4_target_x,
                    );
                    if found.is_some() {
                        return found;
                    }
                    proof {
                        depth = d2@;
                        npos = np2@;
                        assert(depth[key64(st@)] == level);
                        assert(depth[key64(init_state@)] == 0);
                    }
                }
                assert(tried(st@, c0 / 4, c0 % 4) is Some ==> recorded(
                    searched@,
                    tried(st@, c0 / 4, c0 % 4)->0,
                ));
            }
            proof {
                assert forall|j: int, d: int|
                    0 <= j < 2 && 0 <= d < 4 && (#[trigger] tried(st@, j, d)) is Some implies recorded(
                        searched@,
                        tried(st@, j, d)->0,
                    ) by {
                    let cc = j * 4 + d;
                    assert(cc / 4 == j && cc % 4 == d);
                    assert(0 <= cc < 8);
                }
                assert(closed(searched@, st@));
                lemma_wave_done(searched@, depth, pos, searching@, i as int, npos, next_searching@, level, ty@, tx@);
            }
            i += 1;
        }
        proof {
            vstd::set_lib::lemma_len_subset(searched@.dom(), Set::<u64>::full());
            reveal(linked);
            lemma_wave_next(searched@, depth, pos, searching@, npos, next_searching@, level, ty@, tx@, state@);
            pos = npos;
            level = level + 1;
        }
        searching = next_searching;
    }
    proof {
        assert(searching@ =~= Seq::<State>::empty());
        lemma_exhausted(searched@, depth, pos, level, state@, ty@, tx@);
    }
    None
}

} // verus!
