//! Piece movement on the mailbox board: the moves of pawns, knights, sliding
//! pieces and single king steps, as lists of `from, to` cell pairs.
use vstd::prelude::*;
use crate::square::{colour, colour_of, frame_ok, is_inner};

verus! {

/// Colour code of the pieces `white` may capture.
pub open spec fn enemy(white: bool) -> int {
    if white { 2 } else { 1 }
}

/// A piece of `white`'s side may move onto a cell holding `v`: the cell is
/// empty or holds an enemy piece.
pub open spec fn reachable(v: i32, white: bool) -> bool {
    v == 0 || colour(v) == enemy(white)
}

pub open spec fn pair(i: int, t: int) -> Seq<i32> {
    seq![i as i32, t as i32]
}

pub open spec fn king_dirs() -> Seq<i32> {
    seq![-11i32, -10i32, -9i32, -1i32, 1i32, 9i32, 10i32, 11i32]
}

pub open spec fn knight_jumps() -> Seq<i32> {
    seq![-21i32, -19i32, -12i32, -8i32, 8i32, 12i32, 19i32, 21i32]
}

pub open spec fn bishop_dirs() -> Seq<i32> {
    seq![-11i32, -9i32, 9i32, 11i32]
}

pub open spec fn rook_dirs() -> Seq<i32> {
    seq![-10i32, 10i32, -1i32, 1i32]
}

/// One of the eight directions of the board.
pub open spec fn is_dir(o: int) -> bool {
    o == -11 || o == -10 || o == -9 || o == -1 || o == 1 || o == 9 || o == 10 || o == 11
}

/// The cells a slider on `i` reaches from `t` on in direction `o`: it goes on
/// over empty cells and stops on the first enemy piece (included) or on any
/// other cell (excluded).
pub open spec fn slide(f: Seq<i32>, i: int, t: int, o: int, white: bool) -> Seq<i32>
    decreases (if o > 0 { 120 - t } else { t }),
{
    if o == 0 || t < 0 || t >= 120 || t >= f.len() {
        seq![]
    } else if !reachable(f[t], white) {
        seq![]
    } else if f[t] != 0 || !(0 <= t + o < 120) {
        pair(i, t)
    } else {
        pair(i, t) + slide(f, i, t + o, o, white)
    }
}

/// Slides in the first `n` directions of `dirs`.
pub open spec fn slides(f: Seq<i32>, i: int, dirs: Seq<i32>, n: int, white: bool) -> Seq<i32>
    decreases n,
{
    if n <= 0 {
        seq![]
    } else {
        slides(f, i, dirs, n - 1, white) + slide(f, i, i + dirs[n - 1], dirs[n - 1] as int, white)
    }
}

/// Single steps to the cells `i + offs[k]`, `k < n`, that are reachable.
pub open spec fn steps(f: Seq<i32>, i: int, offs: Seq<i32>, n: int, white: bool) -> Seq<i32>
    decreases n,
{
    if n <= 0 {
        seq![]
    } else {
        steps(f, i, offs, n - 1, white) + (if reachable(f[i + offs[n - 1]], white) {
            pair(i, i + offs[n - 1])
        } else {
            seq![]
        })
    }
}

/// Moves of a pawn on `i`: one step forward onto an empty cell, two from its
/// start rank over two empty cells, and diagonal captures.
pub open spec fn pawn_moves(f: Seq<i32>, i: int, white: bool) -> Seq<i32> {
    if white {
        (if f[i - 10] == 0 {
            pair(i, i - 10) + (if 81 <= i <= 88 && f[i - 20] == 0 { pair(i, i - 20) } else { seq![] })
        } else {
            seq![]
        }) + (if f[i - 9] >= 20 { pair(i, i - 9) } else { seq![] }) + (if f[i - 11] >= 20 {
            pair(i, i - 11)
        } else {
            seq![]
        })
    } else {
        (if f[i + 10] == 0 {
            pair(i, i + 10) + (if 31 <= i <= 38 && f[i + 20] == 0 { pair(i, i + 20) } else { seq![] })
        } else {
            seq![]
        }) + (if 0 < f[i + 9] < 20 { pair(i, i + 9) } else { seq![] }) + (if 0 < f[i + 11] < 20 {
            pair(i, i + 11)
        } else {
            seq![]
        })
    }
}

pub fn king_dir_array() -> (a: [i32; 8])
    ensures
        a@ == king_dirs(),
{
    let a = [-11, -10, -9, -1, 1, 9, 10, 11];
    assert(a@ =~= king_dirs());
    a
}

pub fn knight_jump_array() -> (a: [i32; 8])
    ensures
        a@ == knight_jumps(),
{
    let a = [-21, -19, -12, -8, 8, 12, 19, 21];
    assert(a@ =~= knight_jumps());
    a
}

pub fn bishop_dir_array() -> (a: [i32; 4])
    ensures
        a@ == bishop_dirs(),
{
    let a = [-11, -9, 9, 11];
    assert(a@ =~= bishop_dirs());
    a
}

pub fn rook_dir_array() -> (a: [i32; 4])
    ensures
        a@ == rook_dirs(),
{
    let a = [-10, 10, -1, 1];
    assert(a@ =~= rook_dirs());
    a
}

/// An empty cell lies inside the playing area.
pub proof fn lemma_empty_is_inner(f: Seq<i32>, t: int)
    requires
        frame_ok(f),
        0 <= t < 120,
        f[t] == 0 || reachable(f[t], true) || reachable(f[t], false),
    ensures
        is_inner(t),
{
    if !is_inner(t) {
        assert(f[t] == -11);
        assert(colour(-11i32) == -1);
    }
}

/// An even number of cells, all inside the playing area.
pub open spec fn inner_pairs(s: Seq<i32>) -> bool {
    &&& s.len() % 2 == 0
    &&& forall|k: int| 0 <= k < s.len() ==> is_inner(#[trigger] s[k] as int)
}

pub proof fn lemma_inner_pairs_concat(a: Seq<i32>, b: Seq<i32>)
    requires
        inner_pairs(a),
        inner_pairs(b),
    ensures
        inner_pairs(a + b),
{
    assert forall|k: int| 0 <= k < (a + b).len() implies is_inner(#[trigger] (a + b)[k] as int) by {
        if k < a.len() {
            assert((a + b)[k] == a[k]);
        } else {
            assert((a + b)[k] == b[k - a.len()]);
        }
    }
}

pub proof fn lemma_pair_inner(i: int, t: int)
    requires
        is_inner(i),
        is_inner(t),
    ensures
        inner_pairs(pair(i, t)),
{
}

pub proof fn lemma_slide_inner(f: Seq<i32>, i: int, t: int, o: int, white: bool)
    requires
        frame_ok(f),
        is_inner(i),
    ensures
        inner_pairs(slide(f, i, t, o, white)),
    decreases (if o > 0 { 120 - t } else { t }),
{
    if o == 0 || t < 0 || t >= 120 || t >= f.len() {
    } else if !reachable(f[t], white) {
    } else {
        lemma_empty_is_inner(f, t);
        lemma_pair_inner(i, t);
        if f[t] != 0 || !(0 <= t + o < 120) {
        } else {
            lemma_slide_inner(f, i, t + o, o, white);
            lemma_inner_pairs_concat(pair(i, t), slide(f, i, t + o, o, white));
        }
    }
}

pub proof fn lemma_slides_inner(f: Seq<i32>, i: int, dirs: Seq<i32>, n: int, white: bool)
    requires
        frame_ok(f),
        is_inner(i),
        n <= dirs.len(),
    ensures
        inner_pairs(slides(f, i, dirs, n, white)),
    decreases n,
{
    if n > 0 {
        lemma_slides_inner(f, i, dirs, n - 1, white);
        lemma_slide_inner(f, i, i + dirs[n - 1], dirs[n - 1] as int, white);
        lemma_inner_pairs_concat(
            slides(f, i, dirs, n - 1, white),
            slide(f, i, i + dirs[n - 1], dirs[n - 1] as int, white),
        );
    }
}

pub proof fn lemma_steps_inner(f: Seq<i32>, i: int, offs: Seq<i32>, n: int, white: bool)
    requires
        frame_ok(f),
        is_inner(i),
        n <= offs.len(),
        forall|k: int| 0 <= k < offs.len() ==> -21 <= #[trigger] offs[k] <= 21,
    ensures
        inner_pairs(steps(f, i, offs, n, white)),
    decreases n,
{
    if n > 0 {
        lemma_steps_inner(f, i, offs, n - 1, white);
        let t = i + offs[n - 1];
        assert(-21 <= offs[n - 1] <= 21);
        if reachable(f[t], white) {
            lemma_empty_is_inner(f, t);
            lemma_pair_inner(i, t);
            lemma_inner_pairs_concat(steps(f, i, offs, n - 1, white), pair(i, t));
        } else {
            assert(steps(f, i, offs, n, white) =~= steps(f, i, offs, n - 1, white));
        }
    }
}

pub proof fn lemma_pawn_inner(f: Seq<i32>, i: int, white: bool)
    requires
        frame_ok(f),
        is_inner(i),
    ensures
        inner_pairs(pawn_moves(f, i, white)),
{
    let e: Seq<i32> = seq![];
    assert(inner_pairs(e));
    if white {
        let a = if f[i - 10] == 0 {
            pair(i, i - 10) + (if 81 <= i <= 88 && f[i - 20] == 0 { pair(i, i - 20) } else { e })
        } else {
            e
        };
        if f[i - 10] == 0 {
            lemma_empty_is_inner(f, i - 10);
            if 81 <= i <= 88 && f[i - 20] == 0 {
                lemma_empty_is_inner(f, i - 20);
                lemma_inner_pairs_concat(pair(i, i - 10), pair(i, i - 20));
            } else {
                assert(pair(i, i - 10) + e =~= pair(i, i - 10));
            }
        }
        let b = if f[i - 9] >= 20 { pair(i, i - 9) } else { e };
        let c = if f[i - 11] >= 20 { pair(i, i - 11) } else { e };
        if f[i - 9] >= 20 {
            lemma_on_board_not_frame(f, i - 9);
        }
        if f[i - 11] >= 20 {
            lemma_on_board_not_frame(f, i - 11);
        }
        lemma_inner_pairs_concat(a, b);
        lemma_inner_pairs_concat(a + b, c);
    } else {
        let a = if f[i + 10] == 0 {
            pair(i, i + 10) + (if 31 <= i <= 38 && f[i + 20] == 0 { pair(i, i + 20) } else { e })
        } else {
            e
        };
        if f[i + 10] == 0 {
            lemma_empty_is_inner(f, i + 10);
            if 31 <= i <= 38 && f[i + 20] == 0 {
                lemma_empty_is_inner(f, i + 20);
                lemma_inner_pairs_concat(pair(i, i + 10), pair(i, i + 20));
            } else {
                assert(pair(i, i + 10) + e =~= pair(i, i + 10));
            }
        }
        let b = if 0 < f[i + 9] < 20 { pair(i, i + 9) } else { e };
        let c = if 0 < f[i + 11] < 20 { pair(i, i + 11) } else { e };
        if 0 < f[i + 9] < 20 {
            lemma_on_board_not_frame(f, i + 9);
        }
        if 0 < f[i + 11] < 20 {
            lemma_on_board_not_frame(f, i + 11);
        }
        lemma_inner_pairs_concat(a, b);
        lemma_inner_pairs_concat(a + b, c);
    }
}

/// A cell holding anything but the off-board marker lies inside the playing area.
pub proof fn lemma_on_board_not_frame(f: Seq<i32>, t: int)
    requires
        frame_ok(f),
        0 <= t < 120,
        f[t] != crate::square::OFF_BOARD,
    ensures
        is_inner(t),
{
}

/// Every `from, to` pair of `s` satisfies `p`.
pub open spec fn pairs_all(s: Seq<i32>, p: spec_fn(int, int) -> bool) -> bool {
    &&& s.len() % 2 == 0
    &&& forall|k: int| 0 <= k < s.len() / 2 ==> #[trigger] p(s[2 * k] as int, s[2 * k + 1] as int)
}

pub proof fn lemma_pairs_all_concat(a: Seq<i32>, b: Seq<i32>, p: spec_fn(int, int) -> bool)
    requires
        pairs_all(a, p),
        pairs_all(b, p),
    ensures
        pairs_all(a + b, p),
{
    let c = a + b;
    assert forall|k: int| 0 <= k < c.len() / 2 implies #[trigger] p(c[2 * k] as int, c[2 * k + 1] as int) by {
        if k < a.len() / 2 {
            assert(c[2 * k] == a[2 * k] && c[2 * k + 1] == a[2 * k + 1]);
        } else {
            let j = k - a.len() / 2;
            assert(c[2 * k] == b[2 * j] && c[2 * k + 1] == b[2 * j + 1]);
            assert(p(b[2 * j] as int, b[2 * j + 1] as int));
        }
    }
}

pub proof fn lemma_pairs_all_pair(i: int, t: int, p: spec_fn(int, int) -> bool)
    requires
        p(i as i32 as int, t as i32 as int),
    ensures
        pairs_all(pair(i, t), p),
{
    assert(pair(i, t)[0] == i as i32);
}

pub proof fn lemma_pairs_all_empty(p: spec_fn(int, int) -> bool)
    ensures
        pairs_all(Seq::<i32>::empty(), p),
{
}

/// What a move of `white`'s piece from `i` onto `t` finds there: an empty
/// cell or a cell a pawn or a piece may capture on.
pub open spec fn good_target(f: Seq<i32>, i: int, t: int, white: bool) -> bool {
    &&& t != i
    &&& 0 <= t < 120
    &&& (f[t] == 0 || reachable(f[t], white) || (white && f[t] >= 20) || (!white && 0 < f[t] < 20))
}

/// The pairs start on `i` and end on a good target.
pub open spec fn from_cell(f: Seq<i32>, i: int, white: bool) -> spec_fn(int, int) -> bool {
    |a: int, t: int| a == i && good_target(f, i, t, white)
}

pub proof fn lemma_slide_targets(f: Seq<i32>, i: int, t: int, o: int, white: bool)
    requires
        frame_ok(f),
        is_inner(i),
        is_dir(o),
        (o > 0 && t > i) || (o < 0 && t < i),
    ensures
        pairs_all(slide(f, i, t, o, white), from_cell(f, i, white)),
    decreases (if o > 0 { 120 - t } else { t }),
{
    if o == 0 || t < 0 || t >= 120 || t >= f.len() {
    } else if !reachable(f[t], white) {
    } else {
        lemma_empty_is_inner(f, t);
        lemma_pairs_all_pair(i, t, from_cell(f, i, white));
        if f[t] != 0 || !(0 <= t + o < 120) {
        } else {
            lemma_slide_targets(f, i, t + o, o, white);
            lemma_pairs_all_concat(pair(i, t), slide(f, i, t + o, o, white), from_cell(f, i, white));
        }
    }
}

pub proof fn lemma_slides_targets(f: Seq<i32>, i: int, dirs: Seq<i32>, n: int, white: bool)
    requires
        frame_ok(f),
        is_inner(i),
        n <= dirs.len(),
        forall|k: int| 0 <= k < dirs.len() ==> is_dir(#[trigger] dirs[k] as int),
    ensures
        pairs_all(slides(f, i, dirs, n, white), from_cell(f, i, white)),
    decreases n,
{
    if n > 0 {
        lemma_slides_targets(f, i, dirs, n - 1, white);
        assert(is_dir(dirs[n - 1] as int));
        lemma_slide_targets(f, i, i + dirs[n - 1], dirs[n - 1] as int, white);
        lemma_pairs_all_concat(
            slides(f, i, dirs, n - 1, white),
            slide(f, i, i + dirs[n - 1], dirs[n - 1] as int, white),
            from_cell(f, i, white),
        );
    } else {
        lemma_pairs_all_empty(from_cell(f, i, white));
    }
}

/// The pairs start on `i` and end `i + o` for an `o` of `offs`, on a good target.
pub open spec fn step_from(f: Seq<i32>, i: int, offs: Seq<i32>, white: bool) -> spec_fn(int, int) -> bool {
    |a: int, t: int| a == i && good_target(f, i, t, white) && exists|k: int| 0 <= k < offs.len() && t == i + #[trigger] offs[k]
}

pub proof fn lemma_steps_targets(f: Seq<i32>, i: int, offs: Seq<i32>, n: int, white: bool)
    requires
        frame_ok(f),
        is_inner(i),
        n <= offs.len(),
        forall|k: int| 0 <= k < offs.len() ==> -21 <= #[trigger] offs[k] <= 21 && offs[k] != 0,
    ensures
        pairs_all(steps(f, i, offs, n, white), step_from(f, i, offs, white)),
    decreases n,
{
    if n > 0 {
        lemma_steps_targets(f, i, offs, n - 1, white);
        let t = i + offs[n - 1];
        assert(-21 <= offs[n - 1] <= 21 && offs[n - 1] != 0);
        if reachable(f[t], white) {
            assert(step_from(f, i, offs, white)(i, t));
            lemma_pairs_all_pair(i, t, step_from(f, i, offs, white));
            lemma_pairs_all_concat(steps(f, i, offs, n - 1, white), pair(i, t), step_from(f, i, offs, white));
        } else {
            assert(steps(f, i, offs, n, white) =~= steps(f, i, offs, n - 1, white));
        }
    } else {
        lemma_pairs_all_empty(step_from(f, i, offs, white));
    }
}

pub proof fn lemma_pawn_targets(f: Seq<i32>, i: int, white: bool)
    requires
        frame_ok(f),
        is_inner(i),
    ensures
        pairs_all(pawn_moves(f, i, white), from_cell(f, i, white)),
{
    let p = from_cell(f, i, white);
    let e: Seq<i32> = seq![];
    lemma_pairs_all_empty(p);
    if white {
        let a = if f[i - 10] == 0 {
            pair(i, i - 10) + (if 81 <= i <= 88 && f[i - 20] == 0 { pair(i, i - 20) } else { e })
        } else {
            e
        };
        if f[i - 10] == 0 {
            lemma_pairs_all_pair(i, i - 10, p);
            if 81 <= i <= 88 && f[i - 20] == 0 {
                lemma_pairs_all_pair(i, i - 20, p);
                lemma_pairs_all_concat(pair(i, i - 10), pair(i, i - 20), p);
            } else {
                assert(pair(i, i - 10) + e =~= pair(i, i - 10));
            }
        }
        let b = if f[i - 9] >= 20 { pair(i, i - 9) } else { e };
        let c = if f[i - 11] >= 20 { pair(i, i - 11) } else { e };
        if f[i - 9] >= 20 {
            lemma_pairs_all_pair(i, i - 9, p);
        }
        if f[i - 11] >= 20 {
            lemma_pairs_all_pair(i, i - 11, p);
        }
        lemma_pairs_all_concat(a, b, p);
        lemma_pairs_all_concat(a + b, c, p);
    } else {
        let a = if f[i + 10] == 0 {
            pair(i, i + 10) + (if 31 <= i <= 38 && f[i + 20] == 0 { pair(i, i + 20) } else { e })
        } else {
            e
        };
        if f[i + 10] == 0 {
            lemma_pairs_all_pair(i, i + 10, p);
            if 31 <= i <= 38 && f[i + 20] == 0 {
                lemma_pairs_all_pair(i, i + 20, p);
                lemma_pairs_all_concat(pair(i, i + 10), pair(i, i + 20), p);
            } else {
                assert(pair(i, i + 10) + e =~= pair(i, i + 10));
            }
        }
        let b = if 0 < f[i + 9] < 20 { pair(i, i + 9) } else { e };
        let c = if 0 < f[i + 11] < 20 { pair(i, i + 11) } else { e };
        if 0 < f[i + 9] < 20 {
            lemma_pairs_all_pair(i, i + 9, p);
        }
        if 0 < f[i + 11] < 20 {
            lemma_pairs_all_pair(i, i + 11, p);
        }
        lemma_pairs_all_concat(a, b, p);
        lemma_pairs_all_concat(a + b, c, p);
    }
}

/// Appends the slide from `i` in direction `o`.
pub fn push_slide(field: &[i32; 120], i: i32, o: i32, white: bool, moves: &mut Vec<i32>)
    requires
        frame_ok(field@),
        is_inner(i as int),
        is_dir(o as int),
    ensures
        final(moves)@ == old(moves)@ + slide(field@, i as int, i + o, o as int, white),
{
    let mut t: i32 = i + o;
    let ghost start = old(moves)@;
    loop
        invariant_except_break
            start + slide(field@, i as int, i + o, o as int, white) == moves@ + slide(
                field@,
                i as int,
                t as int,
                o as int,
                white,
            ),
        invariant
            frame_ok(field@),
            is_inner(i as int),
            is_dir(o as int),
            is_inner(t - o),
            0 <= t < 120,
        ensures
            moves@ == start + slide(field@, i as int, i + o, o as int, white),
        decreases (if o > 0 { 120 - t } else { t as int }),
    {
        let v = field[t as usize];
        let c = colour_of(v);
        let opp: i32 = if white { 2 } else { 1 };
        if !(v == 0 || c == opp) {
            assert(slide(field@, i as int, t as int, o as int, white) == Seq::<i32>::empty());
            assert(moves@ + Seq::<i32>::empty() =~= moves@);
            break;
        }
        proof {
            lemma_empty_is_inner(field@, t as int);
        }
        let ghost before = moves@;
        moves.push(i);
        moves.push(t);
        assert(moves@ =~= before + pair(i as int, t as int));
        if v != 0 {
            assert(slide(field@, i as int, t as int, o as int, white) == pair(i as int, t as int));
            break;
        }
        assert(slide(field@, i as int, t as int, o as int, white) == pair(i as int, t as int)
            + slide(field@, i as int, t + o, o as int, white));
        assert(before + (pair(i as int, t as int) + slide(field@, i as int, t + o, o as int, white))
            =~= moves@ + slide(field@, i as int, t + o, o as int, white));
        t = t + o;
    }
}


/// Appends the slides from `i` in all directions of `dirs`.
pub fn push_slides(field: &[i32; 120], i: i32, dirs: &[i32], white: bool, moves: &mut Vec<i32>)
    requires
        frame_ok(field@),
        is_inner(i as int),
        forall|k: int| 0 <= k < dirs@.len() ==> is_dir(#[trigger] dirs@[k] as int),
    ensures
        final(moves)@ == old(moves)@ + slides(field@, i as int, dirs@, dirs@.len() as int, white),
{
    let ghost start = old(moves)@;
    let mut k: usize = 0;
    while k < dirs.len()
        invariant
            frame_ok(field@),
            is_inner(i as int),
            forall|j: int| 0 <= j < dirs@.len() ==> is_dir(#[trigger] dirs@[j] as int),
            k <= dirs@.len(),
            moves@ == start + slides(field@, i as int, dirs@, k as int, white),
        decreases dirs@.len() - k,
    {
        let o = dirs[k];
        assert(is_dir(dirs@[k as int] as int));
        push_slide(field, i, o, white, moves);
        assert(moves@ =~= start + slides(field@, i as int, dirs@, k + 1, white));
        k = k + 1;
    }
}

/// Appends the single steps from `i` to the reachable cells `i + offs[k]`.
pub fn push_steps(field: &[i32; 120], i: i32, offs: &[i32], white: bool, moves: &mut Vec<i32>)
    requires
        is_inner(i as int),
        forall|k: int| 0 <= k < offs@.len() ==> -21 <= #[trigger] offs@[k] <= 21,
    ensures
        final(moves)@ == old(moves)@ + steps(field@, i as int, offs@, offs@.len() as int, white),
{
    let ghost start = old(moves)@;
    let mut k: usize = 0;
    while k < offs.len()
        invariant
            is_inner(i as int),
            forall|j: int| 0 <= j < offs@.len() ==> -21 <= #[trigger] offs@[j] <= 21,
            k <= offs@.len(),
            moves@ == start + steps(field@, i as int, offs@, k as int, white),
        decreases offs@.len() - k,
    {
        let o = offs[k];
        assert(-21 <= offs@[k as int] <= 21);
        let t = i + o;
        let v = field[t as usize];
        let opp: i32 = if white { 2 } else { 1 };
        if v == 0 || colour_of(v) == opp {
            moves.push(i);
            moves.push(t);
        }
        assert(moves@ =~= start + steps(field@, i as int, offs@, k + 1, white));
        k = k + 1;
    }
}

/// Appends the moves of a pawn of `white`'s side on `i`.
pub fn push_pawn_moves(field: &[i32; 120], i: i32, white: bool, moves: &mut Vec<i32>)
    requires
        is_inner(i as int),
    ensures
        final(moves)@ == old(moves)@ + pawn_moves(field@, i as int, white),
{
    let ghost start = old(moves)@;
    let iu = i as usize;
    if white {
        if field[iu - 10] == 0 {
            moves.push(i);
            moves.push(i - 10);
            if i >= 81 && i <= 88 && field[iu - 20] == 0 {
                moves.push(i);
                moves.push(i - 20);
            }
        }
        let ghost m1 = moves@;
        if field[iu - 9] >= 20 {
            moves.push(i);
            moves.push(i - 9);
        }
        let ghost m2 = moves@;
        if field[iu - 11] >= 20 {
            moves.push(i);
            moves.push(i - 11);
        }
        assert(moves@ =~= start + pawn_moves(field@, i as int, white));
    } else {
        if field[iu + 10] == 0 {
            moves.push(i);
            moves.push(i + 10);
            if i >= 31 && i <= 38 && field[iu + 20] == 0 {
                moves.push(i);
                moves.push(i + 20);
            }
        }
        if field[iu + 9] < 20 && field[iu + 9] > 0 {
            moves.push(i);
            moves.push(i + 9);
        }
        if field[iu + 11] < 20 && field[iu + 11] > 0 {
            moves.push(i);
            moves.push(i + 11);
        }
        assert(moves@ =~= start + pawn_moves(field@, i as int, white));
    }
}

} // verus!
